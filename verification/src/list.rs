//! The word list: a counting tree that may be empty, and the pass that fills it.

use crate::bag::{is_report_of, lemma_report_is, report, Entry};
use crate::shape::{inserted, inserted_all, lemma_inserted_ordered, lemma_inserted_words, Shape};
use crate::text::lines;
use crate::tree::{entries_view, WordListNode};
use crate::words::{split_words, tokens, words_view};
use vstd::multiset::*;
use vstd::prelude::*;
use vstd::seq_lib::lemma_multiset_commutative;

verus! {

broadcast use {vstd::multiset::group_multiset_axioms, vstd::seq_lib::to_multiset_build};

/// The words counted so far.
pub struct WordList {
    root: Option<WordListNode>,
}

impl View for WordList {
    type V = Multiset<Seq<char>>;

    /// Every word counted, as often as it was counted.
    open spec fn view(&self) -> Multiset<Seq<char>> {
        self.shape().words()
    }
}

impl WordList {
    /// The arrangement of the tree: empty for a list without root.
    pub closed spec fn shape(self) -> Shape {
        match self.root {
            None => Shape::Empty,
            Some(n) => n.shape(),
        }
    }

    /// The invariant of the list: its tree is a search tree.
    pub open spec fn wf(self) -> bool {
        self.shape().ordered()
    }

    /// An empty list.
    pub fn new() -> (wl: WordList)
        ensures
            wl.shape() == Shape::Empty,
            wl.wf(),
            wl@ == Multiset::<Seq<char>>::empty(),
    {
        WordList { root: None }
    }

    /// Counts one more occurrence of `key`.
    pub fn increment(&mut self, key: String)
        requires
            old(self).wf(),
            old(self)@.count(key@) < u64::MAX,
        ensures
            final(self).shape() == inserted(old(self).shape(), key@),
            final(self).wf(),
            final(self)@ == old(self)@.insert(key@),
    {
        proof {
            lemma_inserted_ordered(self.shape(), key@);
            lemma_inserted_words(self.shape(), key@);
        }
        match &mut self.root {
            Some(root) => root.increment(key),
            None => self.root = Some(WordListNode::new(key)),
        }
    }

    /// The entries of the list in ascending order of their words.
    pub fn entries(&self) -> (r: Vec<(String, u64)>)
        requires
            self.wf(),
        ensures
            entries_view(r@) == self.shape().inorder(),
            entries_view(r@) == report(self@),
            is_report_of(report(self@), self@),
            self@.len() == 0 ==> r@.len() == 0,
    {
        match &self.root {
            Some(root) => {
                let r = root.entries();
                proof {
                    if r@.len() > 0 {
                        assert(self@.count(entries_view(r@)[0].0) > 0);
                    }
                }
                r
            },
            None => {
                let r: Vec<(String, u64)> = Vec::new();
                proof {
                    assert(entries_view(r@) =~= Seq::<Entry>::empty());
                    lemma_report_is(Seq::<Entry>::empty(), self@);
                }
                r
            },
        }
    }

    /// Appends the report of the list to `f`, one line per word.
    pub fn fmt(&self, f: &mut String)
        requires
            self.wf(),
        ensures
            final(f)@ == old(f)@ + lines(report(self@)),
            is_report_of(report(self@), self@),
            self@.len() == 0 ==> final(f)@ == old(f)@,
    {
        match &self.root {
            Some(root) => {
                root.fmt(f);
            },
            None => {
                proof {
                    lemma_report_is(Seq::<Entry>::empty(), self@);
                    assert(old(f)@ + lines(Seq::<Entry>::empty()) =~= old(f)@);
                }
            },
        }
    }

    /// The report of the list as text, one line per word.
    pub fn to_text(&self) -> (s: String)
        requires
            self.wf(),
        ensures
            s@ == lines(report(self@)),
            is_report_of(report(self@), self@),
            self@.len() == 0 ==> s@.len() == 0,
    {
        let mut s = String::new();
        self.fmt(&mut s);
        proof {
            assert(Seq::<char>::empty() + lines(report(self@)) =~= lines(report(self@)));
        }
        s
    }
}

/// Counts every word of `contents` in `wl`, in the order in which they stand.
pub fn process(wl: &mut WordList, contents: &str)
    requires
        old(wl).wf(),
        forall|w: Seq<char>|
            old(wl)@.count(w) + (#[trigger] tokens(contents@).to_multiset().count(w)) <= u64::MAX,
    ensures
        final(wl).shape() == inserted_all(old(wl).shape(), tokens(contents@)),
        final(wl).wf(),
        final(wl)@ == old(wl)@.add(tokens(contents@).to_multiset()),
        final(wl)@.len() == old(wl)@.len() + tokens(contents@).len(),
        tokens(contents@).len() == 0 ==> final(wl)@ == old(wl)@,
{
    let words = split_words(contents);
    let ghost toks = tokens(contents@);
    proof {
        assert(toks.take(0) =~= Seq::<Seq<char>>::empty());
        toks.take(0).to_multiset_ensures();
        lemma_multiset_empty_len(toks.take(0).to_multiset());
        assert(wl@ =~= old(wl)@.add(toks.take(0).to_multiset()));
    }
    for w in it: words.into_iter()
        invariant
            words_view(it.seq()) == toks,
            wl.wf(),
            wl.shape() == inserted_all(old(wl).shape(), toks.take(it.index())),
            wl@ == old(wl)@.add(toks.take(it.index()).to_multiset()),
            forall|v: Seq<char>|
                old(wl)@.count(v) + (#[trigger] toks.to_multiset().count(v)) <= u64::MAX,
    {
        let ghost i = it.index();
        proof {
            assert(toks[i] == w@);
            assert(toks.take(i + 1) =~= toks.take(i).push(toks[i]));
            assert(toks.take(i + 1).drop_last() =~= toks.take(i));
            assert(toks =~= toks.take(i + 1) + toks.skip(i + 1));
            lemma_multiset_commutative(toks.take(i + 1), toks.skip(i + 1));
            assert(toks.take(i + 1).to_multiset().count(w@) <= toks.to_multiset().count(w@));
        }
        wl.increment(w);
    }
    proof {
        assert(toks.take(toks.len() as int) =~= toks);
        toks.to_multiset_ensures();
        if toks.len() == 0 {
            assert(wl@ =~= old(wl)@);
        }
    }
}

} // verus!
