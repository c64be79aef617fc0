//! The counting tree: a binary search tree keyed by word.

use crate::bag::{is_report_of, lemma_copies, lemma_report_is, report, Entry};
use crate::order::{compare, lemma_word_less_trichotomy, KeyOrder};
use crate::shape::{
    inserted, lemma_inorder_is_report, lemma_inserted_ordered, lemma_inserted_words, Shape,
};
use crate::text::{lemma_lines_concat, line, lines, push_decimal};
use vstd::multiset::*;
use vstd::prelude::*;
use vstd::string::StringExecFns;

verus! {

broadcast use vstd::multiset::group_multiset_axioms;

/// One distinct word with its count and the subtrees of the words before and after it.
pub struct WordListNode {
    key: String,
    count: u64,
    left: Option<Box<WordListNode>>,
    right: Option<Box<WordListNode>>,
}

/// What a vector of entries holds: each word by its characters, each count as a number.
pub open spec fn entries_view(v: Seq<(String, u64)>) -> Seq<Entry> {
    v.map_values(|e: (String, u64)| (e.0@, e.1 as nat))
}

impl View for WordListNode {
    type V = Multiset<Seq<char>>;

    /// Every word counted in this subtree, as often as it was counted.
    open spec fn view(&self) -> Multiset<Seq<char>> {
        self.shape().words()
    }
}

impl WordListNode {
    /// The arrangement of an optional subtree.
    spec fn shape_of(node: Option<Box<WordListNode>>) -> Shape
        decreases node,
    {
        match node {
            None => Shape::Empty,
            Some(n) => n.shape(),
        }
    }

    /// The arrangement of this subtree: this node with its word and count
    /// between what its left and its right child hold.
    pub closed spec fn shape(self) -> Shape
        decreases self,
    {
        Shape::Node(
            Box::new(Self::shape_of(self.left)),
            self.key@,
            self.count as nat,
            Box::new(Self::shape_of(self.right)),
        )
    }

    /// The invariant of the type: the subtree is a search tree.
    pub open spec fn wf(self) -> bool {
        self.shape().ordered()
    }

    /// A leaf that counts `key` once.
    pub fn new(key: String) -> (node: WordListNode)
        ensures
            node.shape() == inserted(Shape::Empty, key@),
            node.wf(),
            node@ == Multiset::singleton(key@),
    {
        proof {
            lemma_inserted_ordered(Shape::Empty, key@);
            lemma_inserted_words(Shape::Empty, key@);
            assert(Multiset::empty().insert(key@) =~= Multiset::singleton(key@));
        }
        WordListNode { key, count: 1, left: None, right: None }
    }

    /// Counts one more occurrence of `key`: the node that holds it is
    /// incremented, or a new leaf is hung where the search for it ends.
    pub fn increment(&mut self, key: String)
        requires
            old(self).wf(),
            old(self)@.count(key@) < u64::MAX,
        ensures
            final(self).shape() == inserted(old(self).shape(), key@),
            final(self).wf(),
            final(self)@ == old(self)@.insert(key@),
        decreases *old(self),
    {
        proof {
            lemma_copies(self.key@, self.count as nat);
            lemma_word_less_trichotomy(key@, self.key@);
            lemma_inserted_ordered(self.shape(), key@);
            lemma_inserted_words(self.shape(), key@);
        }
        match compare(key.as_str(), self.key.as_str()) {
            KeyOrder::Equal => {
                self.count += 1;
            },
            KeyOrder::Less => {
                match &mut self.left {
                    Some(c) => c.increment(key),
                    None => self.left = Some(Box::new(WordListNode::new(key))),
                }
                assert(Self::shape_of(self.left) == inserted(Self::shape_of(old(self).left), key@));
            },
            KeyOrder::Greater => {
                match &mut self.right {
                    Some(c) => c.increment(key),
                    None => self.right = Some(Box::new(WordListNode::new(key))),
                }
                assert(Self::shape_of(self.right) == inserted(
                    Self::shape_of(old(self).right),
                    key@,
                ));
            },
        }
    }

    fn collect(&self, out: &mut Vec<(String, u64)>)
        ensures
            entries_view(final(out)@) == entries_view(old(out)@) + self.shape().inorder(),
        decreases self,
    {
        if let Some(left) = &self.left {
            left.collect(out);
        }
        out.push((self.key.clone(), self.count));
        proof {
            assert(entries_view(out@) =~= entries_view(old(out)@) + Self::shape_of(
                self.left,
            ).inorder() + seq![(self.key@, self.count as nat)]);
        }
        if let Some(right) = &self.right {
            right.collect(out);
        }
        proof {
            assert(self.shape().inorder() == Self::shape_of(self.left).inorder() + seq![
                (self.key@, self.count as nat),
            ] + Self::shape_of(self.right).inorder());
            assert(entries_view(out@) =~= entries_view(old(out)@) + self.shape().inorder());
        }
    }

    /// The entries of this subtree in ascending order of their words.
    pub fn entries(&self) -> (r: Vec<(String, u64)>)
        requires
            self.wf(),
        ensures
            entries_view(r@) == self.shape().inorder(),
            entries_view(r@) == report(self@),
            is_report_of(report(self@), self@),
    {
        let mut r: Vec<(String, u64)> = Vec::new();
        self.collect(&mut r);
        proof {
            assert(entries_view(r@) =~= self.shape().inorder());
            lemma_inorder_is_report(self.shape());
            lemma_report_is(self.shape().inorder(), self@);
        }
        r
    }

    fn write_lines(&self, f: &mut String)
        ensures
            final(f)@ == old(f)@ + lines(self.shape().inorder()),
        decreases self,
    {
        if let Some(left) = &self.left {
            left.write_lines(f);
        }
        let ghost before = f@;
        f.append(self.key.as_str());
        f.push(' ');
        push_decimal(f, self.count);
        f.push('\n');
        proof {
            let e = (self.key@, self.count as nat);
            assert(f@ =~= before + line(e));
            assert(lines(seq![e]) =~= line(e)) by {
                assert(seq![e].drop_last() =~= Seq::<Entry>::empty());
                assert(lines(Seq::<Entry>::empty()) =~= Seq::<char>::empty());
            }
            lemma_lines_concat(Self::shape_of(self.left).inorder(), seq![e]);
        }
        if let Some(right) = &self.right {
            right.write_lines(f);
        }
        proof {
            lemma_lines_concat(
                Self::shape_of(self.left).inorder() + seq![(self.key@, self.count as nat)],
                Self::shape_of(self.right).inorder(),
            );
            assert(f@ =~= old(f)@ + lines(self.shape().inorder()));
        }
    }

    /// Appends the report of this subtree to `f`, one line per word.
    pub fn fmt(&self, f: &mut String)
        requires
            self.wf(),
        ensures
            final(f)@ == old(f)@ + lines(report(self@)),
            is_report_of(report(self@), self@),
    {
        proof {
            lemma_inorder_is_report(self.shape());
            lemma_report_is(self.shape().inorder(), self@);
        }
        self.write_lines(f);
    }
}

} // verus!
