//! Multisets of words, the mathematical model of a word list.

use crate::order::{lemma_word_less_asymmetric, lemma_word_less_irreflexive, word_less};
use vstd::multiset::*;
use vstd::prelude::*;

verus! {

broadcast use vstd::multiset::group_multiset_axioms;

/// The multiset that holds `w` exactly `n` times and nothing else.
pub open spec fn copies(w: Seq<char>, n: nat) -> Multiset<Seq<char>>
    decreases n,
{
    if n == 0 {
        Multiset::empty()
    } else {
        copies(w, (n - 1) as nat).insert(w)
    }
}

/// `copies(w, n)` counts `n` for `w`, zero for every other word, and has `n` members.
pub proof fn lemma_copies(w: Seq<char>, n: nat)
    ensures
        copies(w, n).count(w) == n,
        forall|v: Seq<char>| v != w ==> copies(w, n).count(v) == 0,
        copies(w, n).len() == n,
    decreases n,
{
    if n > 0 {
        lemma_copies(w, (n - 1) as nat);
    }
}

/// One line of a report: a word and how often it was counted.
pub type Entry = (Seq<char>, nat);

/// `s` is the report of `bag`: its words stand in strictly ascending order,
/// each with its positive count in `bag`, and every word of `bag` is there.
pub open spec fn is_report_of(s: Seq<Entry>, bag: Multiset<Seq<char>>) -> bool {
    &&& forall|i: int, j: int| 0 <= i < j < s.len() ==> word_less(#[trigger] s[i].0, #[trigger] s[j].0)
    &&& forall|i: int| 0 <= i < s.len() ==> (#[trigger] s[i]).1 > 0 && s[i].1 == bag.count(s[i].0)
    &&& forall|w: Seq<char>| #[trigger] bag.count(w) > 0 ==> exists|i: int| 0 <= i < s.len() && (#[trigger] s[i]).0 == w
}

/// The report of `bag`, where it has one.
pub open spec fn report(bag: Multiset<Seq<char>>) -> Seq<Entry> {
    choose|s: Seq<Entry>| is_report_of(s, bag)
}

/// The sum of the counts of a report.
pub open spec fn total(s: Seq<Entry>) -> nat
    decreases s.len(),
{
    if s.len() == 0 {
        0
    } else {
        s[0].1 + total(s.drop_first())
    }
}

/// What is left of a report of `bag` after its first line is a report of
/// `bag` without the copies of its first word.
proof fn lemma_report_tail(s: Seq<Entry>, bag: Multiset<Seq<char>>)
    requires
        is_report_of(s, bag),
        s.len() > 0,
    ensures
        copies(s[0].0, s[0].1).subset_of(bag),
        is_report_of(s.drop_first(), bag.sub(copies(s[0].0, s[0].1))),
{
    let head = s[0].0;
    let rest = bag.sub(copies(head, s[0].1));
    let t = s.drop_first();
    lemma_copies(head, s[0].1);
    assert forall|i: int| 0 <= i < t.len() implies (#[trigger] t[i]).1 > 0 && t[i].1
        == rest.count(t[i].0) by {
        assert(t[i] == s[i + 1]);
        assert(word_less(s[0].0, s[i + 1].0));
        lemma_word_less_asymmetric(s[0].0, s[i + 1].0);
    }
    assert forall|w: Seq<char>| #[trigger] rest.count(w) > 0 implies exists|i: int|
        0 <= i < t.len() && (#[trigger] t[i]).0 == w by {
        assert(bag.count(w) > 0);
        let k = choose|k: int| 0 <= k < s.len() && (#[trigger] s[k]).0 == w;
        assert(k != 0);
        assert(t[k - 1] == s[k]);
    }
    assert forall|i: int, j: int| 0 <= i < j < t.len() implies word_less(
        #[trigger] t[i].0,
        #[trigger] t[j].0,
    ) by {
        assert(t[i] == s[i + 1] && t[j] == s[j + 1]);
    }
}

/// A multiset has at most one report.
pub proof fn lemma_report_unique(a: Seq<Entry>, b: Seq<Entry>, bag: Multiset<Seq<char>>)
    requires
        is_report_of(a, bag),
        is_report_of(b, bag),
    ensures
        a == b,
    decreases a.len(),
{
    if a.len() == 0 {
        if b.len() > 0 {
            assert(bag.count(b[0].0) > 0);
        }
        assert(a =~= b);
    } else {
        assert(bag.count(a[0].0) > 0);
        let j = choose|j: int| 0 <= j < b.len() && (#[trigger] b[j]).0 == a[0].0;
        assert(bag.count(b[0].0) > 0);
        let i = choose|i: int| 0 <= i < a.len() && (#[trigger] a[i]).0 == b[0].0;
        if j > 0 {
            assert(word_less(b[0].0, b[j].0));
            if i > 0 {
                assert(word_less(a[0].0, a[i].0));
                lemma_word_less_asymmetric(b[0].0, b[j].0);
            } else {
                lemma_word_less_irreflexive(a[0].0);
            }
        }
        assert(a[0] == b[0]);
        lemma_report_tail(a, bag);
        lemma_report_tail(b, bag);
        lemma_report_unique(a.drop_first(), b.drop_first(), bag.sub(copies(a[0].0, a[0].1)));
        assert(a =~= seq![a[0]] + a.drop_first());
        assert(b =~= seq![b[0]] + b.drop_first());
    }
}

/// A report of `bag` is the report of `bag`.
pub proof fn lemma_report_is(s: Seq<Entry>, bag: Multiset<Seq<char>>)
    requires
        is_report_of(s, bag),
    ensures
        report(bag) == s,
{
    lemma_report_unique(report(bag), s, bag);
}

/// The counts of a report add up to the number of words counted.
pub proof fn lemma_report_total(s: Seq<Entry>, bag: Multiset<Seq<char>>)
    requires
        is_report_of(s, bag),
    ensures
        total(s) == bag.len(),
    decreases s.len(),
{
    if s.len() == 0 {
        if bag.len() > 0 {
            assert(bag.count(bag.choose()) > 0);
        }
    } else {
        lemma_report_tail(s, bag);
        lemma_copies(s[0].0, s[0].1);
        lemma_report_total(s.drop_first(), bag.sub(copies(s[0].0, s[0].1)));
    }
}

/// The empty multiset has the empty report: nothing counted, nothing to show.
pub proof fn lemma_report_of_nothing()
    ensures
        is_report_of(Seq::<Entry>::empty(), Multiset::<Seq<char>>::empty()),
        report(Multiset::<Seq<char>>::empty()) == Seq::<Entry>::empty(),
{
    lemma_report_is(Seq::<Entry>::empty(), Multiset::<Seq<char>>::empty());
}

/// The words of a report, in its order.
pub open spec fn keys(s: Seq<Entry>) -> Seq<Seq<char>> {
    s.map_values(|e: Entry| e.0)
}

/// The words of a report of `bag` are the words that `bag` holds, each once.
pub proof fn lemma_report_keys(s: Seq<Entry>, bag: Multiset<Seq<char>>)
    requires
        is_report_of(s, bag),
    ensures
        keys(s).no_duplicates(),
        forall|w: Seq<char>| keys(s).contains(w) <==> bag.count(w) > 0,
{
    assert forall|i: int, j: int| 0 <= i < j < s.len() implies keys(s)[i] != keys(s)[j] by {
        assert(word_less(s[i].0, s[j].0));
        lemma_word_less_asymmetric(s[i].0, s[j].0);
    }
    assert forall|w: Seq<char>| keys(s).contains(w) <==> bag.count(w) > 0 by {
        if keys(s).contains(w) {
            let i = choose|i: int| 0 <= i < keys(s).len() && keys(s)[i] == w;
            assert(bag.count(s[i].0) > 0);
        }
        if bag.count(w) > 0 {
            let i = choose|i: int| 0 <= i < s.len() && (#[trigger] s[i]).0 == w;
            assert(keys(s)[i] == w);
        }
    }
}

/// The counts of the report of a run of words add up to the length of the run.
pub proof fn lemma_counts_sum_to_words(s: Seq<Entry>, words: Seq<Seq<char>>)
    requires
        is_report_of(s, words.to_multiset()),
    ensures
        total(s) == words.len(),
{
    lemma_report_total(s, words.to_multiset());
    words.to_multiset_ensures();
}

/// The report of a run of words holds each word of the run once, and no other.
pub proof fn lemma_report_words(s: Seq<Entry>, words: Seq<Seq<char>>)
    requires
        is_report_of(s, words.to_multiset()),
    ensures
        keys(s).no_duplicates(),
        keys(s).to_set() == words.to_set(),
{
    words.to_multiset_ensures();
    lemma_report_keys(s, words.to_multiset());
    assert(keys(s).to_set() =~= words.to_set());
}

} // verus!
