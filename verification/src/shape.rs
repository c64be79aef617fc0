//! The arrangement of a counting tree: which word stands at which node, with
//! which count, and how a word is found or hung by descent from the root.

use crate::bag::{
    copies, is_report_of, keys, lemma_copies, lemma_report_keys, lemma_report_unique, Entry,
};
use crate::order::{
    lemma_word_less_asymmetric, lemma_word_less_irreflexive, lemma_word_less_transitive,
    lemma_word_less_trichotomy, word_less,
};
use vstd::multiset::*;
use vstd::prelude::*;
use vstd::seq_lib::to_multiset_build;

verus! {

broadcast use vstd::multiset::group_multiset_axioms;

/// A tree of words: empty, or a node with a left subtree, a word, its count
/// and a right subtree.
pub enum Shape {
    Empty,
    Node(Box<Shape>, Seq<char>, nat, Box<Shape>),
}

impl Shape {
    /// Every word of the tree, as often as its node counts it.
    pub open spec fn words(self) -> Multiset<Seq<char>>
        decreases self,
    {
        match self {
            Shape::Empty => Multiset::empty(),
            Shape::Node(l, w, n, r) => l.words().add(r.words()).add(copies(w, n)),
        }
    }

    /// The search-tree invariant: at every node the count is positive, every
    /// word on the left comes before the node's word and every word on the
    /// right after it.
    pub open spec fn ordered(self) -> bool
        decreases self,
    {
        match self {
            Shape::Empty => true,
            Shape::Node(l, w, n, r) => {
                &&& n >= 1
                &&& forall|v: Seq<char>| #[trigger] l.words().count(v) > 0 ==> word_less(v, w)
                &&& forall|v: Seq<char>| #[trigger] r.words().count(v) > 0 ==> word_less(w, v)
                &&& l.ordered()
                &&& r.ordered()
            },
        }
    }

    /// The entries of the tree read left to right: the left subtree, the node,
    /// the right subtree.
    pub open spec fn inorder(self) -> Seq<Entry>
        decreases self,
    {
        match self {
            Shape::Empty => Seq::empty(),
            Shape::Node(l, w, n, r) => l.inorder() + seq![(w, n)] + r.inorder(),
        }
    }

    /// The number of nodes.
    pub open spec fn size(self) -> nat
        decreases self,
    {
        match self {
            Shape::Empty => 0,
            Shape::Node(l, _, _, r) => l.size() + 1 + r.size(),
        }
    }
}

/// The tree after `k` was counted once more. The descent starts at the root:
/// a node whose word equals `k` gets its count raised, a smaller `k` goes
/// left, a greater one right, and where the descent finds no node a leaf
/// with count one is hung. Nothing else changes.
pub open spec fn inserted(t: Shape, k: Seq<char>) -> Shape
    decreases t,
{
    match t {
        Shape::Empty => Shape::Node(Box::new(Shape::Empty), k, 1, Box::new(Shape::Empty)),
        Shape::Node(l, w, n, r) => if k == w {
            Shape::Node(l, w, n + 1, r)
        } else if word_less(k, w) {
            Shape::Node(Box::new(inserted(*l, k)), w, n, r)
        } else {
            Shape::Node(l, w, n, Box::new(inserted(*r, k)))
        },
    }
}

/// The tree after each of `words` was counted once more, from the first to the last.
pub open spec fn inserted_all(t: Shape, words: Seq<Seq<char>>) -> Shape
    decreases words.len(),
{
    if words.len() == 0 {
        t
    } else {
        inserted(inserted_all(t, words.drop_last()), words.last())
    }
}

/// Counting a word adds it once to the words of the tree.
pub proof fn lemma_inserted_words(t: Shape, k: Seq<char>)
    ensures
        inserted(t, k).words() == t.words().insert(k),
    decreases t,
{
    match t {
        Shape::Empty => {
            assert(copies(k, 1) =~= Multiset::singleton(k)) by {
                reveal_with_fuel(copies, 2);
            }
            assert(inserted(t, k).words() =~= t.words().insert(k));
        },
        Shape::Node(l, w, n, r) => {
            if k == w {
            } else if word_less(k, w) {
                lemma_inserted_words(*l, k);
            } else {
                lemma_inserted_words(*r, k);
            }
            assert(inserted(t, k).words() =~= t.words().insert(k));
        },
    }
}

/// Counting a word keeps a search tree a search tree.
pub proof fn lemma_inserted_ordered(t: Shape, k: Seq<char>)
    requires
        t.ordered(),
    ensures
        inserted(t, k).ordered(),
    decreases t,
{
    match t {
        Shape::Empty => {},
        Shape::Node(l, w, n, r) => {
            lemma_word_less_trichotomy(k, w);
            if k == w {
            } else if word_less(k, w) {
                lemma_inserted_ordered(*l, k);
                lemma_inserted_words(*l, k);
                assert forall|v: Seq<char>| #[trigger]
                    inserted(*l, k).words().count(v) > 0 implies word_less(v, w) by {
                    if v != k {
                        assert(l.words().count(v) > 0);
                    }
                }
            } else {
                lemma_inserted_ordered(*r, k);
                lemma_inserted_words(*r, k);
                assert forall|v: Seq<char>| #[trigger]
                    inserted(*r, k).words().count(v) > 0 implies word_less(w, v) by {
                    if v != k {
                        assert(r.words().count(v) > 0);
                    }
                }
            }
        },
    }
}

/// A word that the search tree holds is found by the descent, which then adds
/// no node; one that it does not hold adds exactly one.
pub proof fn lemma_inserted_size(t: Shape, k: Seq<char>)
    requires
        t.ordered(),
    ensures
        inserted(t, k).size() == t.size() + if t.words().count(k) == 0 {
            1nat
        } else {
            0nat
        },
    decreases t,
{
    match t {
        Shape::Empty => {},
        Shape::Node(l, w, n, r) => {
            lemma_copies(w, n);
            lemma_word_less_trichotomy(k, w);
            if k == w {
            } else if word_less(k, w) {
                lemma_inserted_size(*l, k);
                if r.words().count(k) > 0 {
                    lemma_word_less_asymmetric(k, w);
                }
            } else {
                lemma_inserted_size(*r, k);
                if l.words().count(k) > 0 {
                    lemma_word_less_asymmetric(w, k);
                }
            }
        },
    }
}

/// Read left to right, a tree has one entry for each node.
pub proof fn lemma_inorder_len(t: Shape)
    ensures
        t.inorder().len() == t.size(),
    decreases t,
{
    match t {
        Shape::Empty => {},
        Shape::Node(l, w, n, r) => {
            lemma_inorder_len(*l);
            lemma_inorder_len(*r);
        },
    }
}

/// Read left to right, a search tree gives the report of its words.
pub proof fn lemma_inorder_is_report(t: Shape)
    requires
        t.ordered(),
    ensures
        is_report_of(t.inorder(), t.words()),
    decreases t,
{
    match t {
        Shape::Empty => {},
        Shape::Node(lt, key, n, rt) => {
            let l = lt.inorder();
            let r = rt.inorder();
            let lb = lt.words();
            let rb = rt.words();
            let e = (key, n);
            let s = t.inorder();
            let bag = t.words();
            lemma_inorder_is_report(*lt);
            lemma_inorder_is_report(*rt);
            lemma_copies(key, n);
            lemma_word_less_irreflexive(key);
            assert forall|w: Seq<char>| lb.count(w) > 0 implies rb.count(w) == 0 && w != key by {
                lemma_word_less_asymmetric(w, key);
            }
            assert forall|w: Seq<char>| rb.count(w) > 0 implies lb.count(w) == 0 && w != key by {
                lemma_word_less_asymmetric(key, w);
            }
            assert forall|i: int| 0 <= i < s.len() implies (#[trigger] s[i]).1 > 0 && s[i].1
                == bag.count(s[i].0) by {
                if i < l.len() {
                    assert(s[i] == l[i]);
                    assert(lb.count(l[i].0) > 0);
                } else if i > l.len() {
                    assert(s[i] == r[i - l.len() - 1]);
                    assert(rb.count(r[i - l.len() - 1].0) > 0);
                }
            }
            assert forall|i: int, j: int| 0 <= i < j < s.len() implies word_less(
                #[trigger] s[i].0,
                #[trigger] s[j].0,
            ) by {
                if i < l.len() {
                    assert(s[i] == l[i]);
                    assert(lb.count(l[i].0) > 0);
                    if j < l.len() {
                        assert(s[j] == l[j]);
                    } else if j > l.len() {
                        assert(s[j] == r[j - l.len() - 1]);
                        assert(rb.count(r[j - l.len() - 1].0) > 0);
                        lemma_word_less_transitive(s[i].0, key, s[j].0);
                    }
                } else {
                    assert(s[j] == r[j - l.len() - 1]);
                    assert(rb.count(r[j - l.len() - 1].0) > 0);
                    if i > l.len() {
                        assert(s[i] == r[i - l.len() - 1]);
                    }
                }
            }
            assert forall|w: Seq<char>| #[trigger] bag.count(w) > 0 implies exists|i: int|
                0 <= i < s.len() && (#[trigger] s[i]).0 == w by {
                if lb.count(w) > 0 {
                    let k = choose|k: int| 0 <= k < l.len() && (#[trigger] l[k]).0 == w;
                    assert(s[k] == l[k]);
                } else if rb.count(w) > 0 {
                    let k = choose|k: int| 0 <= k < r.len() && (#[trigger] r[k]).0 == w;
                    assert(s[k + l.len() + 1] == r[k]);
                } else {
                    assert(s[l.len() as int] == e);
                }
            }
        },
    }
}

/// Counting a run of words keeps a search tree a search tree and adds the
/// words of the run to those of the tree.
pub proof fn lemma_inserted_all(t: Shape, words: Seq<Seq<char>>)
    requires
        t.ordered(),
    ensures
        inserted_all(t, words).ordered(),
        inserted_all(t, words).words() == t.words().add(words.to_multiset()),
    decreases words.len(),
{
    words.to_multiset_ensures();
    if words.len() == 0 {
        lemma_multiset_empty_len(words.to_multiset());
        assert(t.words().add(words.to_multiset()) =~= t.words());
    } else {
        let before = inserted_all(t, words.drop_last());
        lemma_inserted_all(t, words.drop_last());
        lemma_inserted_ordered(before, words.last());
        lemma_inserted_words(before, words.last());
        assert(words =~= words.drop_last().push(words.last()));
        to_multiset_build(words.drop_last(), words.last());
        assert(t.words().add(words.drop_last().to_multiset()).insert(words.last())
            =~= t.words().add(words.drop_last().to_multiset().insert(words.last())));
    }
}

/// The order in which words are counted does not matter for the report: two
/// runs that hold the same words, each as often in one as in the other, lead
/// from the same search tree to trees with the same entries, though the
/// trees themselves may differ.
pub proof fn lemma_order_irrelevant(t: Shape, a: Seq<Seq<char>>, b: Seq<Seq<char>>)
    requires
        t.ordered(),
        a.to_multiset() == b.to_multiset(),
    ensures
        inserted_all(t, a).words() == inserted_all(t, b).words(),
        inserted_all(t, a).inorder() == inserted_all(t, b).inorder(),
{
    lemma_inserted_all(t, a);
    lemma_inserted_all(t, b);
    lemma_inorder_is_report(inserted_all(t, a));
    lemma_inorder_is_report(inserted_all(t, b));
    lemma_report_unique(
        inserted_all(t, a).inorder(),
        inserted_all(t, b).inorder(),
        inserted_all(t, a).words(),
    );
}

/// Counting a word leaves every word of the search tree in its entries and
/// adds that word to them if it was not there: the number of entries grows
/// by one for a new word and stays for a known one.
pub proof fn lemma_inserted_keys(t: Shape, k: Seq<char>)
    requires
        t.ordered(),
    ensures
        keys(inserted(t, k).inorder()).to_set() == keys(t.inorder()).to_set().insert(k),
        inserted(t, k).inorder().len() == t.inorder().len() + if keys(t.inorder()).contains(k) {
            0nat
        } else {
            1nat
        },
{
    lemma_inserted_ordered(t, k);
    lemma_inserted_words(t, k);
    lemma_inorder_is_report(t);
    lemma_inorder_is_report(inserted(t, k));
    lemma_report_keys(t.inorder(), t.words());
    lemma_report_keys(inserted(t, k).inorder(), inserted(t, k).words());
    assert(keys(inserted(t, k).inorder()).to_set() =~= keys(t.inorder()).to_set().insert(k));
    lemma_inserted_size(t, k);
    lemma_inorder_len(t);
    lemma_inorder_len(inserted(t, k));
}

} // verus!
