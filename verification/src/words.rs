//! Splitting text into words: the maximal runs of characters that are not white space.


use vstd::prelude::*;

verus! {

broadcast use vstd::string::group_string_axioms;

/// White space: the characters that Unicode classes as `White_Space`.
pub open spec fn is_space(c: char) -> bool {
    let u = c as u32;
    ||| 0x09 <= u <= 0x0D
    ||| u == 0x20
    ||| u == 0x85
    ||| u == 0xA0
    ||| u == 0x1680
    ||| 0x2000 <= u <= 0x200A
    ||| u == 0x2028
    ||| u == 0x2029
    ||| u == 0x202F
    ||| u == 0x205F
    ||| u == 0x3000
}

/// Whether `c` is white space.
pub fn is_whitespace(c: char) -> (b: bool)
    ensures
        b == is_space(c),
{
    let u: u32 = c as u32;
    (0x09 <= u && u <= 0x0D) || u == 0x20 || u == 0x85 || u == 0xA0 || u == 0x1680 || (0x2000 <= u
        && u <= 0x200A) || u == 0x2028 || u == 0x2029 || u == 0x202F || u == 0x205F || u == 0x3000
}

/// How many characters stand at the start of `s` before its first white space.
pub open spec fn word_len(s: Seq<char>) -> nat
    decreases s.len(),
{
    if s.len() == 0 || is_space(s[0]) {
        0
    } else {
        1 + word_len(s.drop_first())
    }
}

/// The leading word of `s` is no longer than `s`.
pub proof fn lemma_word_len_bound(s: Seq<char>)
    ensures
        word_len(s) <= s.len(),
    decreases s.len(),
{
    if s.len() > 0 && !is_space(s[0]) {
        lemma_word_len_bound(s.drop_first());
    }
}

/// The words of `s`, in the order in which they stand: white space at the
/// start is passed over, then the leading word is taken whole, and so on
/// for what follows it.
pub open spec fn tokens(s: Seq<char>) -> Seq<Seq<char>>
    decreases s.len(),
    via tokens_decreases
{
    if s.len() == 0 {
        Seq::empty()
    } else if is_space(s[0]) {
        tokens(s.drop_first())
    } else {
        seq![s.take(word_len(s) as int)] + tokens(s.skip(word_len(s) as int))
    }
}

#[via_fn]
proof fn tokens_decreases(s: Seq<char>) {
    lemma_word_len_bound(s);
}

/// A text has no more words than characters.
pub proof fn lemma_tokens_len(s: Seq<char>)
    ensures
        tokens(s).len() <= s.len(),
    decreases s.len(),
{
    if s.len() > 0 {
        if is_space(s[0]) {
            lemma_tokens_len(s.drop_first());
        } else {
            lemma_word_len_bound(s);
            lemma_tokens_len(s.skip(word_len(s) as int));
        }
    }
}

/// Whether no character of `w` is white space.
pub open spec fn no_space(w: Seq<char>) -> bool {
    forall|i: int| 0 <= i < w.len() ==> !is_space(#[trigger] w[i])
}

/// A run without white space that is followed by white space, or by nothing,
/// is a leading word.
pub proof fn lemma_word_len_of_run(w: Seq<char>, rest: Seq<char>)
    requires
        no_space(w),
        rest.len() == 0 || is_space(rest[0]),
    ensures
        word_len(w + rest) == w.len(),
    decreases w.len(),
{
    if w.len() == 0 {
        assert(w + rest =~= rest);
    } else {
        assert((w + rest)[0] == w[0]);
        assert((w + rest).drop_first() =~= w.drop_first() + rest);
        assert forall|i: int| 0 <= i < w.drop_first().len() implies !is_space(
            #[trigger] w.drop_first()[i],
        ) by {
            assert(w.drop_first()[i] == w[i + 1]);
        }
        lemma_word_len_of_run(w.drop_first(), rest);
    }
}

/// A word followed by white space is the first word of the text, and the
/// others are those of what follows.
pub proof fn lemma_tokens_after_word(w: Seq<char>, rest: Seq<char>)
    requires
        no_space(w),
        w.len() > 0,
        rest.len() == 0 || is_space(rest[0]),
    ensures
        tokens(w + rest) == seq![w] + tokens(rest),
{
    lemma_word_len_of_run(w, rest);
    assert((w + rest)[0] == w[0]);
    assert((w + rest).take(w.len() as int) =~= w);
    assert((w + rest).skip(w.len() as int) =~= rest);
}

/// What a vector of words holds: each word by its characters.
pub open spec fn words_view(v: Seq<String>) -> Seq<Seq<char>> {
    v.map_values(|w: String| w@)
}

/// Splits `text` into its words.
pub fn split_words(text: &str) -> (words: Vec<String>)
    ensures
        words_view(words@) == tokens(text@),
{
    let mut words: Vec<String> = Vec::new();
    let mut cur = String::new();
    let mut in_word = false;
    proof {
        assert(cur@ + text@.skip(0) =~= text@);
        assert(words_view(words@) + tokens(text@) =~= tokens(text@));
    }
    for c in it: text.chars()
        invariant
            it.seq() == text@,
            in_word == (cur@.len() > 0),
            no_space(cur@),
            tokens(text@) == words_view(words@) + tokens(cur@ + text@.skip(it.index())),
    {
        let ghost rest = text@.skip(it.index());
        let ghost after = text@.skip(it.index() + 1);
        proof {
            assert(rest =~= seq![c] + after);
        }
        if is_whitespace(c) {
            if in_word {
                proof {
                    lemma_tokens_after_word(cur@, rest);
                    assert(rest.drop_first() =~= after);
                    assert(words_view(words@.push(cur)) =~= words_view(words@) + seq![cur@]);
                }
                words.push(cur);
                cur = String::new();
                in_word = false;
            } else {
                proof {
                    assert(cur@ + rest =~= rest);
                    assert(rest.drop_first() =~= after);
                }
            }
            proof {
                assert(cur@ + after =~= after);
            }
        } else {
            proof {
                assert(cur@ + rest =~= cur@.push(c) + after);
            }
            cur.push(c);
            in_word = true;
        }
    }
    proof {
        assert(text@.skip(text@.len() as int) =~= Seq::<char>::empty());
        assert(cur@ + Seq::<char>::empty() =~= cur@);
        if in_word {
            lemma_tokens_after_word(cur@, Seq::empty());
            assert(words_view(words@.push(cur)) =~= words_view(words@) + seq![cur@]);
        }
    }
    if in_word {
        words.push(cur);
    }
    words
}

} // verus!
