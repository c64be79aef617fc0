use wordcount::list::{process, WordList};
use wordcount::tree::WordListNode;

fn owned(pairs: &[(&str, u64)]) -> Vec<(String, u64)> {
    pairs.iter().map(|(w, c)| (String::from(*w), *c)).collect()
}

fn counted(texts: &[&str]) -> WordList {
    let mut wl = WordList::new();
    for t in texts {
        process(&mut wl, t);
    }
    wl
}

#[test]
fn single_stream_report() {
    let wl = counted(&["the quick brown fox the lazy dog the"]);
    assert_eq!(wl.to_text(), "brown 1\ndog 1\nfox 1\nlazy 1\nquick 1\nthe 3\n");
}

#[test]
fn two_sources_accumulate_into_one_list() {
    let wl = counted(&["a b a", "b c"]);
    assert_eq!(wl.to_text(), "a 2\nb 2\nc 1\n");
    assert_eq!(wl.entries(), owned(&[("a", 2), ("b", 2), ("c", 1)]));
}

#[test]
fn empty_input_gives_no_lines() {
    assert_eq!(counted(&[]).to_text(), "");
    assert_eq!(counted(&[""]).to_text(), "");
    assert_eq!(counted(&[" \t\n ", "\r\n"]).to_text(), "");
    assert!(counted(&["   "]).entries().is_empty());
}

#[test]
fn new_list_is_empty() {
    let wl = WordList::new();
    assert!(wl.entries().is_empty());
    assert_eq!(wl.to_text(), "");
}

#[test]
fn increment_inserts_then_counts() {
    let mut wl = WordList::new();
    wl.increment(String::from("pear"));
    assert_eq!(wl.entries(), owned(&[("pear", 1)]));
    wl.increment(String::from("apple"));
    assert_eq!(wl.entries(), owned(&[("apple", 1), ("pear", 1)]));
    wl.increment(String::from("pear"));
    assert_eq!(wl.entries(), owned(&[("apple", 1), ("pear", 2)]));
    wl.increment(String::from("zebra"));
    wl.increment(String::from("pear"));
    assert_eq!(wl.entries(), owned(&[("apple", 1), ("pear", 3), ("zebra", 1)]));
}

#[test]
fn node_starts_at_one_and_grows_both_ways() {
    let mut node = WordListNode::new(String::from("m"));
    assert_eq!(node.entries(), owned(&[("m", 1)]));
    node.increment(String::from("m"));
    node.increment(String::from("c"));
    node.increment(String::from("x"));
    node.increment(String::from("a"));
    node.increment(String::from("e"));
    node.increment(String::from("x"));
    assert_eq!(node.entries(), owned(&[("a", 1), ("c", 1), ("e", 1), ("m", 2), ("x", 2)]));
    let mut out = String::from("report:\n");
    node.fmt(&mut out);
    assert_eq!(out, "report:\na 1\nc 1\ne 1\nm 2\nx 2\n");
}

#[test]
fn fmt_appends_to_what_is_there() {
    let wl = counted(&["b a"]);
    let mut out = String::from("# ");
    wl.fmt(&mut out);
    assert_eq!(out, "# a 1\nb 1\n");
    wl.fmt(&mut out);
    assert_eq!(out, "# a 1\nb 1\na 1\nb 1\n");
}

#[test]
fn counts_add_up_to_the_number_of_words() {
    let text = "one two  three two\tone\none four five five five";
    let wl = counted(&[text]);
    let sum: u64 = wl.entries().iter().map(|e| e.1).sum();
    assert_eq!(sum, 10);
    assert_eq!(sum as usize, text.split_whitespace().count());
}

#[test]
fn keys_are_the_distinct_words() {
    let text = "to be or not to be that is the question";
    let wl = counted(&[text]);
    let keys: Vec<String> = wl.entries().into_iter().map(|e| e.0).collect();
    let mut distinct: Vec<String> = text.split_whitespace().map(String::from).collect();
    distinct.sort();
    distinct.dedup();
    assert_eq!(keys, distinct);
    assert_eq!(keys, vec!["be", "is", "not", "or", "question", "that", "the", "to"]);
}

#[test]
fn entries_are_strictly_ascending() {
    let wl = counted(&["delta alpha charlie bravo alpha echo delta Alpha 10 9 _ ~"]);
    let entries = wl.entries();
    assert_eq!(entries.len(), 10);
    for pair in entries.windows(2) {
        assert!(pair[0].0 < pair[1].0);
    }
}

#[test]
fn order_of_insertion_does_not_change_the_report() {
    let a = counted(&["x y z x y x"]);
    let b = counted(&["z y x y x x"]);
    let c = counted(&["x x x", "y y", "z"]);
    let expected = owned(&[("x", 3), ("y", 2), ("z", 1)]);
    assert_eq!(a.entries(), expected);
    assert_eq!(b.entries(), expected);
    assert_eq!(c.entries(), expected);
    assert_eq!(a.to_text(), b.to_text());
    assert_eq!(b.to_text(), c.to_text());
}

#[test]
fn sorted_input_still_counts() {
    let mut wl = WordList::new();
    let mut expected = Vec::new();
    for i in 0..500u32 {
        let w = format!("w{:04}", i);
        wl.increment(w.clone());
        wl.increment(w.clone());
        expected.push((w, 2u64));
    }
    assert_eq!(wl.entries(), expected);
}

#[test]
fn order_is_by_bytes_without_folding() {
    let wl = counted(&["b B a A é z Z 1 ab a. (a) The the THE"]);
    let keys: Vec<String> = wl.entries().into_iter().map(|e| e.0).collect();
    assert_eq!(
        keys,
        vec!["(a)", "1", "A", "B", "THE", "The", "Z", "a", "a.", "ab", "b", "the", "z", "é"]
    );
}

#[test]
fn punctuation_stays_in_the_word() {
    let wl = counted(&["end. end end, end."]);
    assert_eq!(wl.to_text(), "end 1\nend, 1\nend. 2\n");
}

#[test]
fn counts_print_in_decimal() {
    let mut wl = WordList::new();
    for _ in 0..1234 {
        wl.increment(String::from("n"));
    }
    for _ in 0..10 {
        wl.increment(String::from("ten"));
    }
    assert_eq!(wl.to_text(), "n 1234\nten 10\n");
}
