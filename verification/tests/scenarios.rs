use disktree::builder::Builder;
use disktree::error::Error;
use disktree::text::normalize;
use disktree::tree::Tree;
use disktree::writer::Writer;

fn sample_tree() -> Tree {
    let mut writer = Writer::new();
    for (key, val) in [("aaa", 1u64), ("aaa", 2), ("aab", 3), ("ab", 4), ("abc", 5), ("baa", 6)] {
        assert_eq!(writer.add(key, val), Ok(()));
    }
    Tree::new(writer.finish()).unwrap()
}

fn built(entries: &[(&str, u64)]) -> Tree {
    let mut builder = Builder::new();
    for (key, val) in entries {
        assert_eq!(builder.add(key, *val), Ok(()));
    }
    let mut progress = Vec::new();
    Tree::new(builder.build(&mut progress).unwrap()).unwrap()
}

#[test]
fn prefix_search_finds_every_key_below() {
    let tree = sample_tree();
    assert_eq!(tree.search("aaa"), Ok(vec![1, 2]));
    assert_eq!(tree.search("aa"), Ok(vec![1, 2, 3]));
    assert_eq!(tree.search("ab"), Ok(vec![4, 5]));
    assert_eq!(tree.search("a"), Ok(vec![1, 2, 3, 4, 5]));
    assert_eq!(tree.search("b"), Ok(vec![6]));
}

#[test]
fn prefix_search_for_an_unknown_key_is_empty() {
    let tree = sample_tree();
    assert_eq!(tree.search("c"), Ok(vec![]));
    assert_eq!(tree.search("aac"), Ok(vec![]));
    assert_eq!(tree.search("baaa"), Ok(vec![]));
}

#[test]
fn exact_search_reads_one_node_only() {
    let tree = sample_tree();
    assert_eq!(tree.exact_search("aa"), Ok(vec![]));
    assert_eq!(tree.exact_search("aaa"), Ok(vec![1, 2]));
    assert_eq!(tree.exact_search("ab"), Ok(vec![4]));
    assert_eq!(tree.exact_search("abc"), Ok(vec![5]));
    assert_eq!(tree.exact_search("zzz"), Ok(vec![]));
}

#[test]
fn exact_search_inside_a_label_reads_the_node_below() {
    let tree = sample_tree();
    assert_eq!(tree.exact_search("ba"), Ok(vec![6]));
    assert_eq!(tree.exact_search("b"), Ok(vec![6]));
}

#[test]
fn empty_query_matches_nothing_in_search_and_the_root_in_exact_search() {
    let mut writer = Writer::new();
    assert_eq!(writer.add("", 9), Ok(()));
    assert_eq!(writer.add("a", 1), Ok(()));
    let tree = Tree::new(writer.finish()).unwrap();
    assert_eq!(tree.search(""), Ok(vec![]));
    assert_eq!(tree.search("   "), Ok(vec![]));
    assert_eq!(tree.exact_search(""), Ok(vec![9]));
}

#[test]
fn title_is_found_by_each_of_its_words() {
    let tree = built(&[("The Quick Brown Fox", 42)]);
    assert_eq!(tree.search("brown"), Ok(vec![42]));
    assert_eq!(tree.search("fox"), Ok(vec![42]));
    assert_eq!(tree.search("quick"), Ok(vec![42]));
    assert_eq!(tree.search("the"), Ok(vec![42]));
    assert_eq!(tree.search("The Quick"), Ok(vec![42]));
    assert_eq!(tree.search("uick"), Ok(vec![]));
    assert_eq!(tree.exact_search("brown"), Ok(vec![]));
    assert_eq!(tree.exact_search("brown fox"), Ok(vec![]));
    assert_eq!(tree.exact_search("the quick brown fox"), Ok(vec![42]));
    assert_eq!(tree.exact_search("THE QUICK BROWN FOX"), Ok(vec![42]));
}

#[test]
fn round_trip_returns_the_values_of_each_key_sorted_and_once() {
    let tree = built(&[("Beta", 7), ("alpha", 3), ("beta", 2), ("Alpha", 3), ("alpha", 1), ("gamma", 0)]);
    assert_eq!(tree.exact_search("alpha"), Ok(vec![1, 3]));
    assert_eq!(tree.exact_search("beta"), Ok(vec![2, 7]));
    assert_eq!(tree.exact_search("gamma"), Ok(vec![0]));
    assert_eq!(tree.exact_search("delta"), Ok(vec![]));
}

#[test]
fn exact_search_never_returns_a_flagged_value() {
    let tree = built(&[("new york", 5), ("york", 6), ("old york", 0x0FFF_FFFF_FFFF_FFFF)]);
    assert_eq!(tree.exact_search("york"), Ok(vec![6]));
    assert_eq!(tree.search("york"), Ok(vec![5, 6, 0x0FFF_FFFF_FFFF_FFFF]));
    for id in tree.search("york").unwrap() {
        assert_eq!(id & 0x1000_0000_0000_0000, 0);
    }
}

#[test]
fn suffix_entries_start_after_punctuation_too() {
    let tree = built(&[("foo-bar", 1), ("a.b", 2), ("x  y", 3)]);
    assert_eq!(tree.search("bar"), Ok(vec![1]));
    assert_eq!(tree.search("b"), Ok(vec![1, 2]));
    assert_eq!(tree.search("y"), Ok(vec![3]));
    assert_eq!(tree.search("-bar"), Ok(vec![]));
    assert_eq!(tree.exact_search("bar"), Ok(vec![]));
}

#[test]
fn whitespace_before_punctuation_starts_a_suffix() {
    let tree = built(&[("a (b)", 4)]);
    assert_eq!(tree.search("(b"), Ok(vec![4]));
    assert_eq!(tree.search("b"), Ok(vec![4]));
}

#[test]
fn several_tokens_intersect() {
    let tree = built(&[("red apple", 1), ("green apple", 2), ("red pear", 3)]);
    assert_eq!(tree.search("red"), Ok(vec![1, 3]));
    assert_eq!(tree.search("apple"), Ok(vec![1, 2]));
    assert_eq!(tree.search("red apple"), Ok(vec![1]));
    assert_eq!(tree.search("apple red"), Ok(vec![1]));
    assert_eq!(tree.search("  red \t apple\n"), Ok(vec![1]));
    assert_eq!(tree.search("green pear"), Ok(vec![]));
    assert_eq!(tree.search("red plum"), Ok(vec![]));
    assert_eq!(tree.search("plum red"), Ok(vec![]));
}

#[test]
fn value_out_of_range_is_rejected_and_earlier_values_stay() {
    let mut builder = Builder::new();
    assert_eq!(builder.add("a", 1), Ok(()));
    assert_eq!(builder.add("b", 0x1000_0000_0000_0000), Err(Error::Range));
    assert_eq!(builder.add("b", u64::MAX), Err(Error::Range));
    assert_eq!(builder.add("c", 0x0FFF_FFFF_FFFF_FFFF), Ok(()));
    let mut progress = Vec::new();
    let tree = Tree::new(builder.build(&mut progress).unwrap()).unwrap();
    assert_eq!(tree.exact_search("a"), Ok(vec![1]));
    assert_eq!(tree.exact_search("b"), Ok(vec![]));
    assert_eq!(tree.exact_search("c"), Ok(vec![0x0FFF_FFFF_FFFF_FFFF]));
}

#[test]
fn add_after_build_is_refused() {
    let mut builder = Builder::new();
    assert_eq!(builder.add("a", 1), Ok(()));
    let mut progress = Vec::new();
    assert!(builder.build(&mut progress).is_ok());
    assert_eq!(builder.add("b", 2), Err(Error::Finished));
    assert_eq!(builder.add("b", u64::MAX), Err(Error::Finished));
}

#[test]
fn writer_refuses_a_key_that_sorts_before_the_last() {
    let mut writer = Writer::new();
    assert_eq!(writer.add("b", 1), Ok(()));
    assert_eq!(writer.add("a", 2), Err(Error::Order));
    assert_eq!(writer.add("", 3), Err(Error::Order));
    assert_eq!(writer.add("b", 4), Ok(()));
    assert_eq!(writer.add("ba", 5), Ok(()));
    assert_eq!(writer.add("b", 6), Err(Error::Order));
    assert_eq!(writer.add("c", 7), Ok(()));
    let tree = Tree::new(writer.finish()).unwrap();
    assert_eq!(tree.exact_search("b"), Ok(vec![1, 4]));
    assert_eq!(tree.exact_search("ba"), Ok(vec![5]));
    assert_eq!(tree.exact_search("c"), Ok(vec![7]));
    assert_eq!(tree.exact_search("a"), Ok(vec![]));
    assert_eq!(tree.search("b"), Ok(vec![1, 4, 5]));
}

#[test]
fn writer_keeps_the_order_of_values_and_their_repetitions() {
    let mut writer = Writer::new();
    assert_eq!(writer.add("k", 9), Ok(()));
    assert_eq!(writer.add("k", 3), Ok(()));
    assert_eq!(writer.add("k", 9), Ok(()));
    let tree = Tree::new(writer.finish()).unwrap();
    assert_eq!(tree.exact_search("k"), Ok(vec![9, 3, 9]));
    assert_eq!(tree.search("k"), Ok(vec![3, 9]));
}

#[test]
fn progress_reports_ascend_up_to_one_thousand() {
    let mut builder = Builder::new();
    for (key, val) in [("a", 1u64), ("b", 2), ("c", 3), ("d", 4)] {
        assert_eq!(builder.add(key, val), Ok(()));
    }
    let mut progress = vec![7];
    assert!(builder.build(&mut progress).is_ok());
    assert_eq!(progress, vec![7, 250, 500, 750, 1000]);
}

#[test]
fn progress_counts_repeated_values_in_the_total_only() {
    let mut builder = Builder::new();
    assert_eq!(builder.add("a", 1), Ok(()));
    assert_eq!(builder.add("a", 1), Ok(()));
    let mut progress = Vec::new();
    assert!(builder.build(&mut progress).is_ok());
    assert_eq!(progress, vec![500]);
}

#[test]
fn progress_is_reported_only_when_the_thousandth_advances() {
    let mut builder = Builder::new();
    for i in 0..3000u64 {
        assert_eq!(builder.add(&format!("k{:04}", i), i), Ok(()));
    }
    let mut progress = Vec::new();
    assert!(builder.build(&mut progress).is_ok());
    assert_eq!(progress.len(), 1000);
    assert_eq!(progress[0], 1);
    assert_eq!(progress[999], 1000);
    for pair in progress.windows(2) {
        assert!(pair[0] < pair[1]);
    }
}

#[test]
fn build_of_nothing_gives_an_empty_index() {
    let mut builder = Builder::new();
    let mut progress = Vec::new();
    let file = builder.build(&mut progress).unwrap();
    assert_eq!(file, vec![0, 0, 0, 0, 0, 0, 0, 0, 0, 0, 0, 0, 0, 0, 0, 0]);
    assert_eq!(progress, Vec::<u64>::new());
    let tree = Tree::new(file).unwrap();
    assert_eq!(tree.search("a"), Ok(vec![]));
    assert_eq!(tree.exact_search(""), Ok(vec![]));
}

#[test]
fn normalize_lowers_case_and_is_idempotent() {
    let once = normalize("The Quick BROWN Fox");
    assert_eq!(once.iter().collect::<String>(), "the quick brown fox");
    let text: String = once.iter().collect();
    assert_eq!(normalize(&text), once);
    let greek = normalize("ΟΔΟΣ Ärger");
    let again = normalize(&greek.iter().collect::<String>());
    assert_eq!(greek, again);
    assert_eq!(greek.iter().collect::<String>(), "οδος ärger");
}

#[test]
fn keys_with_several_bytes_to_a_character_split_between_characters() {
    let tree = built(&[("é", 1), ("è", 2), ("ée", 3), ("日本語", 4), ("日本", 5)]);
    assert_eq!(tree.exact_search("é"), Ok(vec![1]));
    assert_eq!(tree.exact_search("è"), Ok(vec![2]));
    assert_eq!(tree.exact_search("É"), Ok(vec![1]));
    assert_eq!(tree.search("é"), Ok(vec![1, 3]));
    assert_eq!(tree.search("日"), Ok(vec![4, 5]));
    assert_eq!(tree.search("日本語"), Ok(vec![4]));
    assert_eq!(tree.exact_search("日本"), Ok(vec![5]));
}

#[test]
fn many_keys_round_trip() {
    let mut builder = Builder::new();
    let mut state: u64 = 12345;
    let mut keys: Vec<(String, u64)> = Vec::new();
    for i in 0..500u64 {
        state = state.wrapping_mul(6364136223846793005).wrapping_add(1442695040888963407);
        let len = 1 + (state >> 60) as usize;
        let mut key = String::new();
        let mut bits = state;
        for _ in 0..len {
            key.push((b'a' + (bits % 3) as u8) as char);
            bits /= 3;
        }
        keys.push((key.clone(), i));
        assert_eq!(builder.add(&key, i), Ok(()));
    }
    let mut progress = Vec::new();
    let tree = Tree::new(builder.build(&mut progress).unwrap()).unwrap();
    for (key, _) in &keys {
        let mut exact: Vec<u64> = keys.iter().filter(|(k, _)| k == key).map(|(_, v)| *v).collect();
        exact.sort();
        exact.dedup();
        assert_eq!(tree.exact_search(key), Ok(exact));
        let mut below: Vec<u64> = keys.iter().filter(|(k, _)| k.starts_with(key.as_str())).map(|(_, v)| *v).collect();
        below.sort();
        below.dedup();
        assert_eq!(tree.search(key), Ok(below));
    }
}

#[test]
fn normalize_of_ascii_text_is_what_the_standard_library_gives() {
    let all: String = (0u8..128).map(|b| b as char).collect();
    let expected: Vec<char> = all.to_lowercase().chars().collect();
    assert_eq!(normalize(&all), expected);
    assert_eq!(normalize("AZ az @[ `{ 09"), "az az @[ `{ 09".chars().collect::<Vec<char>>());
    assert_eq!(normalize(""), Vec::<char>::new());
}

#[test]
fn normalize_of_other_text_lowers_every_letter() {
    assert_eq!(normalize("ÀB Ç"), "àb ç".chars().collect::<Vec<char>>());
    assert_eq!(normalize("İ"), "i\u{307}".chars().collect::<Vec<char>>());
    assert_eq!(normalize("ΑΣ"), "ας".chars().collect::<Vec<char>>());
}

#[test]
fn search_is_within_the_keys_that_start_with_the_query() {
    let titles = [("xyzzy", 1u64), ("Xylophone", 2), ("the xyz affair", 3), ("abc xy", 4), ("wxyz", 5), ("xyz", 6)];
    let tree = built(&titles);
    assert_eq!(tree.search("xyz"), Ok(vec![1, 3, 6]));
    assert_eq!(tree.exact_search("xyz"), Ok(vec![6]));
    assert_eq!(tree.search("xy"), Ok(vec![1, 2, 3, 4, 6]));
    assert_eq!(tree.search("wxyz"), Ok(vec![5]));
}
