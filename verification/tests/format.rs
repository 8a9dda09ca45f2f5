use disktree::builder::{decode_values, staged_entries, write_staged};
use disktree::error::Error;
use disktree::node::{put_char, put_label, write_node, Edge};
use disktree::progress::Progress;
use disktree::staging::{rank_keys, Rank, Staging};
use disktree::text::{
    chars_of, classify_alnum, classify_space, diff_start, split_words, starts_with, suffix_cuts,
    word_break,
};
use disktree::tree::Tree;
use disktree::values::{intersect, sorted_unique};
use disktree::wire::{get_u32, get_u64, put_u32, put_u64};
use disktree::writer::Writer;

fn chars(s: &str) -> Vec<char> {
    s.chars().collect()
}

#[test]
fn integers_are_written_most_significant_byte_first() {
    let mut out = vec![0xAA];
    put_u32(&mut out, 0x0102_0304);
    put_u64(&mut out, 0x1122_3344_5566_7788);
    assert_eq!(out, vec![0xAA, 1, 2, 3, 4, 0x11, 0x22, 0x33, 0x44, 0x55, 0x66, 0x77, 0x88]);
    assert_eq!(get_u32(&out, 1), Some(0x0102_0304));
    assert_eq!(get_u64(&out, 5), Some(0x1122_3344_5566_7788));
    assert_eq!(get_u64(&out, 6), None);
    assert_eq!(get_u32(&out, 10), None);
    assert_eq!(get_u32(&out, usize::MAX), None);
}

#[test]
fn characters_are_written_in_utf8() {
    for c in ['a', '\u{7f}', '\u{80}', 'é', '\u{7ff}', '\u{800}', '日', '\u{ffff}', '\u{10000}', '😀', '\u{10ffff}'] {
        let mut out = Vec::new();
        put_char(&mut out, c);
        assert_eq!(out, c.to_string().into_bytes());
    }
}

#[test]
fn label_is_its_length_in_bytes_and_its_utf8_form() {
    let mut out = Vec::new();
    put_label(&mut out, &chars("aé"));
    assert_eq!(out, vec![0, 0, 0, 3, 0x61, 0xC3, 0xA9]);
}

#[test]
fn node_layout_is_values_then_edges() {
    let mut out = vec![0xFF];
    let values = vec![1u64, 0x1000_0000_0000_0002];
    let edges = vec![Edge { label: chars("ab"), child: 7 }];
    let off = write_node(&mut out, 100, &values, &edges);
    assert_eq!(off, 101);
    assert_eq!(
        out,
        vec![
            0xFF, 0, 0, 0, 2, 0, 0, 0, 0, 0, 0, 0, 1, 0x10, 0, 0, 0, 0, 0, 0, 2, 0, 0, 0, 1, 0, 0, 0, 2,
            0x61, 0x62, 0, 0, 0, 0, 0, 0, 0, 7,
        ]
    );
}

#[test]
fn index_of_one_key_is_a_leaf_the_root_and_the_trailer() {
    let mut writer = Writer::new();
    assert_eq!(writer.add("a", 1), Ok(()));
    let file = writer.finish();
    let mut expected = vec![0, 0, 0, 1, 0, 0, 0, 0, 0, 0, 0, 1, 0, 0, 0, 0];
    expected.extend([0, 0, 0, 0, 0, 0, 0, 1, 0, 0, 0, 1, 0x61, 0, 0, 0, 0, 0, 0, 0, 0]);
    expected.extend([0, 0, 0, 0, 0, 0, 0, 16]);
    assert_eq!(file, expected);
}

#[test]
fn shared_prefix_is_factored_into_a_node_of_its_own() {
    let mut writer = Writer::new();
    assert_eq!(writer.add("ab", 1), Ok(()));
    assert_eq!(writer.add("ac", 2), Ok(()));
    let file = writer.finish();
    let leaf_b = vec![0, 0, 0, 1, 0, 0, 0, 0, 0, 0, 0, 1, 0, 0, 0, 0];
    let leaf_c = vec![0, 0, 0, 1, 0, 0, 0, 0, 0, 0, 0, 2, 0, 0, 0, 0];
    let middle = vec![
        0, 0, 0, 0, 0, 0, 0, 2, 0, 0, 0, 1, 0x62, 0, 0, 0, 0, 0, 0, 0, 0, 0, 0, 0, 1, 0x63, 0, 0, 0, 0, 0,
        0, 0, 16,
    ];
    let root = vec![0, 0, 0, 0, 0, 0, 0, 1, 0, 0, 0, 1, 0x61, 0, 0, 0, 0, 0, 0, 0, 32];
    let mut expected = Vec::new();
    expected.extend(leaf_b);
    expected.extend(leaf_c);
    expected.extend(middle);
    expected.extend(root);
    expected.extend([0, 0, 0, 0, 0, 0, 0, 66]);
    assert_eq!(file, expected);
}

#[test]
fn children_stand_before_their_parents() {
    let mut writer = Writer::new();
    for (key, val) in [("car", 1u64), ("card", 2), ("care", 3), ("cat", 4), ("dog", 5)] {
        assert_eq!(writer.add(key, val), Ok(()));
    }
    let file = writer.finish();
    let tree = Tree::new(file.clone()).unwrap();
    let root = tree.lookup(&[]).unwrap().unwrap();
    assert_eq!(root as usize + 8 <= file.len(), true);
    let mut pending = vec![root];
    while let Some(node) = pending.pop() {
        for edge in tree.read_links(node).unwrap() {
            assert!(edge.child < node);
            pending.push(edge.child);
        }
    }
}

#[test]
fn truncated_index_is_an_io_error() {
    assert_eq!(Tree::new(vec![]).unwrap().search("a"), Err(Error::Io));
    assert_eq!(Tree::new(vec![0; 7]).unwrap().exact_search("a"), Err(Error::Io));
    let values_cut_off = vec![0, 0, 0, 5, 0, 0, 0, 0, 0, 0, 0, 0];
    let tree = Tree::new(values_cut_off).unwrap();
    assert_eq!(tree.search("a"), Err(Error::Io));
    assert_eq!(tree.exact_search(""), Err(Error::Io));
    let mut label_cut_off = vec![0, 0, 0, 0, 0, 0, 0, 1, 0, 0, 0, 200, 0x61];
    label_cut_off.extend([0, 0, 0, 0, 0, 0, 0, 0]);
    let tree = Tree::new(label_cut_off).unwrap();
    assert_eq!(tree.search("a"), Err(Error::Io));
    assert_eq!(tree.exact_search("a"), Err(Error::Io));
    assert_eq!(tree.exact_search(""), Ok(vec![]));
}

#[test]
fn root_offset_beyond_the_index_is_an_io_error() {
    let file = vec![0, 0, 0, 0, 0, 0, 0, 0, 0, 0, 0, 0, 0, 0, 0, 99];
    let tree = Tree::new(file).unwrap();
    assert_eq!(tree.search("a"), Err(Error::Io));
    assert_eq!(tree.exact_search(""), Err(Error::Io));
    assert_eq!(tree.lookup(&[]), Ok(Some(99)));
}

#[test]
fn child_that_does_not_stand_before_its_parent_is_an_io_error() {
    let mut file = vec![0, 0, 0, 0, 0, 0, 0, 1, 0, 0, 0, 1, 0x61, 0, 0, 0, 0, 0, 0, 0, 0];
    file.extend([0, 0, 0, 0, 0, 0, 0, 0]);
    let tree = Tree::new(file).unwrap();
    assert_eq!(tree.search("a"), Err(Error::Io));
    assert_eq!(tree.search("b"), Err(Error::Io));
    assert_eq!(tree.exact_search(""), Ok(vec![]));
}

#[test]
fn label_that_is_not_utf8_is_an_error() {
    let mut file = vec![0, 0, 0, 0, 0, 0, 0, 0];
    file.extend([0, 0, 0, 0, 0, 0, 0, 1, 0, 0, 0, 1, 0xFF, 0, 0, 0, 0, 0, 0, 0, 0]);
    file.extend([0, 0, 0, 0, 0, 0, 0, 8]);
    let tree = Tree::new(file).unwrap();
    assert_eq!(tree.search("a"), Err(Error::Utf8));
    assert_eq!(tree.exact_search("a"), Err(Error::Utf8));
    assert_eq!(tree.exact_search(""), Ok(vec![]));
}

#[test]
fn every_error_has_a_message() {
    assert_eq!(Error::Order.message(), "Tried to write keys in non-lexicographic order");
    assert_eq!(Error::Finished.message(), "Cannot add to a tree that is finished writing");
    assert_eq!(Error::Range.message(), "Values must be smaller than 2**60");
    assert_eq!(Error::Utf8.message(), "String contains invalid UTF-8");
    assert_eq!(Error::Io.message(), "I/O error: the index is truncated or malformed");
    assert_eq!(Error::TooLarge.message(), "Key or value list too large for the index format");
}

#[test]
fn common_prefix_is_counted_in_characters() {
    assert_eq!(diff_start(&chars("abc"), &chars("abd")), 2);
    assert_eq!(diff_start(&chars("abc"), &chars("abc")), 3);
    assert_eq!(diff_start(&chars("abc"), &chars("ab")), 2);
    assert_eq!(diff_start(&chars(""), &chars("ab")), 0);
    assert_eq!(diff_start(&chars("éa"), &chars("éb")), 1);
    assert_eq!(diff_start(&chars("é"), &chars("è")), 0);
}

#[test]
fn starts_with_looks_from_the_given_index() {
    assert!(starts_with(&chars("hello"), 0, &chars("he")));
    assert!(starts_with(&chars("hello"), 2, &chars("llo")));
    assert!(starts_with(&chars("hello"), 5, &chars("")));
    assert!(!starts_with(&chars("hello"), 2, &chars("he")));
    assert!(!starts_with(&chars("hello"), 3, &chars("loo")));
}

#[test]
fn text_is_taken_character_by_character() {
    assert_eq!(chars_of("aé日😀"), vec!['a', 'é', '日', '😀']);
    assert_eq!(chars_of(""), Vec::<char>::new());
}

#[test]
fn characters_are_classified_as_unicode_does() {
    assert_eq!(classify_space(&chars("a \t\u{a0}\u{3000}é1")), vec![false, true, true, true, true, false, false]);
    assert_eq!(classify_alnum(&chars("a -é1٣_")), vec![true, false, false, true, true, true, false]);
}

#[test]
fn words_are_the_runs_between_flagged_characters() {
    let text = chars("  ab c  ");
    let space = vec![true, true, false, false, true, false, true, true];
    assert_eq!(split_words(&text, &space), vec![chars("ab"), chars("c")]);
    assert_eq!(split_words(&chars("abc"), &[false, false, false]), vec![chars("abc")]);
    assert_eq!(split_words(&chars("abc"), &[true, true, true]), Vec::<Vec<char>>::new());
    assert_eq!(split_words(&chars("abc"), &[false, true, false]), vec![chars("a"), chars("c")]);
    assert_eq!(split_words(&[], &[]), Vec::<Vec<char>>::new());
}

#[test]
fn word_break_follows_the_two_rules() {
    assert!(word_break(false, true, true, false));
    assert!(word_break(false, false, true, false));
    assert!(word_break(false, true, false, false));
    assert!(!word_break(true, false, true, false));
    assert!(!word_break(true, false, false, true));
    assert!(!word_break(false, true, false, true));
    assert!(!word_break(false, false, false, false));
    assert!(word_break(true, true, false, false));
}

#[test]
fn suffix_cuts_are_the_indices_behind_a_break() {
    let alnum = [true, false, true, true, false, false, true];
    let space = [false, true, false, false, true, false, false];
    assert_eq!(suffix_cuts(&alnum, &space), vec![2, 5, 6]);
    assert_eq!(suffix_cuts(&[], &[]), Vec::<usize>::new());
    assert_eq!(suffix_cuts(&[false], &[true]), Vec::<usize>::new());
}

#[test]
fn staged_entries_are_the_key_and_its_flagged_suffixes() {
    let norm = chars("ab cd");
    let alnum = [true, true, false, true, true];
    let space = [false, false, true, false, false];
    let entries = staged_entries(&norm, &alnum, &space, 5);
    assert_eq!(entries, vec![(chars("ab cd"), 5), (chars("cd"), 0x1000_0000_0000_0005)]);
    assert_eq!(staged_entries(&[], &[], &[], 1), vec![(vec![], 1)]);
}

#[test]
fn blob_is_read_eight_bytes_at_a_time() {
    let blob = [0, 0, 0, 0, 0, 0, 0, 2, 0x10, 0, 0, 0, 0, 0, 0, 1];
    assert_eq!(decode_values(&blob), vec![2, 0x1000_0000_0000_0001]);
    assert_eq!(decode_values(&[]), Vec::<u64>::new());
}

#[test]
fn values_are_sorted_and_kept_once() {
    assert_eq!(sorted_unique(vec![5, 1, 5, 3, 1, 1]), vec![1, 3, 5]);
    assert_eq!(sorted_unique(vec![]), Vec::<u64>::new());
    assert_eq!(sorted_unique(vec![u64::MAX, 0]), vec![0, u64::MAX]);
}

#[test]
fn intersection_keeps_what_both_lists_hold() {
    assert_eq!(intersect(&vec![1, 3, 5, 7], &vec![2, 3, 4, 7, 9]), vec![3, 7]);
    assert_eq!(intersect(&vec![], &vec![1]), Vec::<u64>::new());
    assert_eq!(intersect(&vec![1, 2], &vec![3, 4]), Vec::<u64>::new());
    assert_eq!(intersect(&vec![1, 2], &vec![1, 2]), vec![1, 2]);
}

#[test]
fn keys_rank_by_code_point_with_prefixes_first() {
    assert!(matches!(rank_keys(&chars("a"), &chars("b")), Rank::Before));
    assert!(matches!(rank_keys(&chars("b"), &chars("a")), Rank::After));
    assert!(matches!(rank_keys(&chars("ab"), &chars("ab")), Rank::Same));
    assert!(matches!(rank_keys(&chars("a"), &chars("ab")), Rank::Before));
    assert!(matches!(rank_keys(&chars("ab"), &chars("")), Rank::After));
    assert!(matches!(rank_keys(&chars("z"), &chars("é")), Rank::Before));
    assert!(matches!(rank_keys(&chars("Z"), &chars("a")), Rank::Before));
}

#[test]
fn staging_store_merges_by_key_and_scans_in_order() {
    let mut store = Staging::new();
    store.merge(&chars("b"), &[1]);
    store.merge(&chars("a"), &[2]);
    store.merge(&chars("c"), &[3]);
    store.merge(&chars("b"), &[4, 5]);
    store.merge(&chars(""), &[6]);
    assert_eq!(store.len(), 4);
    let scan: Vec<(Vec<char>, Vec<u8>)> = (0..store.len()).map(|i| (store.key(i).clone(), store.blob(i).clone())).collect();
    assert_eq!(
        scan,
        vec![(chars(""), vec![6]), (chars("a"), vec![2]), (chars("b"), vec![1, 4, 5]), (chars("c"), vec![3])]
    );
}

#[test]
fn meter_reports_each_new_thousandth_once() {
    let mut meter = Progress::new(3);
    assert_eq!(meter.advance(), Some(333));
    assert_eq!(meter.advance(), Some(666));
    assert_eq!(meter.advance(), Some(1000));
    assert_eq!(meter.advance(), None);
    let mut fine = Progress::new(4000);
    assert_eq!(fine.advance(), None);
    assert_eq!(fine.advance(), None);
    assert_eq!(fine.advance(), None);
    assert_eq!(fine.advance(), Some(1));
    let mut empty = Progress::new(0);
    assert_eq!(empty.advance(), Some(1000));
    assert_eq!(empty.advance(), None);
}

#[test]
fn lookup_takes_the_key_as_it_is() {
    let mut writer = Writer::new();
    assert_eq!(writer.add("Ab", 1), Ok(()));
    let tree = Tree::new(writer.finish()).unwrap();
    assert_eq!(tree.exact_lookup(&chars("Ab")), Ok(vec![1]));
    assert_eq!(tree.exact_lookup(&chars("ab")), Ok(vec![]));
    assert_eq!(tree.exact_search("Ab"), Ok(vec![]));
    assert_eq!(tree.prefix_lookup(&chars("A")), Ok(vec![1]));
    assert_eq!(tree.search_tokens(&vec![chars("A"), chars("Ab")]), Ok(vec![1]));
    assert_eq!(tree.find("AB"), Ok(None));
    assert_eq!(tree.traverse(0, &chars("")), Ok(Some(0)));
}

#[test]
fn staged_key_and_blob_are_written_in_ascending_order_once() {
    let mut writer = Writer::new();
    let mut meter = Progress::new(4);
    let mut reports = vec![5];
    let blob = [0, 0, 0, 0, 0, 0, 0, 9, 0, 0, 0, 0, 0, 0, 0, 3, 0, 0, 0, 0, 0, 0, 0, 9];
    assert_eq!(write_staged(&mut writer, &mut meter, &mut reports, "é".as_bytes(), &blob), Ok(()));
    assert_eq!(reports, vec![5, 250, 500]);
    assert_eq!(write_staged(&mut writer, &mut meter, &mut reports, "ê".as_bytes(), &[0, 0, 0, 0, 0, 0, 0, 1]), Ok(()));
    assert_eq!(reports, vec![5, 250, 500, 750]);
    let tree = Tree::new(writer.finish()).unwrap();
    assert_eq!(tree.exact_search("é"), Ok(vec![3, 9]));
    assert_eq!(tree.exact_search("ê"), Ok(vec![1]));
}

#[test]
fn staged_key_that_is_not_utf8_is_refused_before_anything_is_written() {
    let mut writer = Writer::new();
    let mut meter = Progress::new(2);
    let mut reports = Vec::new();
    assert_eq!(write_staged(&mut writer, &mut meter, &mut reports, b"a", &[0, 0, 0, 0, 0, 0, 0, 1]), Ok(()));
    let bad = [0x61, 0xFF];
    assert_eq!(
        write_staged(&mut writer, &mut meter, &mut reports, &bad, &[0, 0, 0, 0, 0, 0, 0, 2]),
        Err(Error::Utf8)
    );
    assert_eq!(reports, vec![500]);
    let tree = Tree::new(writer.finish()).unwrap();
    assert_eq!(tree.search("a"), Ok(vec![1]));
}

#[test]
fn staged_key_out_of_order_is_refused_by_the_writer() {
    let mut writer = Writer::new();
    let mut meter = Progress::new(2);
    let mut reports = Vec::new();
    assert_eq!(write_staged(&mut writer, &mut meter, &mut reports, b"b", &[0, 0, 0, 0, 0, 0, 0, 1]), Ok(()));
    assert_eq!(
        write_staged(&mut writer, &mut meter, &mut reports, b"a", &[0, 0, 0, 0, 0, 0, 0, 2]),
        Err(Error::Order)
    );
    assert_eq!(write_staged(&mut writer, &mut meter, &mut reports, b"b", &[]), Ok(()));
    let tree = Tree::new(writer.finish()).unwrap();
    assert_eq!(tree.search("a"), Ok(vec![]));
    assert_eq!(tree.search("b"), Ok(vec![1]));
}

#[test]
fn writer_hands_out_each_node_when_its_branch_is_closed() {
    let mut writer = Writer::new();
    assert_eq!(writer.add("aaa", 1), Ok(()));
    assert_eq!(writer.add("aaa", 2), Ok(()));
    assert_eq!(writer.take_written(), Vec::<u8>::new());
    assert_eq!(writer.add("aab", 3), Ok(()));
    assert_eq!(
        writer.take_written(),
        vec![0, 0, 0, 2, 0, 0, 0, 0, 0, 0, 0, 1, 0, 0, 0, 0, 0, 0, 0, 2, 0, 0, 0, 0]
    );
    assert_eq!(writer.take_written(), Vec::<u8>::new());
    assert_eq!(writer.add("aa", 4), Err(Error::Order));
    assert_eq!(writer.take_written(), Vec::<u8>::new());
    let rest = writer.finish();
    let leaf_b = vec![0, 0, 0, 1, 0, 0, 0, 0, 0, 0, 0, 3, 0, 0, 0, 0];
    let middle = vec![
        0, 0, 0, 0, 0, 0, 0, 2, 0, 0, 0, 1, 0x61, 0, 0, 0, 0, 0, 0, 0, 0, 0, 0, 0, 1, 0x62, 0, 0, 0, 0, 0,
        0, 0, 24,
    ];
    let root = vec![0, 0, 0, 0, 0, 0, 0, 1, 0, 0, 0, 2, 0x61, 0x61, 0, 0, 0, 0, 0, 0, 0, 40];
    let mut expected = Vec::new();
    expected.extend(leaf_b);
    expected.extend(middle);
    expected.extend(root);
    expected.extend([0, 0, 0, 0, 0, 0, 0, 74]);
    assert_eq!(rest, expected);
}

#[test]
fn keys_that_share_a_first_byte_only_get_no_node_for_it() {
    let mut writer = Writer::new();
    assert_eq!(writer.add("è", 1), Ok(()));
    assert_eq!(writer.add("é", 2), Ok(()));
    assert_eq!(writer.take_written(), vec![0, 0, 0, 1, 0, 0, 0, 0, 0, 0, 0, 1, 0, 0, 0, 0]);
}

#[test]
fn key_that_extends_the_last_one_writes_nothing() {
    let mut writer = Writer::new();
    assert_eq!(writer.add("", 9), Ok(()));
    assert_eq!(writer.add("ab", 4), Ok(()));
    assert_eq!(writer.add("abc", 5), Ok(()));
    assert_eq!(writer.take_written(), Vec::<u8>::new());
    assert_eq!(writer.weight(), 48 + 56 + 60);
}

#[test]
fn index_is_no_longer_than_its_entries_weigh() {
    let mut writer = Writer::new();
    for (key, val) in [("car", 1u64), ("card", 2), ("care", 3), ("cat", 4), ("dog", 5), ("dog", 6)] {
        assert_eq!(writer.add(key, val), Ok(()));
    }
    let weight = writer.weight();
    assert_eq!(weight, 6 * 48 + 4 * (3 + 4 + 4 + 3 + 3 + 3));
    let mut file = writer.take_written();
    file.extend(writer.finish());
    assert!(file.len() as u64 <= 16 + weight);
    let tree = Tree::new(file).unwrap();
    assert_eq!(tree.search("car"), Ok(vec![1, 2, 3]));
    assert_eq!(tree.exact_search("dog"), Ok(vec![5, 6]));
}
