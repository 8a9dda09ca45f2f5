use disktree::builder::Builder;
use disktree::error::Error;
use disktree::text::normalize;
use disktree::tree::{unflagged, Tree};
use disktree::window::{hop, node_values, Collect, Hop, Search};
use disktree::wire::get_u64;
use disktree::writer::Writer;

fn window(file: &[u8], off: u64, want: usize) -> (Vec<u8>, bool) {
    if off as usize >= file.len() {
        return (Vec::new(), true);
    }
    let end = std::cmp::min(file.len(), off as usize + want);
    (file[off as usize..end].to_vec(), end == file.len())
}

fn find(file: &[u8], first: usize, key: &[char]) -> Result<Option<u64>, Error> {
    let mut off = get_u64(file, file.len() - 8).unwrap();
    let mut start = 0;
    let mut want = first;
    loop {
        let (bytes, whole) = window(file, off, want);
        match hop(bytes, whole, off, key, start)? {
            Hop::Found(end) => return Ok(end),
            Hop::Descend(child, used) => {
                assert!(child < off);
                off = child;
                start += used;
                want = first;
            }
            Hop::Short => want *= 2,
        }
    }
}

fn below(file: &[u8], first: usize, off: u64) -> Result<Vec<u64>, Error> {
    let mut nodes = Collect::start(off);
    let mut want = first;
    while let Some(next) = nodes.next() {
        let (bytes, whole) = window(file, next, want);
        want = if nodes.feed(bytes, whole)? { first } else { want * 2 };
    }
    Ok(nodes.finish())
}

fn search(file: &[u8], first: usize, query: &str) -> Result<Vec<u64>, Error> {
    let mut search = Search::start(query);
    while let Some(token) = search.token().cloned() {
        let found = match find(file, first, &token)? {
            Some(node) => below(file, first, node)?,
            None => Vec::new(),
        };
        search.take(found);
    }
    Ok(search.finish())
}

fn exact_search(file: &[u8], first: usize, query: &str) -> Result<Vec<u64>, Error> {
    let node = match find(file, first, &normalize(query))? {
        Some(node) => node,
        None => return Ok(vec![]),
    };
    let mut want = first;
    loop {
        let (bytes, whole) = window(file, node, want);
        match node_values(bytes, whole)? {
            Some(vals) => return Ok(unflagged(&vals)),
            None => want *= 2,
        }
    }
}

fn sample() -> Vec<u8> {
    let mut builder = Builder::new();
    for (key, val) in [("Red Apple", 1u64), ("green apple", 2), ("red pear", 3), ("été", 4), ("red", 5)] {
        assert_eq!(builder.add(key, val), Ok(()));
    }
    let mut progress = Vec::new();
    builder.build(&mut progress).unwrap()
}

#[test]
fn reading_piece_by_piece_finds_what_reading_the_whole_index_finds() {
    let file = sample();
    let tree = Tree::new(file.clone()).unwrap();
    for first in [1usize, 3, 8, 64, 4096] {
        for query in ["red", "apple", "red apple", "a", "r", "pear green", "plum", "", "été", "ét", "re d"] {
            assert_eq!(search(&file, first, query), tree.search(query));
            assert_eq!(exact_search(&file, first, query), tree.exact_search(query));
        }
    }
    assert_eq!(search(&file, 1, "red"), Ok(vec![1, 3, 5]));
    assert_eq!(exact_search(&file, 1, "RED"), Ok(vec![5]));
}

#[test]
fn one_hop_says_where_the_descent_goes() {
    let mut writer = Writer::new();
    assert_eq!(writer.add("ab", 1), Ok(()));
    assert_eq!(writer.add("ac", 2), Ok(()));
    let file = writer.finish();
    let key: Vec<char> = "ac".chars().collect();
    assert_eq!(get_u64(&file, file.len() - 8), Some(66));
    let root = file[66..].to_vec();
    assert!(matches!(hop(root.clone(), true, 66, &key, 0), Ok(Hop::Descend(32, 1))));
    assert!(matches!(hop(root[..10].to_vec(), false, 66, &key, 0), Ok(Hop::Short)));
    assert!(matches!(hop(root[..10].to_vec(), true, 66, &key, 0), Err(Error::Io)));
    assert!(matches!(hop(Vec::new(), true, 66, &key, 2), Ok(Hop::Found(Some(66)))));
    assert!(matches!(hop(file[32..66].to_vec(), false, 32, &key, 1), Ok(Hop::Descend(16, 1))));
    let other: Vec<char> = "ad".chars().collect();
    assert!(matches!(hop(file[32..66].to_vec(), false, 32, &other, 1), Ok(Hop::Found(None))));
    let short: Vec<char> = "a".chars().collect();
    assert!(matches!(hop(file[32..].to_vec(), true, 32, &short, 1), Ok(Hop::Found(Some(32)))));
}

#[test]
fn node_values_are_read_from_the_bytes_at_the_node() {
    let bytes = vec![0, 0, 0, 2, 0, 0, 0, 0, 0, 0, 0, 7, 0x10, 0, 0, 0, 0, 0, 0, 9, 0, 0, 0, 0];
    assert_eq!(node_values(bytes.clone(), false), Ok(Some(vec![7, 0x1000_0000_0000_0009])));
    assert_eq!(unflagged(&vec![7, 0x1000_0000_0000_0009]), vec![7]);
    assert_eq!(node_values(bytes[..19].to_vec(), false), Ok(None));
    assert_eq!(node_values(bytes[..19].to_vec(), true), Err(Error::Io));
    assert_eq!(node_values(Vec::new(), true), Err(Error::Io));
}

#[test]
fn collecting_reads_the_children_in_their_order() {
    let mut writer = Writer::new();
    assert_eq!(writer.add("ab", 1), Ok(()));
    assert_eq!(writer.add("ac", 2), Ok(()));
    let file = writer.finish();
    let mut nodes = Collect::start(66);
    assert_eq!(nodes.next(), Some(66));
    assert_eq!(nodes.feed(file[66..70].to_vec(), false), Ok(false));
    assert_eq!(nodes.next(), Some(66));
    assert_eq!(nodes.feed(file[66..].to_vec(), true), Ok(true));
    assert_eq!(nodes.next(), Some(32));
    assert_eq!(nodes.feed(file[32..].to_vec(), true), Ok(true));
    assert_eq!(nodes.next(), Some(0));
    assert_eq!(nodes.feed(file[0..16].to_vec(), false), Ok(true));
    assert_eq!(nodes.next(), Some(16));
    assert_eq!(nodes.feed(file[16..].to_vec(), true), Ok(true));
    assert_eq!(nodes.next(), None);
    assert_eq!(nodes.finish(), vec![1, 2]);
}

#[test]
fn search_state_stops_when_nothing_is_left_to_match() {
    let mut search = Search::start("  One two THREE ");
    assert_eq!(search.token(), Some(&"one".chars().collect::<Vec<char>>()));
    search.take(vec![1, 2, 3]);
    assert_eq!(search.token(), Some(&"two".chars().collect::<Vec<char>>()));
    search.take(vec![4]);
    assert_eq!(search.token(), None);
    assert_eq!(search.finish(), Vec::<u64>::new());
    let mut both = Search::start("a b");
    both.take(vec![1, 2, 3]);
    both.take(vec![2, 3, 4]);
    assert_eq!(both.token(), None);
    assert_eq!(both.finish(), vec![2, 3]);
    let none = Search::start(" ");
    assert_eq!(none.token(), None);
    assert_eq!(none.finish(), Vec::<u64>::new());
}
