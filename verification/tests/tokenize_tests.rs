use word_index::index::FileIndex;
use word_index::tokenize::index_string;

#[test]
fn test_short() {
    let map = index_string(&"a b a".as_bytes().to_vec());
    assert_eq!(*map.get(&"a".as_bytes().to_vec()).unwrap(), vec![0, 4]);
    assert_eq!(*map.get(&"b".as_bytes().to_vec()).unwrap(), vec![2]);
}

#[test]
fn test_long() {
    let map = index_string(
        &"Lorem ipsum dolor sit amet, consectetur adipiscing elit, sed do eiusmod tempor incididunt ut labore et dolore magna aliqua. Ut enim ad minim veniam, quis nostrud exercitation ullamco laboris nisi ut aliquip ex ea commodo consequat. Duis aute irure dolor in reprehenderit in voluptate velit esse cillum dolore eu fugiat nulla pariatur. Excepteur sint occaecat cupidatat non proident, sunt in culpa qui officia deserunt mollit anim id est laborum."
            .as_bytes()
            .to_vec(),
    );
    assert_eq!(map.get(&"Lorem".as_bytes().to_vec()).unwrap().len(), 1);
    assert_eq!(map.get(&"dolor".as_bytes().to_vec()).unwrap().len(), 2);
    assert_eq!(map.get(&"dolore".as_bytes().to_vec()).unwrap().len(), 2);
}

#[test]
fn test_cyrillic() {
    let map = index_string(&" привіт привіт".as_bytes().to_vec());
    assert_eq!(*map.get(&"привіт".as_bytes().to_vec()).unwrap(), vec![1, 14]);
}

#[test]
fn test_many_whitespace() {
    let map = index_string(&"  a   a".as_bytes().to_vec());
    assert_eq!(*map.get(&"a".as_bytes().to_vec()).unwrap(), vec![2, 6]);
}

#[test]
fn test_no_words() {
    let map = index_string(&"       ".as_bytes().to_vec());
    assert_eq!(map.is_empty(), true);
}

#[test]
fn single_space_offsets_match_preceding_lengths() {
    // Tokens separated by exactly one space: each offset is the sum of the
    // lengths of the earlier tokens plus one byte per separating space.
    let map = index_string(&"one two three four".as_bytes().to_vec());
    assert_eq!(*map.get(&"one".as_bytes().to_vec()).unwrap(), vec![0]);
    assert_eq!(*map.get(&"two".as_bytes().to_vec()).unwrap(), vec![4]);
    assert_eq!(*map.get(&"three".as_bytes().to_vec()).unwrap(), vec![8]);
    assert_eq!(*map.get(&"four".as_bytes().to_vec()).unwrap(), vec![14]);
}

#[test]
fn mixed_whitespace_kinds_separate_words() {
    let map = index_string(&"a\tb\nc\r\nd".as_bytes().to_vec());
    assert_eq!(*map.get(&"a".as_bytes().to_vec()).unwrap(), vec![0]);
    assert_eq!(*map.get(&"b".as_bytes().to_vec()).unwrap(), vec![2]);
    assert_eq!(*map.get(&"c".as_bytes().to_vec()).unwrap(), vec![4]);
    assert_eq!(*map.get(&"d".as_bytes().to_vec()).unwrap(), vec![7]);
}

#[test]
fn empty_content_has_no_words() {
    let map = index_string(&Vec::new());
    assert!(map.is_empty());
    assert!(map.get(&"a".as_bytes().to_vec()).is_none());
}

#[test]
fn trailing_word_is_counted() {
    let map = index_string(&"x  x".as_bytes().to_vec());
    assert_eq!(*map.get(&"x".as_bytes().to_vec()).unwrap(), vec![0, 3]);
    assert_eq!(map.word_count(), 1);
}

#[test]
fn push_offset_appends_in_order_and_creates_entries() {
    let mut fi = FileIndex::new();
    fi.push_offset(&"w".as_bytes().to_vec(), 0);
    fi.push_offset(&"w".as_bytes().to_vec(), 5);
    fi.push_offset(&"v".as_bytes().to_vec(), 2);
    assert_eq!(*fi.get(&"w".as_bytes().to_vec()).unwrap(), vec![0, 5]);
    assert_eq!(*fi.get(&"v".as_bytes().to_vec()).unwrap(), vec![2]);
    assert_eq!(fi.word_count(), 2);
}
