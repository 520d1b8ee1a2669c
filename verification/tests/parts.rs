use unigram::cache::Store;
use unigram::double::Double;
use unigram::lattice::Lattice;
use unigram::sentence::{char_len_at, piece};
use unigram::text::{push_decimal, push_hexadecimal};
use unigram::tokenization::byte_text;
use unigram::trie::Trie;

#[test]
fn prefixes_in_a_trie() {
    let mut trie = Trie::new();
    for word in ["a", "ab", "abcd", "b", "é", ""] {
        trie.push(word.as_bytes());
    }
    let copy = trie.copy();
    for trie in [trie, copy] {
        assert_eq!(trie.common_prefix_search("abcde".as_bytes(), 0), vec![1, 2, 4]);
        assert_eq!(trie.common_prefix_search("abcde".as_bytes(), 1), vec![1]);
        assert_eq!(trie.common_prefix_search("abcde".as_bytes(), 2), Vec::<usize>::new());
        assert_eq!(trie.common_prefix_search("abcde".as_bytes(), 5), Vec::<usize>::new());
        assert_eq!(trie.common_prefix_search("xé".as_bytes(), 1), vec![2]);
    }
}

#[test]
fn characters_and_pieces() {
    let text = "aé東😀";
    let starts = [0, 1, 3, 6];
    for (start, length) in starts.iter().zip([1, 2, 3, 4]) {
        assert_eq!(char_len_at(text.as_bytes(), *start), length);
    }
    assert_eq!(piece(text, 1, 6), "é東");
    assert_eq!(piece(text, 0, 10), text);
    assert_eq!(piece(text, 3, 3), "");
}

#[test]
fn numbers_as_text() {
    for n in [0, 7, 10, 12_345, usize::MAX] {
        let mut text = "n=".to_string();
        push_decimal(&mut text, n);
        assert_eq!(text, format!("n={n}"));
    }
    for byte in 0..=255u8 {
        let mut text = String::new();
        push_hexadecimal(&mut text, byte);
        assert_eq!(text, format!("{byte:02X}"));
        assert_eq!(byte_text(byte), format!("<0x{byte:02X}>"));
    }
}

#[test]
fn the_best_way_through_a_lattice() {
    let score = |x: f64| Double { bits: x.to_bits() };
    let mut lattice = Lattice::from("ABC", 1, 2);
    lattice.insert(0, 1, score(0.0), 3); // A
    lattice.insert(1, 1, score(0.0), 4); // B
    lattice.insert(2, 1, score(0.0), 5); // C
    assert_eq!(lattice.tokens(), vec!["A", "B", "C"]);
    lattice.insert(0, 2, score(2.0), 6); // AB
    assert_eq!(lattice.tokens(), vec!["AB", "C"]);
    lattice.insert(1, 2, score(5.0), 7); // BC
    assert_eq!(lattice.tokens(), vec!["A", "BC"]);
    lattice.insert(0, 3, score(10.0), 8); // ABC
    assert_eq!(lattice.tokens(), vec!["ABC"]);
    assert_eq!(lattice.count(), 8);
}

#[test]
fn a_lattice_with_a_gap_has_no_way() {
    let mut lattice = Lattice::from("ABC", 1, 2);
    lattice.insert(0, 1, Double { bits: 0 }, 3);
    lattice.insert(2, 1, Double { bits: 0 }, 4);
    assert!(lattice.viterbi().is_empty());
    let mut lattice = Lattice::from("", 1, 2);
    assert!(lattice.viterbi().is_empty());
    assert_eq!(lattice.sentence(), "");
}

#[test]
fn a_store_of_results() {
    let list = |texts: &[&str]| texts.iter().map(|text| text.to_string()).collect::<Vec<_>>();
    let mut store = Store::new();
    assert_eq!(store.find("ab"), None);
    store.add("ab", &list(&["a", "b"]), 2);
    store.add("cd", &list(&["cd"]), 2);
    assert_eq!(store.find("ab"), Some(list(&["a", "b"])));
    assert_eq!(store.find("cd"), Some(list(&["cd"])));
    // A full store stays as it is.
    store.add("ab", &list(&["ab"]), 2);
    store.add("ef", &list(&["ef"]), 2);
    assert_eq!(store.find("ab"), Some(list(&["a", "b"])));
    assert_eq!(store.find("ef"), None);
    store.add("ab", &list(&["ab"]), 3);
    assert_eq!(store.find("ab"), Some(list(&["ab"])));
    assert_eq!(store.find("cd"), Some(list(&["cd"])));
}
