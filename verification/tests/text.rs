use commit_hours::keys::search;
use commit_hours::text::{copy_text, fold_byte, rank_folded, same_bytes, Rank};

#[test]
fn folding_touches_ascii_capitals_only() {
    for b in 0..=255u8 {
        assert_eq!(fold_byte(b), b.to_ascii_lowercase());
    }
    assert_eq!(fold_byte(b'A'), b'a');
    assert_eq!(fold_byte(b'Z'), b'z');
    assert_eq!(fold_byte(b'@'), b'@');
    assert_eq!(fold_byte(b'['), b'[');
}

#[test]
fn rank_is_the_order_of_a_dictionary_over_folded_bytes() {
    assert_eq!(rank_folded(b"FooBar", b"foobar"), Rank::Same);
    assert_eq!(rank_folded(b"", b""), Rank::Same);
    assert_eq!(rank_folded(b"", b"a"), Rank::Before);
    assert_eq!(rank_folded(b"a", b""), Rank::After);
    assert_eq!(rank_folded(b"abc", b"ABD"), Rank::Before);
    assert_eq!(rank_folded(b"ABD", b"abc"), Rank::After);
    assert_eq!(rank_folded(b"ab", b"ABC"), Rank::Before);
    assert_eq!(rank_folded(b"Z", b"a"), Rank::After);
    assert_eq!(rank_folded(b"FOO\xff", b"foo\xff"), Rank::Same);
    assert_eq!(rank_folded(b"Masse", "Ma\u{df}e".as_bytes()), Rank::Before);
}

#[test]
fn same_bytes_is_exact() {
    assert!(same_bytes(b"", b""));
    assert!(same_bytes(b"abc", b"abc"));
    assert!(!same_bytes(b"abc", b"abC"));
    assert!(!same_bytes(b"abc", b"ab"));
    assert!(!same_bytes(b"ab", b"abc"));
}

#[test]
fn copy_text_copies() {
    assert_eq!(copy_text(b"hello"), b"hello".to_vec());
    assert_eq!(copy_text(b""), Vec::<u8>::new());
}

#[test]
fn search_finds_the_match_or_the_slot() {
    let keys: Vec<Vec<u8>> = ["Alpha", "bravo", "Charlie", "delta"].iter().map(|k| k.as_bytes().to_vec()).collect();
    assert_eq!(search(&keys, b"alpha"), (true, 0));
    assert_eq!(search(&keys, b"BRAVO"), (true, 1));
    assert_eq!(search(&keys, b"charlie"), (true, 2));
    assert_eq!(search(&keys, b"DELTA"), (true, 3));
    assert_eq!(search(&keys, b"a"), (false, 0));
    assert_eq!(search(&keys, b"b"), (false, 1));
    assert_eq!(search(&keys, b"bz"), (false, 2));
    assert_eq!(search(&keys, b"echo"), (false, 4));
    assert_eq!(search(&Vec::new(), b"x"), (false, 0));
}
