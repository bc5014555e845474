use piece_table::{Piece, Text};

fn collect_pieces(t: &Text) -> Vec<(u32, Piece)> {
    let mut it = t.pieces();
    let mut v = Vec::new();
    while let Some(item) = it.next() {
        v.push(item);
    }
    v
}

fn starts(t: &Text) -> Vec<u32> {
    collect_pieces(t).into_iter().map(|(off, _)| off).collect()
}

#[test]
fn test_pieces() {
    let t = Text::new();
    assert_eq!(collect_pieces(&t), vec![]);
}

#[test]
fn insert_beginning() {
    let mut t = Text::new();
    assert_eq!(t.len(), 0);
    t.insert(0, "World".as_bytes());
    assert_eq!(t.len(), 5);
    assert_eq!(t.to_utf8_string().unwrap(), "World");
    t.insert(0, "Hello ".as_bytes());
    assert_eq!(t.len(), 11);
    assert_eq!(t.to_utf8_string().unwrap(), "Hello World");
    t.insert(0, "...".as_bytes());
    assert_eq!(t.len(), 14);
    assert_eq!(t.to_utf8_string().unwrap(), "...Hello World");
}

#[test]
fn append() {
    let mut t = Text::new();
    t.insert(0, "Hello".as_bytes());
    assert_eq!(t.to_utf8_string().unwrap(), "Hello");
    t.insert(5, " Bene".as_bytes());
    assert_eq!(t.to_utf8_string().unwrap(), "Hello Bene");
}

#[test]
fn insert_middle() {
    let mut t = Text::new();
    t.insert(0, "1234".as_bytes());
    t.insert(2, "x".as_bytes());
    assert_eq!(t.to_utf8_string().unwrap(), "12x34");
    t.insert(3, "yz".as_bytes());
    assert_eq!(t.to_utf8_string().unwrap(), "12xyz34");
}

#[test]
fn delete_all1() {
    let mut t = Text::new();
    t.insert(0, "123456".as_bytes());
    t.delete(0, 6);
    assert_eq!(t.len(), 0);
}

#[test]
fn delete_all2() {
    let mut t = Text::new();
    t.insert(0, "456".as_bytes());
    t.insert(0, "123".as_bytes());
    t.delete(0, 6);
    assert_eq!(t.len(), 0);
}

#[test]
fn delete_part1() {
    let mut t = Text::new();
    t.insert(0, "123456".as_bytes());
    t.delete(1, 5);
    assert_eq!(t.len(), 2);
    assert_eq!(t.to_utf8_string().unwrap(), "16");
}

#[test]
fn delete_part2() {
    let mut t = Text::new();
    t.insert(0, "456".as_bytes());
    t.insert(0, "123".as_bytes());
    t.delete(1, 5);
    assert_eq!(t.len(), 2);
    assert_eq!(t.to_utf8_string().unwrap(), "16");
}

#[test]
fn new_text_is_empty_and_consistent() {
    let t = Text::new();
    assert_eq!(t.len(), 0);
    assert_eq!(t.to_vec(), Vec::<u8>::new());
    assert_eq!(t.to_utf8_string().unwrap(), "");
    assert!(t.check_invariant());
}

#[test]
fn two_inserts_at_the_front_make_two_pieces() {
    let mut t = Text::new();
    t.insert(0, b"456");
    t.insert(0, b"123");
    assert_eq!(starts(&t), vec![0, 3]);
    assert_eq!(t.to_vec(), b"123456");
    t.delete(1, 5);
    assert_eq!(t.len(), 2);
    assert_eq!(t.to_vec(), b"16");
    assert_eq!(starts(&t), vec![0, 1]);
    assert!(t.check_invariant());
}

#[test]
fn insert_inside_a_piece_splits_it_in_three() {
    let mut t = Text::new();
    t.insert(0, b"abcdef");
    let before = collect_pieces(&t);
    assert_eq!(before.len(), 1);
    t.insert(2, b"XY");
    let after = collect_pieces(&t);
    assert_eq!(starts(&t), vec![0, 2, 4]);
    assert_eq!(t.to_vec(), b"abXYcdef");
    // the split piece has left the chain for good
    assert!(after.iter().all(|(_, p)| *p != before[0].1));
    assert!(t.check_invariant());
}

#[test]
fn insert_on_a_boundary_goes_in_front_of_the_right_piece() {
    let mut t = Text::new();
    t.insert(0, b"aa");
    t.insert(2, b"cc");
    let before = collect_pieces(&t);
    assert_eq!(starts(&t), vec![0, 2]);
    t.insert(2, b"b");
    let after = collect_pieces(&t);
    assert_eq!(starts(&t), vec![0, 2, 3]);
    assert_eq!(t.to_vec(), b"aabcc");
    // both neighbours stay what they were, the new piece stands between them
    assert_eq!(after[0].1, before[0].1);
    assert_eq!(after[2].1, before[1].1);
    assert_ne!(after[1].1, before[0].1);
    assert_ne!(after[1].1, before[1].1);
}

#[test]
fn insert_at_the_end_hangs_on_the_sentinel() {
    let mut t = Text::new();
    t.insert(0, b"one");
    t.insert(3, b"two");
    t.insert(6, b"three");
    assert_eq!(starts(&t), vec![0, 3, 6]);
    assert_eq!(t.to_vec(), b"onetwothree");
    assert_eq!(t.len(), 11);
}

#[test]
fn append_is_insert_at_the_end() {
    let mut a = Text::new();
    let mut b = Text::new();
    for chunk in [&b"Hello"[..], &b""[..], &b", "[..], &b"World"[..]] {
        a.append(chunk);
        let end = b.len() as u32;
        b.insert(end, chunk);
        assert_eq!(a.to_vec(), b.to_vec());
        assert_eq!(a.len(), b.len());
        assert_eq!(starts(&a), starts(&b));
    }
    assert_eq!(a.to_vec(), b"Hello, World");
    assert_eq!(starts(&a), vec![0, 5, 7]);
}

#[test]
fn inserting_nothing_changes_nothing() {
    let mut t = Text::new();
    t.insert(0, b"");
    assert_eq!(t.len(), 0);
    assert_eq!(collect_pieces(&t), vec![]);
    t.insert(0, b"abc");
    t.insert(1, b"-");
    let bytes = t.to_vec();
    let pieces = collect_pieces(&t);
    for off in 0..=4 {
        t.insert(off, b"");
        assert_eq!(t.len(), 4);
        assert_eq!(t.to_vec(), bytes);
        assert_eq!(collect_pieces(&t), pieces);
    }
    t.append(b"");
    assert_eq!(t.to_vec(), bytes);
    assert_eq!(collect_pieces(&t), pieces);
    assert!(t.check_invariant());
}

#[test]
fn deleting_an_empty_or_inverted_range_changes_nothing() {
    let mut t = Text::new();
    t.delete(0, 0);
    t.delete(7, 2);
    assert_eq!(t.len(), 0);
    t.insert(0, b"abcdef");
    t.insert(3, b"...");
    let bytes = t.to_vec();
    let pieces = collect_pieces(&t);
    for (off1, off2) in [(0, 0), (4, 4), (9, 9), (5, 2), (9, 0), (100, 3), (200, 200)] {
        t.delete(off1, off2);
        assert_eq!(t.len(), 9);
        assert_eq!(t.to_vec(), bytes);
        assert_eq!(collect_pieces(&t), pieces);
    }
    assert!(t.check_invariant());
}

#[test]
fn deleting_everything_links_the_sentinel_to_itself() {
    let mut fresh = Text::new();
    fresh.delete(0, 0);
    assert_eq!(fresh.len(), 0);
    assert_eq!(fresh.to_vec(), b"");
    assert_eq!(collect_pieces(&fresh), vec![]);

    let mut t = Text::new();
    t.insert(0, b"def");
    t.insert(0, b"abc");
    t.insert(6, b"ghi");
    t.insert(4, b"!");
    assert_eq!(t.to_vec(), b"abcd!efghi");
    t.delete(0, 10);
    assert_eq!(t.len(), 0);
    assert_eq!(t.to_vec(), b"");
    assert_eq!(collect_pieces(&t), vec![]);
    assert!(t.check_invariant());
    // the text is as good as new
    t.insert(0, b"again");
    assert_eq!(t.to_vec(), b"again");
    assert_eq!(starts(&t), vec![0]);
}

#[test]
fn delete_inside_one_piece_keeps_both_ends() {
    let mut t = Text::new();
    t.insert(0, b"0123456789");
    t.delete(3, 7);
    assert_eq!(t.to_vec(), b"012789");
    assert_eq!(starts(&t), vec![0, 3]);
    assert_eq!(t.len(), 6);
}

#[test]
fn delete_on_piece_boundaries_adds_no_piece() {
    let mut t = Text::new();
    t.append(b"aa");
    t.append(b"bb");
    t.append(b"cc");
    t.append(b"dd");
    let before = collect_pieces(&t);
    t.delete(2, 6);
    let after = collect_pieces(&t);
    assert_eq!(t.to_vec(), b"aadd");
    assert_eq!(after, vec![(0, before[0].1), (2, before[3].1)]);
}

#[test]
fn delete_with_only_the_left_end_inside_a_piece() {
    let mut t = Text::new();
    t.append(b"aaa");
    t.append(b"bbb");
    t.append(b"ccc");
    let before = collect_pieces(&t);
    t.delete(1, 6);
    let after = collect_pieces(&t);
    assert_eq!(t.to_vec(), b"accc");
    assert_eq!(starts(&t), vec![0, 1]);
    assert_eq!(after[1].1, before[2].1);
    assert!(before.iter().all(|(_, p)| *p != after[0].1));
}

#[test]
fn delete_with_only_the_right_end_inside_a_piece() {
    let mut t = Text::new();
    t.append(b"aaa");
    t.append(b"bbb");
    t.append(b"ccc");
    let before = collect_pieces(&t);
    t.delete(3, 8);
    let after = collect_pieces(&t);
    assert_eq!(t.to_vec(), b"aaac");
    assert_eq!(starts(&t), vec![0, 3]);
    assert_eq!(after[0].1, before[0].1);
    assert!(before.iter().all(|(_, p)| *p != after[1].1));
}

#[test]
fn delete_up_to_the_end_of_the_text() {
    let mut t = Text::new();
    t.append(b"abc");
    t.append(b"def");
    t.delete(2, 6);
    assert_eq!(t.to_vec(), b"ab");
    assert_eq!(starts(&t), vec![0]);
    t.delete(0, 1);
    assert_eq!(t.to_vec(), b"b");
    t.delete(0, 1);
    assert_eq!(t.to_vec(), b"");
    assert_eq!(collect_pieces(&t), vec![]);
}

#[test]
fn length_follows_every_edit() {
    let mut t = Text::new();
    let mut expected: usize = 0;
    let edits: [(bool, u32, u32, &[u8]); 9] = [
        (true, 0, 0, b"hello"),
        (true, 5, 0, b" world"),
        (false, 0, 1, b""),
        (true, 3, 0, b"---"),
        (false, 2, 9, b""),
        (false, 4, 4, b""),
        (true, 0, 0, b""),
        (false, 6, 1, b""),
        (false, 0, 6, b""),
    ];
    for (is_insert, a, b, bytes) in edits {
        if is_insert {
            t.insert(a, bytes);
            expected += bytes.len();
        } else {
            t.delete(a, b);
            if a < b {
                expected -= (b - a) as usize;
            }
        }
        assert_eq!(t.len(), expected);
        assert_eq!(t.to_vec().len(), expected);
        assert!(t.check_invariant());
    }
    assert_eq!(expected, 0);
}

#[test]
fn a_zero_byte_is_a_byte_like_any_other() {
    let mut t = Text::new();
    t.insert(0, &[0x00]);
    t.insert(1, b"after");
    t.insert(0, b"before");
    t.insert(3, &[0x00, 0x00]);
    assert_eq!(t.len(), 14);
    assert_eq!(t.to_vec(), b"bef\0\0ore\0after");
    // a zero byte is valid UTF-8: nothing is cut off and nothing is replaced
    let s = t.to_utf8_string().unwrap();
    assert_eq!(s, "bef\0\0ore\0after");
    assert_eq!(s.len(), 14);
}

#[test]
fn bytes_that_are_not_utf8_give_a_decoding_error() {
    let mut t = Text::new();
    t.insert(0, &[0x00, 0xff, 0x00]);
    t.insert(1, b"text");
    assert_eq!(t.to_vec(), [0x00, b't', b'e', b'x', b't', 0xff, 0x00]);
    let err = t.to_utf8_string().unwrap_err();
    assert_eq!(err.utf8_error().valid_up_to(), 5);
    assert_eq!(err.into_bytes(), [0x00, b't', b'e', b'x', b't', 0xff, 0x00]);
}

#[test]
fn decoding_rejects_what_utf8_rejects() {
    let invalid: [&[u8]; 6] = [
        &[0x80],
        &[0xc0, 0x80],
        &[0xe2, 0x82],
        &[0xed, 0xa0, 0x80],
        &[0xf4, 0x90, 0x80, 0x80],
        &[b'a', 0xfe],
    ];
    for bytes in invalid {
        let mut t = Text::new();
        t.insert(0, bytes);
        assert!(t.to_utf8_string().is_err());
        assert_eq!(t.to_vec(), bytes);
    }
}

#[test]
fn decoding_puts_split_characters_together() {
    // the three bytes of the euro sign arrive one by one
    let mut t = Text::new();
    t.insert(0, &[0xac]);
    assert!(t.to_utf8_string().is_err());
    t.insert(0, &[0xe2]);
    assert!(t.to_utf8_string().is_err());
    t.insert(1, &[0x82]);
    assert_eq!(t.to_utf8_string().unwrap(), "\u{20ac}");
    t.insert(3, "\u{1f600}".as_bytes());
    t.insert(0, "\u{e9}".as_bytes());
    assert_eq!(t.to_utf8_string().unwrap(), "\u{e9}\u{20ac}\u{1f600}");
    // cutting a character in two leaves bytes that do not decode
    t.delete(1, 2);
    assert!(t.to_utf8_string().is_err());
}

#[test]
fn a_sound_text_passes_the_consistency_pass() {
    let mut t = Text::new();
    assert!(t.check_invariant());
    t.insert(0, b"The quick brown fox");
    assert!(t.check_invariant());
    t.insert(4, b"very ");
    assert!(t.check_invariant());
    t.delete(0, 4);
    assert!(t.check_invariant());
    t.delete(3, 12);
    assert!(t.check_invariant());
    t.append(b" jumps");
    assert!(t.check_invariant());
    t.delete(0, t.len() as u32);
    assert!(t.check_invariant());
    assert_eq!(t.len(), 0);
}

#[test]
fn texts_are_independent_of_each_other() {
    let mut a = Text::new();
    let mut b = Text::new();
    a.insert(0, b"aaaa");
    b.insert(0, b"bb");
    a.insert(2, b"-");
    b.delete(0, 1);
    assert_eq!(a.to_vec(), b"aa-aa");
    assert_eq!(b.to_vec(), b"b");
}

#[test]
fn find_piece_gives_the_piece_that_covers_an_offset() {
    let mut t = Text::new();
    t.append(b"aaa");
    t.append(b"bb");
    t.append(b"cccc");
    let pieces = collect_pieces(&t);
    let expected: [(u32, usize); 9] =
        [(0, 0), (0, 0), (0, 0), (3, 1), (3, 1), (5, 2), (5, 2), (5, 2), (5, 2)];
    for off in 0..9u32 {
        let (start, piece) = t.find_piece(off);
        let (want_start, want_index) = expected[off as usize];
        assert_eq!(start, want_start);
        assert_eq!(piece, pieces[want_index].1);
    }
}

#[test]
fn find_piece_gives_the_sentinel_at_the_end_only() {
    let empty = Text::new();
    let (start, sentinel) = empty.find_piece(0);
    assert_eq!(start, 0);

    let mut t = Text::new();
    t.append(b"aaa");
    t.append(b"bb");
    assert_eq!(t.find_piece(5), (5, sentinel));
    for off in 0..5 {
        assert_ne!(t.find_piece(off).1, sentinel);
    }
    assert!(collect_pieces(&t).iter().all(|(_, p)| *p != sentinel));
    t.delete(0, 5);
    assert_eq!(t.find_piece(0), (0, sentinel));
}

#[test]
fn find_piece_on_a_boundary_gives_the_piece_on_the_right() {
    let mut t = Text::new();
    t.append(b"left");
    t.append(b"right");
    let pieces = collect_pieces(&t);
    assert_eq!(t.find_piece(3), (0, pieces[0].1));
    assert_eq!(t.find_piece(4), (4, pieces[1].1));
    assert_eq!(t.find_piece(0), (0, pieces[0].1));
}

#[test]
fn edits_only_ever_add_to_the_buffer_and_the_arena() {
    let mut t = Text::new();
    assert_eq!((t.stored_len(), t.count_pieces()), (0, 1));
    t.insert(0, b"abcdef");
    assert_eq!((t.stored_len(), t.count_pieces()), (6, 2));
    // at the end and at the front: one piece each
    t.insert(6, b"gh");
    assert_eq!((t.stored_len(), t.count_pieces()), (8, 3));
    t.insert(0, b"_");
    assert_eq!((t.stored_len(), t.count_pieces()), (9, 4));
    // inside a piece: three pieces
    t.insert(3, b"XY");
    assert_eq!((t.stored_len(), t.count_pieces()), (11, 7));
    assert_eq!(t.to_vec(), b"_abXYcdefgh");
    // nothing inserted: nothing stored
    t.insert(4, b"");
    assert_eq!((t.stored_len(), t.count_pieces()), (11, 7));
    // a deletion stores no bytes; it adds a piece for each end inside a piece
    t.delete(1, 3);
    assert_eq!(t.to_vec(), b"_XYcdefgh");
    assert_eq!((t.stored_len(), t.count_pieces()), (11, 7));
    t.delete(2, 4);
    assert_eq!(t.to_vec(), b"_Xdefgh");
    assert_eq!((t.stored_len(), t.count_pieces()), (11, 9));
    t.delete(0, 3);
    assert_eq!(t.to_vec(), b"efgh");
    assert_eq!((t.stored_len(), t.count_pieces()), (11, 10));
    t.delete(3, 1);
    assert_eq!((t.stored_len(), t.count_pieces()), (11, 10));
    t.delete(0, 4);
    assert_eq!((t.stored_len(), t.count_pieces()), (11, 10));
    assert_eq!(t.len(), 0);
}
