use piece_table::{Piece, Text};

fn drain_bytes(t: &Text) -> Vec<u8> {
    let mut it = t.bytes();
    let mut v = Vec::new();
    while let Some(b) = it.next() {
        v.push(b);
    }
    v
}

#[test]
fn pieces_of_an_empty_text() {
    let t = Text::new();
    let mut it = t.pieces();
    assert_eq!(it.next(), None);
    assert_eq!(it.next(), None);
}

#[test]
fn pieces_come_with_their_start_offsets() {
    let mut t = Text::new();
    t.append(b"Hello");
    t.append(b" ");
    t.append(b"World");
    let mut it = t.pieces();
    let mut offsets = Vec::new();
    let mut pieces: Vec<Piece> = Vec::new();
    while let Some((off, piece)) = it.next() {
        offsets.push(off);
        pieces.push(piece);
    }
    assert_eq!(offsets, vec![0, 5, 6]);
    // three pieces, all different
    assert_eq!(pieces.len(), 3);
    assert_ne!(pieces[0], pieces[1]);
    assert_ne!(pieces[1], pieces[2]);
    assert_ne!(pieces[0], pieces[2]);
    // once at the end, the cursor stays there
    assert_eq!(it.next(), None);
    assert_eq!(it.next(), None);
}

#[test]
fn a_fresh_piece_cursor_starts_over() {
    let mut t = Text::new();
    t.append(b"ab");
    t.append(b"cd");
    let mut first = t.pieces();
    let a = first.next();
    let mut second = t.pieces();
    assert_eq!(second.next(), a);
    assert_eq!(first.next(), second.next());
    assert_eq!(first.next(), None);
}

#[test]
fn bytes_of_an_empty_text() {
    let t = Text::new();
    let mut it = t.bytes();
    assert_eq!(it.next(), None);
    assert_eq!(it.next(), None);
}

#[test]
fn bytes_cross_piece_boundaries() {
    let mut t = Text::new();
    t.insert(0, b"World");
    t.insert(0, b"Hello ");
    t.insert(11, b"!");
    let mut it = t.bytes();
    for expected in b"Hello World!" {
        assert_eq!(it.next(), Some(*expected));
    }
    assert_eq!(it.next(), None);
    assert_eq!(it.next(), None);
}

#[test]
fn bytes_agree_with_the_materialized_text() {
    let mut t = Text::new();
    t.insert(0, b"0123456789");
    t.insert(5, &[0, 255, 128]);
    t.delete(2, 4);
    t.delete(7, 10);
    t.insert(1, b"x");
    assert_eq!(drain_bytes(&t), t.to_vec());
    assert_eq!(drain_bytes(&t).len(), t.len());
    t.delete(0, t.len() as u32);
    assert_eq!(drain_bytes(&t), Vec::<u8>::new());
}

#[test]
fn bytes_after_single_byte_pieces() {
    let mut t = Text::new();
    for b in b"abcdef" {
        t.insert(0, &[*b]);
    }
    assert_eq!(drain_bytes(&t), b"fedcba");
}
