use piece_table::Span;

#[test]
fn basics() {
    let s = Span::new(1, 1);
    assert_eq!(s.len(), 0);
    assert!(s.is_empty());
    let s2 = Span::new(3, 7);
    assert!(s2.len() == 4);
}

#[test]
fn split() {
    let s = Span::new(3, 7);
    assert_eq!(s.split(0), None);
    assert_eq!(s.split(4), None);
    assert_eq!(s.split(3), Some((Span::new(3, 6), Span::new(6, 7))));
}

#[test]
fn empty_span_is_empty() {
    let s = Span::empty();
    assert_eq!(s, Span::new(0, 0));
    assert_eq!(s.len(), 0);
    assert!(s.is_empty());
    assert!(!Span::new(0, 1).is_empty());
}

#[test]
fn empty_span_never_splits() {
    assert_eq!(Span::empty().split(0), None);
    assert_eq!(Span::new(9, 9).split(0), None);
}

#[test]
fn split_parts_are_adjacent_and_cover_the_span() {
    let s = Span::new(10, 25);
    for n in 1..15 {
        let (left, right) = s.split(n).unwrap();
        assert_eq!(left, Span::new(10, 10 + n));
        assert_eq!(right, Span::new(10 + n, 25));
        assert_eq!(left.len(), n);
        assert_eq!(left.len() + right.len(), s.len());
        assert!(!left.is_empty());
        assert!(!right.is_empty());
    }
    assert_eq!(s.split(0), None);
    assert_eq!(s.split(15), None);
}

#[test]
fn split_of_a_single_byte_span() {
    let s = Span::new(4, 5);
    assert_eq!(s.split(0), None);
    assert_eq!(s.split(1), None);
}

#[test]
fn split_at_the_upper_end_of_the_offset_range() {
    let s = Span::new(u32::MAX - 2, u32::MAX);
    assert_eq!(s.len(), 2);
    assert_eq!(
        s.split(1),
        Some((Span::new(u32::MAX - 2, u32::MAX - 1), Span::new(u32::MAX - 1, u32::MAX)))
    );
}

#[test]
fn spans_compare_by_their_bounds() {
    assert_eq!(Span::new(2, 5), Span::new(2, 5));
    assert_ne!(Span::new(2, 5), Span::new(2, 6));
    assert_ne!(Span::new(2, 5), Span::new(1, 5));
    let s = Span::new(2, 5);
    let copy = s;
    assert_eq!(s, copy);
    assert_eq!(format!("{:?}", s), "Span { off1: 2, off2: 5 }");
}
