use wbook_core::types::{ByteRange, RangeError, TextOp, TextRange};

#[test]
fn text_range_new_refuses_inverted_bounds() {
    assert_eq!(TextRange::new(2, 5), Ok(TextRange { start: 2, end: 5 }));
    assert_eq!(TextRange::new(4, 4), Ok(TextRange { start: 4, end: 4 }));
    assert_eq!(TextRange::new(5, 2), Err(RangeError::Inverted { start: 5, end: 2 }));
    assert_eq!(ByteRange::new(7, 3), Err(RangeError::Inverted { start: 7, end: 3 }));
}

#[test]
fn text_range_len_empty_and_contains() {
    let r = TextRange::new(3, 10).unwrap();
    assert_eq!(r.len(), 7);
    assert!(!r.is_empty());
    assert!(TextRange::new(6, 6).unwrap().is_empty());
    assert!(r.contains(&TextRange::new(3, 10).unwrap()));
    assert!(r.contains(&TextRange::new(4, 9).unwrap()));
    assert!(!r.contains(&TextRange::new(2, 9).unwrap()));
    assert!(!r.contains(&TextRange::new(4, 11).unwrap()));
}

#[test]
fn merge_is_the_smallest_cover_and_commutes() {
    let a = TextRange::new(3, 6).unwrap();
    let b = TextRange::new(8, 12).unwrap();
    let c = TextRange::new(1, 4).unwrap();
    let ab = a.merge(b);
    assert_eq!(ab, TextRange { start: 3, end: 12 });
    assert_eq!(ab, b.merge(a));
    assert!(ab.contains(&a) && ab.contains(&b));
    assert_eq!(a.merge(b).merge(c), a.merge(b.merge(c)));
    assert_eq!(a.merge(a), a);
    // A range absorbs exactly the ranges it contains.
    assert_eq!(ab.merge(a), ab);
    assert_ne!(a.merge(c), a);
    assert!(!a.contains(&c));
    let bytes = ByteRange::new(5, 9).unwrap().merge(ByteRange::new(0, 2).unwrap());
    assert_eq!(bytes, ByteRange { start: 0, end: 9 });
}

#[test]
fn text_op_range_is_the_operated_range() {
    let r = TextRange::new(1, 2).unwrap();
    assert_eq!(TextOp::Delete { range: r }.range(), r);
    assert_eq!(TextOp::Replace { range: r, replacement: "x".to_string() }.range(), r);
    assert_eq!(TextOp::Insert { range: r, insertion: "y".to_string() }.range(), r);
}
