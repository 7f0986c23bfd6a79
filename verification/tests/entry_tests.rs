//! Index entries and scalar validation.

use m4rs::{Error, IndexEntry, IndexEntryLike, Scalar};

fn s(v: i64) -> Scalar {
    Scalar::from_int(v)
}

#[test]
fn test_validate_field() {
    let res = IndexEntry::validate_field(1719400001, s(100), "field1");
    assert!(res.is_ok());

    let res = IndexEntry::validate_field(1719400001, Scalar::NaN, "field1");
    assert!(
        matches!(res, Err(Error::ContainsNaN { at: 1719400001, ref field }) if field == "field1")
    );

    let res = IndexEntry::validate_field(1719400002, Scalar::Infinite, "field2");
    assert!(
        matches!(res, Err(Error::ContainsInfinite { at: 1719400002, ref field }) if field == "field2")
    );

    let res = IndexEntry::validate_field(1719400003, Scalar::Infinite, "field3");
    assert!(
        matches!(res, Err(Error::ContainsInfinite { at: 1719400003, ref field }) if field == "field3")
    );
}

#[test]
fn index_entry_test_validate_list() {
    // valid list
    let res = IndexEntry::validate_list(&vec![
        IndexEntry::new(1719400001, s(100)),
        IndexEntry::new(1719400002, s(110)),
        IndexEntry::new(1719400003, s(130)),
        IndexEntry::new(1719400004, s(120)),
        IndexEntry::new(1719400005, s(90)),
    ]);
    assert!(res.is_ok());

    // invalid: contains NaN
    let res = IndexEntry::validate_list(&vec![
        IndexEntry::new(1719400001, s(100)),
        IndexEntry::new(1719400002, s(110)),
        IndexEntry::new(1719400003, Scalar::NaN),
        IndexEntry::new(1719400004, s(120)),
        IndexEntry::new(1719400005, s(90)),
    ]);
    assert!(
        matches!(res, Err(Error::ContainsNaN { at: 1719400003, ref field }) if field == "value")
    );

    // invalid: contains an infinity
    let res = IndexEntry::validate_list(&vec![
        IndexEntry::new(1719400001, s(100)),
        IndexEntry::new(1719400002, s(110)),
        IndexEntry::new(1719400003, s(130)),
        IndexEntry::new(1719400004, Scalar::Infinite),
        IndexEntry::new(1719400005, s(90)),
    ]);
    assert!(
        matches!(res, Err(Error::ContainsInfinite { at: 1719400004, ref field }) if field == "value")
    );
}

#[test]
fn test_index_entry_from() {
    let e = IndexEntry::new(42, s(7));
    let f = IndexEntry::from(&e);
    assert_eq!(42, f.at);
    assert_eq!(s(7), f.value);
    assert_eq!(42, f.get_at());
    assert_eq!(s(7), f.get_value());
}
