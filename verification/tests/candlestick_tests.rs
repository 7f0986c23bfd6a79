//! Candlestick accessors and validation.

use m4rs::{Candlestick, Error, Fixed, IndexEntryLike, Scalar};

fn s(v: i64) -> Scalar {
    Scalar::from_int(v)
}

#[test]
fn test_candlestick_to_volume_entry() {
    let c1 = Candlestick::new(1001, s(10), s(20), s(5), s(9), s(123));
    assert_eq!(1001, c1.get_at());
    assert_eq!(s(9), c1.get_value());

    let got = c1.to_volume_entry();
    assert_eq!(1001, got.get_at());
    assert_eq!(s(123), got.get_value());
}

#[test]
fn test_candlestick_typical_price() {
    let h = 20;
    let l = 5;
    let c = 9;
    let c1 = Candlestick::new(1001, s(10), s(h), s(l), s(c), s(123));
    // (20 + 5 + 9) / 3 = 11.333333333, truncated at nine decimals.
    assert_eq!(Fixed::from_scaled(11_333_333_333), c1.typical_price());
}

#[test]
fn test_candlestick_to_typical_price_entry() {
    let h = 20;
    let l = 5;
    let c = 9;
    let c1 = Candlestick::new(1001, s(10), s(h), s(l), s(c), s(123));
    assert_eq!(1001, c1.get_at());
    assert_eq!(s(c), c1.get_value());

    let got = c1.to_typical_price_entry();
    assert_eq!(1001, got.get_at());
    assert_eq!(Scalar::from_scaled(11_333_333_333), got.get_value());
}

#[test]
fn test_candlestick_is_bullish_or_bearish() {
    let c1 = Candlestick::new(1001, s(10), s(20), s(5), s(15), s(123));
    assert!(c1.is_bullish());
    assert!(!c1.is_bearish());

    let c2 = Candlestick::new(1001, s(10), s(20), s(5), s(5), s(123));
    assert!(!c2.is_bullish());
    assert!(c2.is_bearish());

    let c3 = Candlestick::new(1001, s(10), s(20), s(5), s(10), s(123));
    assert!(!c3.is_bullish());
    assert!(!c3.is_bearish());
}

#[test]
fn test_candlestick_body() {
    let c1 = Candlestick::new(1001, s(10), s(20), s(5), s(15), s(123));
    assert_eq!(Fixed::from_int(5), c1.body_size());
    assert_eq!(Fixed::from_int(15), c1.body_high());
    assert_eq!(Fixed::from_int(10), c1.body_low());

    let c2 = Candlestick::new(1001, s(10), s(20), s(5), s(6), s(123));
    assert_eq!(Fixed::from_int(4), c2.body_size());
    assert_eq!(Fixed::from_int(10), c2.body_high());
    assert_eq!(Fixed::from_int(6), c2.body_low());

    let c3 = Candlestick::new(1001, s(10), s(20), s(5), s(10), s(123));
    assert_eq!(Fixed::from_int(0), c3.body_size());
    assert_eq!(Fixed::from_int(10), c3.body_high());
    assert_eq!(Fixed::from_int(10), c3.body_low());
}

#[test]
fn test_candlestick_shadow() {
    let c1 = Candlestick::new(1001, s(10), s(20), s(5), s(15), s(123));
    assert_eq!(Fixed::from_int(5), c1.upper_shadow_size());
    assert_eq!(Fixed::from_int(5), c1.lower_shadow_size());

    let c2 = Candlestick::new(1001, s(10), s(20), s(5), s(6), s(123));
    assert_eq!(Fixed::from_int(10), c2.upper_shadow_size());
    assert_eq!(Fixed::from_int(1), c2.lower_shadow_size());

    let c3 = Candlestick::new(1001, s(10), s(20), s(5), s(10), s(123));
    assert_eq!(Fixed::from_int(10), c3.upper_shadow_size());
    assert_eq!(Fixed::from_int(5), c3.lower_shadow_size());

    let c4 = Candlestick::new(1001, s(10), s(10), s(5), s(10), s(123));
    assert_eq!(Fixed::from_int(0), c4.upper_shadow_size());
    assert_eq!(Fixed::from_int(5), c4.lower_shadow_size());

    let c5 = Candlestick::new(1001, s(10), s(20), s(10), s(10), s(123));
    assert_eq!(Fixed::from_int(10), c5.upper_shadow_size());
    assert_eq!(Fixed::from_int(0), c5.lower_shadow_size());
}

#[test]
fn candlestick_test_validate_list() {
    // valid list
    let res = Candlestick::validate_list(&vec![
        Candlestick::new(1719400001, s(100), s(130), s(90), s(110), s(1000)),
        Candlestick::new(1719400002, s(110), s(140), s(100), s(130), s(1000)),
        Candlestick::new(1719400003, s(130), s(135), s(120), s(120), s(1000)),
        Candlestick::new(1719400004, s(120), s(130), s(80), s(95), s(1000)),
        Candlestick::new(1719400005, s(90), s(100), s(70), s(82), s(1000)),
    ]);
    assert!(res.is_ok());

    // invalid: contains NaN
    let res = Candlestick::validate_list(&vec![
        Candlestick::new(1719400001, s(100), s(130), s(90), s(110), s(1000)),
        Candlestick::new(1719400002, s(110), s(140), s(100), s(130), s(1000)),
        Candlestick::new(1719400003, s(130), Scalar::NaN, s(120), s(120), s(1000)),
        Candlestick::new(1719400004, s(120), s(130), s(80), s(95), s(1000)),
        Candlestick::new(1719400005, s(90), s(100), s(70), s(82), s(1000)),
    ]);
    assert!(res.is_err());
    let e = res.err().unwrap();
    assert!(matches!(e, Error::ContainsNaN { at: 1719400003, ref field } if field == "high"));

    // invalid: contains an infinity
    let res = Candlestick::validate_list(&vec![
        Candlestick::new(1719400001, s(100), s(130), s(90), s(110), s(1000)),
        Candlestick::new(1719400002, s(110), s(140), s(100), s(130), s(1000)),
        Candlestick::new(1719400003, s(130), s(135), s(120), s(120), s(1000)),
        Candlestick::new(1719400004, s(120), s(130), s(80), s(95), Scalar::Infinite),
        Candlestick::new(1719400005, s(90), s(100), s(70), s(82), s(1000)),
    ]);
    assert!(res.is_err());
    let e = res.err().unwrap();
    assert!(matches!(e, Error::ContainsInfinite { at: 1719400004, ref field } if field == "volume"));
}
