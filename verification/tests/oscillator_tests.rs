//! Oscillators and momentum-family indicators.

use m4rs::{awesome_oscillator, cci, rci, rsi, slow_stochastics, stochastics, williams_percent_r};
use m4rs::{Candlestick, Error, IndexEntry, Scalar, SCALE};

fn s(v: i64) -> Scalar {
    Scalar::from_int(v)
}

fn five_bars() -> Vec<Candlestick> {
    vec![
        Candlestick::new(1719400001, s(100), s(130), s(90), s(110), s(1000)),
        Candlestick::new(1719400002, s(110), s(140), s(100), s(130), s(1000)),
        Candlestick::new(1719400003, s(130), s(135), s(120), s(120), s(1000)),
        Candlestick::new(1719400004, s(120), s(130), s(80), s(95), s(1000)),
        Candlestick::new(1719400005, s(90), s(100), s(70), s(82), s(1000)),
    ]
}

fn entries(vals: &[(u64, i64)]) -> Vec<IndexEntry> {
    vals.iter().map(|&(at, v)| IndexEntry::new(at, s(v))).collect()
}

#[test]
fn test_rsi_values_and_bounds() {
    let xs = entries(&[(1, 100), (2, 110), (3, 130), (4, 120), (5, 90)]);
    let got = rsi(&xs, 2).unwrap();
    assert_eq!(3, got.len());
    assert_eq!(3, got[0].at);
    assert_eq!(s(100), got[0].value);
    assert_eq!(4, got[1].at);
    assert_eq!(s(60), got[1].value);
    assert_eq!(5, got[2].at);
    // up 3.75, down 17.5: 3.75 / 21.25 truncated, times 100.
    assert_eq!(Scalar::from_scaled(17_647_058_800), got[2].value);
    for e in got.iter() {
        match e.value {
            Scalar::Num(f) => assert!(0 <= f.m && f.m <= 100 * SCALE),
            _ => panic!("rsi emitted a non-finite value"),
        }
    }
}

#[test]
fn test_rsi_flat_series_fails_divide_by_zero() {
    let xs = entries(&[(1, 100), (2, 100), (3, 100)]);
    let got = rsi(&xs, 1);
    assert!(
        matches!(got, Err(Error::DividedByZero { at: 2, ref field }) if field == "upside+downside")
    );
}

#[test]
fn test_rsi_needs_duration_plus_one_points() {
    let xs = entries(&[(1, 100), (2, 110)]);
    assert_eq!(0, rsi(&xs, 2).unwrap().len());
}

#[test]
fn test_rci_values() {
    let xs = entries(&[(1, 100), (2, 110), (3, 130), (4, 120), (5, 90)]);
    let got = rci(&xs, 3).unwrap();
    assert_eq!(3, got.len());
    assert_eq!(3, got[0].at);
    assert_eq!(s(100), got[0].value);
    assert_eq!(4, got[1].at);
    assert_eq!(s(50), got[1].value);
    assert_eq!(5, got[2].at);
    assert_eq!(s(-100), got[2].value);
}

#[test]
fn test_rci_window_one_fails_divide_by_zero() {
    let xs = entries(&[(1, 100), (2, 110)]);
    let got = rci(&xs, 1);
    assert!(matches!(got, Err(Error::DividedByZero { at: 1, ref field }) if field == "duration"));
}

#[test]
fn test_cci_values() {
    // Typical prices 10, 20, 30.
    let xs = vec![
        Candlestick::new(1, s(10), s(15), s(5), s(10), s(1)),
        Candlestick::new(2, s(20), s(25), s(15), s(20), s(1)),
        Candlestick::new(3, s(30), s(35), s(25), s(30), s(1)),
    ];
    let got = cci(&xs, 2).unwrap();
    assert_eq!(2, got.len());
    assert_eq!(2, got[0].at);
    // (20 - 15) / (5 * 0.015) truncated at nine decimals.
    assert_eq!(Scalar::from_scaled(66_666_666_666), got[0].value);
    assert_eq!(3, got[1].at);
    assert_eq!(Scalar::from_scaled(66_666_666_666), got[1].value);
}

#[test]
fn test_cci_flat_window_fails_divide_by_zero() {
    let xs = vec![
        Candlestick::new(1, s(10), s(15), s(5), s(10), s(1)),
        Candlestick::new(2, s(10), s(15), s(5), s(10), s(1)),
    ];
    let got = cci(&xs, 2);
    assert!(
        matches!(got, Err(Error::DividedByZero { at: 2, ref field }) if field == "mean deviation")
    );
}

#[test]
fn test_williams_percent_r_values() {
    let got = williams_percent_r(&five_bars(), 3).unwrap();
    assert_eq!(3, got.len());
    assert_eq!(1719400003, got[0].at);
    assert_eq!(s(-40), got[0].value);
    assert_eq!(1719400004, got[1].at);
    assert_eq!(s(-75), got[1].value);
    assert_eq!(1719400005, got[2].at);
    // (82 - 135) / 65 truncated, times 100.
    assert_eq!(Scalar::from_scaled(-81_538_461_500), got[2].value);
}

#[test]
fn test_williams_percent_r_zero_range_is_zero() {
    let xs = vec![
        Candlestick::new(1, s(10), s(10), s(10), s(10), s(1)),
        Candlestick::new(2, s(10), s(10), s(10), s(10), s(1)),
    ];
    let got = williams_percent_r(&xs, 2).unwrap();
    assert_eq!(1, got.len());
    assert_eq!(s(0), got[0].value);
}

#[test]
fn test_stochastics_values() {
    let got = stochastics(&five_bars(), 3, 2).unwrap();
    assert_eq!(2, got.len());
    assert_eq!(1719400004, got[0].at);
    assert_eq!(25 * SCALE, got[0].k.m);
    assert_eq!(42_500_000_000, got[0].d.m);
    assert_eq!(1719400005, got[1].at);
    assert_eq!(18_461_538_400, got[1].k.m);
    assert_eq!(21_730_769_200, got[1].d.m);
}

#[test]
fn test_slow_stochastics_values() {
    let got = slow_stochastics(&five_bars(), 3, 2, 1).unwrap();
    assert_eq!(2, got.len());
    // A unit slow window keeps %D as Slow%D.
    assert_eq!(1719400004, got[0].at);
    assert_eq!(25 * SCALE, got[0].k.m);
    assert_eq!(42_500_000_000, got[0].d.m);
    assert_eq!(42_500_000_000, got[0].sd.m);
    assert_eq!(1719400005, got[1].at);
    assert_eq!(21_730_769_200, got[1].sd.m);
}

#[test]
fn test_awesome_oscillator_values() {
    let got = awesome_oscillator(&five_bars(), 2, 3).unwrap();
    assert_eq!(3, got.len());
    assert_eq!(1719400003, got[0].at);
    assert_eq!(Scalar::from_scaled(4_583_333_334), got[0].value);
    assert_eq!(1719400004, got[1].at);
    assert_eq!(Scalar::from_scaled(-1_250_000_000), got[1].value);
    assert_eq!(1719400005, got[2].at);
    assert_eq!(Scalar::from_scaled(-10_833_333_333), got[2].value);
}

#[test]
fn test_awesome_oscillator_rejects_misordered_windows() {
    let got = awesome_oscillator(&five_bars(), 4, 2);
    assert!(matches!(
        got,
        Err(Error::LongDurationIsNotGreaterThanShortDuration {
            short_duration: 4,
            long_duration: 2,
        })
    ));
}

#[test]
fn test_awesome_oscillator_equal_windows_is_empty() {
    assert_eq!(0, awesome_oscillator(&five_bars(), 3, 3).unwrap().len());
}
