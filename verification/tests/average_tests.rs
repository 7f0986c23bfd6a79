//! Moving averages and their composites.

use m4rs::{dema, ema, hma, macd, momentum, rma, sma, tema, wma};
use m4rs::{Candlestick, Error, Fixed, IndexEntry, Scalar};

fn s(v: i64) -> Scalar {
    Scalar::from_int(v)
}

fn five_bars() -> Vec<Candlestick> {
    vec![
        Candlestick::new(1719400001, s(100), s(130), s(90), s(110), s(1000)),
        Candlestick::new(1719400002, s(110), s(140), s(100), s(130), s(1000)),
        Candlestick::new(1719400003, s(130), s(135), s(120), s(120), s(1000)),
        Candlestick::new(1719400004, s(120), s(130), s(80), s(95), s(1000)),
        Candlestick::new(1719400005, s(90), s(100), s(70), s(82), s(1000)),
    ]
}

fn entries(vals: &[(u64, i64)]) -> Vec<IndexEntry> {
    vals.iter().map(|&(at, v)| IndexEntry::new(at, s(v))).collect()
}

#[test]
fn test_sma() {
    let xs = five_bars();
    let got = sma(&xs, 3);
    assert!(got.is_ok());
    let got = got.unwrap();
    assert_eq!(3, got.len());
    assert_eq!(1719400003, got[0].at);
    assert_eq!(s(120), got[0].value);
    assert_eq!(1719400004, got[1].at);
    assert_eq!(s(115), got[1].value);
    assert_eq!(1719400005, got[2].at);
    assert_eq!(s(99), got[2].value);
}

#[test]
fn test_sma_unsorted_input_is_sorted_first() {
    let mut xs = five_bars();
    xs.swap(0, 4);
    xs.swap(1, 3);
    let got = sma(&xs, 3).unwrap();
    assert_eq!(3, got.len());
    assert_eq!(1719400003, got[0].at);
    assert_eq!(s(120), got[0].value);
    assert_eq!(1719400005, got[2].at);
    assert_eq!(s(99), got[2].value);
}

#[test]
fn test_sma_empty_policies() {
    let xs = entries(&[(1, 10), (2, 20)]);
    assert_eq!(0, sma(&xs, 0).unwrap().len());
    assert_eq!(0, sma(&xs, 3).unwrap().len());
    assert_eq!(0, sma(&Vec::<IndexEntry>::new(), 2).unwrap().len());
}

#[test]
fn test_sma_rejects_nan() {
    let xs = vec![
        IndexEntry::new(1, s(10)),
        IndexEntry::new(2, Scalar::NaN),
        IndexEntry::new(3, s(30)),
    ];
    let got = sma(&xs, 2);
    assert!(matches!(got, Err(Error::ContainsNaN { at: 2, ref field }) if field == "value"));
}

#[test]
fn test_ema_first_value_is_sma() {
    // The first emitted EMA value equals the plain SMA of the first window.
    let xs = entries(&[(1, 10), (2, 20), (3, 30), (4, 40)]);
    let e = ema(&xs, 2).unwrap();
    let a = sma(&xs, 2).unwrap();
    assert_eq!(3, e.len());
    assert_eq!(a[0].at, e[0].at);
    assert_eq!(a[0].value, e[0].value);
    assert_eq!(s(15), e[0].value);
}

#[test]
fn test_ema_recurrence_values() {
    // alpha = 2 / 3 = 0.666666666 truncated; 15 + 0.666666666 * 15 = 24.99999999.
    let xs = entries(&[(1, 10), (2, 20), (3, 30)]);
    let e = ema(&xs, 2).unwrap();
    assert_eq!(2, e.len());
    assert_eq!(s(15), e[0].value);
    assert_eq!(Scalar::from_scaled(24_999_999_990), e[1].value);
}

#[test]
fn test_rma_wilder_factor() {
    // alpha = 1 / 2: 15 + 0.5 * (30 - 15) = 22.5.
    let xs = entries(&[(1, 10), (2, 20), (3, 30)]);
    let e = rma(&xs, 2).unwrap();
    assert_eq!(2, e.len());
    assert_eq!(s(15), e[0].value);
    assert_eq!(Scalar::from_scaled(22_500_000_000), e[1].value);
}

#[test]
fn test_wma_duration_one_is_identity() {
    let xs = entries(&[(1, 10), (2, 20), (3, 30)]);
    let got = wma(&xs, 1).unwrap();
    assert_eq!(3, got.len());
    for (g, x) in got.iter().zip(xs.iter()) {
        assert_eq!(x.at, g.at);
        assert_eq!(x.value, g.value);
    }
}

#[test]
fn test_wma_weighted_values() {
    // (10*1 + 20*2) / 3 and (20*1 + 30*2) / 3, truncated.
    let xs = entries(&[(1, 10), (2, 20), (3, 30)]);
    let got = wma(&xs, 2).unwrap();
    assert_eq!(2, got.len());
    assert_eq!(Scalar::from_scaled(16_666_666_666), got[0].value);
    assert_eq!(Scalar::from_scaled(26_666_666_666), got[1].value);
}

#[test]
fn test_hma_small_window() {
    // HMA(2): half-window WMA is the identity, smoothing window isqrt(2) = 1.
    let xs = entries(&[(1, 10), (2, 20), (3, 30)]);
    let got = hma(&xs, 2).unwrap();
    assert_eq!(2, got.len());
    assert_eq!(2, got[0].at);
    assert_eq!(Scalar::from_scaled(23_333_333_334), got[0].value);
    assert_eq!(3, got[1].at);
    assert_eq!(Scalar::from_scaled(33_333_333_334), got[1].value);
}

#[test]
fn test_momentum_values() {
    let xs = entries(&[(1, 10), (2, 20), (3, 30)]);
    let got = momentum(&xs, 2).unwrap();
    assert_eq!(1, got.len());
    assert_eq!(3, got[0].at);
    assert_eq!(s(20), got[0].value);
}

#[test]
fn test_momentum_negation_symmetry() {
    let xs = entries(&[(1, 12), (2, 7), (3, 31), (4, 2)]);
    let neg: Vec<IndexEntry> = xs.iter().map(|e| IndexEntry::new(e.at, scalar_neg(e.value))).collect();
    let a = momentum(&xs, 2).unwrap();
    let b = momentum(&neg, 2).unwrap();
    assert_eq!(a.len(), b.len());
    for (x, y) in a.iter().zip(b.iter()) {
        assert_eq!(x.at, y.at);
        assert_eq!(scalar_neg(x.value), y.value);
    }
}

fn scalar_neg(v: Scalar) -> Scalar {
    match v {
        Scalar::Num(f) => Scalar::Num(Fixed { m: -f.m }),
        other => other,
    }
}

#[test]
fn test_dema_negation_symmetry() {
    let xs = entries(&[(1, 12), (2, 7), (3, 31), (4, 2), (5, 19)]);
    let neg: Vec<IndexEntry> = xs.iter().map(|e| IndexEntry::new(e.at, scalar_neg(e.value))).collect();
    let a = dema(&xs, 2).unwrap();
    let b = dema(&neg, 2).unwrap();
    assert_eq!(a.len(), b.len());
    assert!(a.len() > 0);
    for (x, y) in a.iter().zip(b.iter()) {
        assert_eq!(x.at, y.at);
        assert_eq!(scalar_neg(x.value), y.value);
    }
}

#[test]
fn test_tema_negation_symmetry() {
    let xs = entries(&[(1, 12), (2, 7), (3, 31), (4, 2), (5, 19), (6, 40), (7, 1)]);
    let neg: Vec<IndexEntry> = xs.iter().map(|e| IndexEntry::new(e.at, scalar_neg(e.value))).collect();
    let a = tema(&xs, 2).unwrap();
    let b = tema(&neg, 2).unwrap();
    assert_eq!(a.len(), b.len());
    assert!(a.len() > 0);
    for (x, y) in a.iter().zip(b.iter()) {
        assert_eq!(x.at, y.at);
        assert_eq!(scalar_neg(x.value), y.value);
    }
}

#[test]
fn test_macd_trivial_windows() {
    // With unit windows both EMAs are the series itself, so every line is zero.
    let xs = entries(&[(1, 10), (2, 20), (3, 30)]);
    let got = macd(&xs, 1, 1, 1).unwrap();
    assert_eq!(3, got.len());
    for (k, e) in got.iter().enumerate() {
        assert_eq!((k + 1) as u64, e.at);
        assert_eq!(0, e.macd.m);
        assert_eq!(0, e.signal.m);
        assert_eq!(0, e.histogram.m);
    }
}

#[test]
fn test_macd_negation_symmetry() {
    let xs = entries(&[(1, 12), (2, 7), (3, 31), (4, 2), (5, 19), (6, 40)]);
    let neg: Vec<IndexEntry> = xs.iter().map(|e| IndexEntry::new(e.at, scalar_neg(e.value))).collect();
    let a = macd(&xs, 2, 3, 2).unwrap();
    let b = macd(&neg, 2, 3, 2).unwrap();
    assert_eq!(a.len(), b.len());
    assert!(a.len() > 0);
    for (x, y) in a.iter().zip(b.iter()) {
        assert_eq!(x.at, y.at);
        assert_eq!(-x.macd.m, y.macd.m);
        assert_eq!(-x.signal.m, y.signal.m);
        assert_eq!(-x.histogram.m, y.histogram.m);
    }
}

#[test]
fn test_macd_rejects_misordered_windows() {
    let xs = entries(&[(1, 10), (2, 20)]);
    let got = macd(&xs, 5, 3, 2);
    assert!(matches!(
        got,
        Err(Error::LongDurationIsNotGreaterThanShortDuration {
            short_duration: 5,
            long_duration: 3,
        })
    ));
}
