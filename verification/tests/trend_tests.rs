//! Volatility, trend and structural indicators.

use m4rs::{
    atr, bolinger_band, dmi, envelope, heikin_ashi, ichimoku, parabolic_sar, standard_deviation,
    vwma, williams_fractals,
};
use m4rs::{Candlestick, Error, Fixed, IndexEntry, Scalar, SCALE};

fn s(v: i64) -> Scalar {
    Scalar::from_int(v)
}

fn five_bars() -> Vec<Candlestick> {
    vec![
        Candlestick::new(1719400001, s(100), s(130), s(90), s(110), s(1000)),
        Candlestick::new(1719400002, s(110), s(140), s(100), s(130), s(1000)),
        Candlestick::new(1719400003, s(130), s(135), s(120), s(120), s(1000)),
        Candlestick::new(1719400004, s(120), s(130), s(80), s(95), s(1000)),
        Candlestick::new(1719400005, s(90), s(100), s(70), s(82), s(1000)),
    ]
}

#[test]
fn test_atr_values() {
    // True ranges 40, 15, 50, 30; Wilder smoothing with window 2.
    let got = atr(&five_bars(), 2).unwrap();
    assert_eq!(3, got.len());
    assert_eq!(1719400003, got[0].at);
    assert_eq!(Scalar::from_scaled(27_500_000_000), got[0].value);
    assert_eq!(1719400004, got[1].at);
    assert_eq!(Scalar::from_scaled(38_750_000_000), got[1].value);
    assert_eq!(1719400005, got[2].at);
    assert_eq!(Scalar::from_scaled(34_375_000_000), got[2].value);
}

#[test]
fn test_vwma_values() {
    let xs = vec![
        Candlestick::new(1, s(10), s(11), s(9), s(10), s(1)),
        Candlestick::new(2, s(20), s(21), s(19), s(20), s(3)),
        Candlestick::new(3, s(30), s(31), s(29), s(30), s(1)),
    ];
    let got = vwma(&xs, 2).unwrap();
    assert_eq!(2, got.len());
    assert_eq!(2, got[0].at);
    // (10 * 1 + 20 * 3) / 4 = 17.5
    assert_eq!(Scalar::from_scaled(17_500_000_000), got[0].value);
    assert_eq!(3, got[1].at);
    // (20 * 3 + 30 * 1) / 4 = 22.5
    assert_eq!(Scalar::from_scaled(22_500_000_000), got[1].value);
}

#[test]
fn test_vwma_zero_volume_window_fails_divide_by_zero() {
    let xs = vec![
        Candlestick::new(1, s(10), s(11), s(9), s(10), s(2)),
        Candlestick::new(2, s(20), s(21), s(19), s(20), s(0)),
        Candlestick::new(3, s(30), s(31), s(29), s(30), s(0)),
    ];
    // The window anchored at timestamp 3 is the first whose volumes sum
    // to zero.
    let got = vwma(&xs, 2);
    assert!(
        matches!(got, Err(Error::DividedByZero { at: 3, ref field }) if field == "sum of volume")
    );
}

#[test]
fn test_dmi_values() {
    let xs = vec![
        Candlestick::new(1, s(2), s(10), s(0), s(5), s(1)),
        Candlestick::new(2, s(12), s(20), s(10), s(15), s(1)),
        Candlestick::new(3, s(2), s(10), s(0), s(5), s(1)),
    ];
    let got = dmi(&xs, 1).unwrap();
    assert_eq!(2, got.len());
    assert_eq!(2, got[0].at);
    assert_eq!(666_666_666, got[0].plus_di.m);
    assert_eq!(0, got[0].minus_di.m);
    assert_eq!(SCALE, got[0].dx.m);
    assert_eq!(SCALE, got[0].adx.m);
    assert_eq!(3, got[1].at);
    assert_eq!(0, got[1].plus_di.m);
    assert_eq!(666_666_666, got[1].minus_di.m);
    assert_eq!(SCALE, got[1].dx.m);
    assert_eq!(SCALE, got[1].adx.m);
}

#[test]
fn test_dmi_tie_zeroes_both_movements() {
    // High advance and low decline are both 5: the tie zeroes both
    // movements, so the indicator sum is zero and the call fails.
    let xs = vec![
        Candlestick::new(1, s(12), s(20), s(10), s(15), s(1)),
        Candlestick::new(2, s(12), s(25), s(5), s(15), s(1)),
    ];
    let got = dmi(&xs, 1);
    assert!(matches!(got, Err(Error::DividedByZero { at: 2, ref field }) if field == "di"));
}

#[test]
fn test_dmi_flat_movement_fails_divide_by_zero() {
    let got = dmi(&five_bars(), 1);
    assert!(matches!(got, Err(Error::DividedByZero { at: 1719400003, ref field }) if field == "di"));
}

#[test]
fn test_parabolic_sar_trace() {
    // Hand-computed recurrence with af 0.02 / 0.02 / 0.2 over the five
    // bars: 90, 92, 93.92, then a reversal gives 138.8.
    let af = Fixed::from_scaled(20_000_000);
    let af_max = Fixed::from_scaled(200_000_000);
    let got = parabolic_sar(&five_bars(), af, af, af_max).unwrap();
    assert_eq!(4, got.len());
    assert_eq!(1719400002, got[0].at);
    assert_eq!(s(90), got[0].value);
    assert_eq!(1719400003, got[1].at);
    assert_eq!(s(92), got[1].value);
    assert_eq!(1719400004, got[2].at);
    assert_eq!(Scalar::from_scaled(93_920_000_000), got[2].value);
    assert_eq!(1719400005, got[3].at);
    assert_eq!(Scalar::from_scaled(138_800_000_000), got[3].value);
}

#[test]
fn test_parabolic_sar_rejects_negative_factor() {
    let af = Fixed::from_scaled(20_000_000);
    let bad = Fixed::from_scaled(-1);
    let got = parabolic_sar(&five_bars(), af, bad, af);
    assert!(matches!(got, Err(Error::MustBePositive { value, ref field })
        if field == "af_step" && value.m == -1));
}

#[test]
fn test_heikin_ashi_values() {
    let got = heikin_ashi(&five_bars()).unwrap();
    assert_eq!(5, got.len());
    assert_eq!(s(100), got[0].open);
    assert_eq!(s(110), got[0].close);
    assert_eq!(s(105), got[1].open);
    assert_eq!(s(120), got[1].close);
    assert_eq!(Scalar::from_scaled(112_500_000_000), got[2].open);
    assert_eq!(Scalar::from_scaled(126_250_000_000), got[2].close);
    assert_eq!(Scalar::from_scaled(119_375_000_000), got[3].open);
    assert_eq!(Scalar::from_scaled(106_250_000_000), got[3].close);
    assert_eq!(Scalar::from_scaled(112_812_500_000), got[4].open);
    assert_eq!(Scalar::from_scaled(85_500_000_000), got[4].close);
    // Highs, lows and volumes are carried over unchanged.
    assert_eq!(s(140), got[1].high);
    assert_eq!(s(100), got[1].low);
    assert_eq!(s(1000), got[1].volume);
}

#[test]
fn test_williams_fractals_values() {
    let got = williams_fractals(&five_bars(), 1).unwrap();
    assert_eq!(4, got.len());
    assert_eq!(1719400002, got[0].at);
    assert!(got[0].up);
    assert!(!got[0].down);
    assert_eq!(1719400003, got[1].at);
    assert!(!got[1].up && !got[1].down);
    assert_eq!(1719400004, got[2].at);
    assert!(!got[2].up && !got[2].down);
    // The trailing bar lacks a trailing group and carries no flags.
    assert_eq!(1719400005, got[3].at);
    assert!(!got[3].up && !got[3].down);
}

#[test]
fn test_williams_fractals_short_input_band() {
    // Between `duration` and `2 * duration` bars no centered window
    // exists: every emitted bar carries both flags false.
    let xs = vec![
        Candlestick::new(1, s(10), s(20), s(5), s(15), s(1)),
        Candlestick::new(2, s(10), s(30), s(5), s(15), s(1)),
        Candlestick::new(3, s(10), s(25), s(5), s(15), s(1)),
    ];
    let got = williams_fractals(&xs, 2).unwrap();
    assert_eq!(1, got.len());
    assert_eq!(3, got[0].at);
    assert!(!got[0].up && !got[0].down);

    let got = williams_fractals(&xs, 3).unwrap();
    assert_eq!(0, got.len());

    let got = williams_fractals(&xs, 4).unwrap();
    assert_eq!(0, got.len());
}

#[test]
fn test_size_caps_do_not_gate_empty_results() {
    // A duration beyond a window cap still yields an empty success when
    // the input is shorter than the window.
    let xs = vec![
        Candlestick::new(1, s(10), s(20), s(5), s(15), s(2)),
        Candlestick::new(2, s(10), s(30), s(5), s(15), s(2)),
    ];
    assert_eq!(0, vwma(&xs, usize::MAX).unwrap().len());
    let es = vec![IndexEntry::new(1, s(10)), IndexEntry::new(2, s(20))];
    assert_eq!(0, m4rs::wma(&es, usize::MAX).unwrap().len());
    assert_eq!(0, m4rs::hma(&es, usize::MAX).unwrap().len());
    assert_eq!(0, m4rs::rci(&es, usize::MAX).unwrap().len());
    assert_eq!(0, m4rs::stochastics(&xs, usize::MAX, usize::MAX).unwrap().len());
    assert_eq!(0, m4rs::slow_stochastics(&xs, usize::MAX, usize::MAX, usize::MAX).unwrap().len());
}

#[test]
fn test_standard_deviation_values() {
    let xs = vec![IndexEntry::new(1, s(10)), IndexEntry::new(2, s(20))];
    let got = standard_deviation(&xs, 2).unwrap();
    assert_eq!(1, got.len());
    assert_eq!(2, got[0].at);
    assert_eq!(s(5), got[0].value);
}

#[test]
fn test_bolinger_band_values() {
    let xs = vec![IndexEntry::new(1, s(10)), IndexEntry::new(2, s(20))];
    let got = bolinger_band(&xs, 2).unwrap();
    assert_eq!(1, got.len());
    let e = &got[0];
    assert_eq!(2, e.at);
    assert_eq!(15 * SCALE, e.avg.m);
    assert_eq!(5 * SCALE, e.sigma.m);
    assert_eq!(20 * SCALE, e.upper_sigma1().m);
    assert_eq!(25 * SCALE, e.upper_sigma2().m);
    assert_eq!(30 * SCALE, e.upper_sigma3().m);
    assert_eq!(10 * SCALE, e.lower_sigma1().m);
    assert_eq!(5 * SCALE, e.lower_sigma2().m);
    assert_eq!(0, e.lower_sigma3().m);
}

#[test]
fn test_envelope_values() {
    let xs = vec![IndexEntry::new(1, s(100)), IndexEntry::new(2, s(200))];
    let got = envelope(&xs, Fixed::from_int(10)).unwrap();
    assert_eq!(2, got.len());
    assert_eq!(1, got[0].at);
    assert_eq!(100 * SCALE, got[0].basis.m);
    assert_eq!(110 * SCALE, got[0].upper.m);
    assert_eq!(90 * SCALE, got[0].lower.m);
    assert_eq!(220 * SCALE, got[1].upper.m);
    assert_eq!(180 * SCALE, got[1].lower.m);
}

#[test]
fn test_ichimoku_offsets_and_values() {
    let got = ichimoku(&five_bars(), 2, 3, 4, 3).unwrap();

    // Conversion line: two-bar midpoints.
    assert_eq!(4, got.conversion_line.len());
    assert_eq!(1719400002, got.conversion_line[0].at);
    assert_eq!(s(115), got.conversion_line[0].value);
    assert_eq!(Scalar::from_scaled(107_500_000_000), got.conversion_line[2].value);

    // Base line: three-bar midpoints.
    assert_eq!(3, got.base_line.len());
    assert_eq!(1719400003, got.base_line[0].at);
    assert_eq!(s(115), got.base_line[0].value);
    assert_eq!(Scalar::from_scaled(102_500_000_000), got.base_line[2].value);

    // Leading span A: base/conversion midpoints shifted forward by
    // (3 - 1) bar intervals.
    assert_eq!(3, got.leading_span_a.len());
    for (k, e) in got.leading_span_a.iter().enumerate() {
        assert_eq!(got.base_line[k].at + 2, e.at);
    }
    assert_eq!(Scalar::from_scaled(117_500_000_000), got.leading_span_a[0].value);
    assert_eq!(Scalar::from_scaled(108_750_000_000), got.leading_span_a[1].value);
    assert_eq!(Scalar::from_scaled(101_250_000_000), got.leading_span_a[2].value);

    // Leading span B: four-bar midpoints shifted forward the same way.
    assert_eq!(2, got.leading_span_b.len());
    assert_eq!(1719400006, got.leading_span_b[0].at);
    assert_eq!(s(110), got.leading_span_b[0].value);
    assert_eq!(1719400007, got.leading_span_b[1].at);
    assert_eq!(s(105), got.leading_span_b[1].value);

    // Lagging span: closes shifted backward by the same offset.
    assert_eq!(5, got.lagging_span.len());
    assert_eq!(1719399999, got.lagging_span[0].at);
    assert_eq!(s(110), got.lagging_span[0].value);
    assert_eq!(1719400003, got.lagging_span[4].at);
    assert_eq!(s(82), got.lagging_span[4].value);

    // The join by timestamp sees the shifted lines.
    let e = got.get(1719400003).unwrap();
    assert_eq!(s(120), Scalar::Num(e.conversion_line.unwrap()));
    assert_eq!(s(115), Scalar::Num(e.base_line.unwrap()));
    assert!(e.leading_span_a.is_none());
    assert_eq!(s(82), Scalar::Num(e.lagging_span.unwrap()));
    assert!(got.get(9999).is_none());
}
