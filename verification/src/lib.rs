//! Technical-analysis indicators over timestamped series, computed in exact
//! decimal fixed-point arithmetic so that every indicator carries a precise
//! contract: each public function states, for every input, the exact sequence
//! it returns or the exact error it fails with.

pub mod atr;
pub mod awesome_oscillator;
pub mod bars;
pub mod bolinger_band;
pub mod candlestick;
pub mod cci;
pub mod dema;
pub mod dmi;
pub mod ema;
pub mod envelope;
pub mod error;
pub mod fixed;
pub mod heikin_ashi;
pub mod hma;
pub mod ichimoku;
pub mod index_entry;
pub mod macd;
pub mod momentum;
pub mod parabolic_sar;
pub mod rci;
pub mod rma;
pub mod rsi;
pub mod vwma;
pub mod williams_fractals;
pub mod williams_percent_r;
pub mod wma;
pub mod series;
pub mod sma;
pub mod standard_deviation;
pub mod stochastics;
pub mod tema;

pub use atr::atr;
pub use awesome_oscillator::awesome_oscillator;
pub use bolinger_band::bolinger_band;
pub use bolinger_band::BollingerBandEntry;
pub use candlestick::Candlestick;
pub use cci::cci;
pub use dema::dema;
pub use dmi::dmi;
pub use dmi::DmiEntry;
pub use ema::ema;
pub use envelope::envelope;
pub use envelope::EnvelopeEntry;
pub use error::Error;
pub use fixed::Fixed;
pub use fixed::SCALE;
pub use fixed::Scalar;
pub use heikin_ashi::heikin_ashi;
pub use hma::hma;
pub use ichimoku::ichimoku;
pub use ichimoku::ichimoku_default;
pub use ichimoku::IchimokuData;
pub use ichimoku::IchimokuEntry;
pub use index_entry::IndexEntry;
pub use index_entry::IndexEntryLike;
pub use macd::macd;
pub use macd::MacdEntry;
pub use momentum::momentum;
pub use parabolic_sar::parabolic_sar;
pub use rci::rci;
pub use rma::rma;
pub use rsi::rsi;
pub use vwma::vwma;
pub use williams_fractals::williams_fractals;
pub use williams_fractals::WilliamsFractalsEntry;
pub use williams_percent_r::williams_percent_r;
pub use wma::wma;
pub use sma::sma;
pub use standard_deviation::standard_deviation;
pub use stochastics::slow_stochastics;
pub use stochastics::stochastics;
pub use stochastics::SlowStochasticsEntry;
pub use stochastics::StochasticsEntry;
pub use tema::tema;
