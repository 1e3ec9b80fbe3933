//! Sample codecs, parameter derivation and stream control for an IQ FM
//! demodulator that reads raw receiver samples and writes demodulated audio.

pub mod usage;
pub mod codec;
pub mod params;
pub mod driver;
