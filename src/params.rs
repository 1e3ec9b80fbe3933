use vstd::prelude::*;
use crate::usage::{CommandArgs, DataType, Modulation};

verus! {

/// Number of taps of the bandpass filter.
pub const FILTER_LEN: u32 = 64;

/// Stop-band attenuation of the filter and the resampler, in dB.
pub const FILTER_ATTENUATION_DB: u32 = 70;

/// The non-negative rational `num / den`.
#[derive(Clone, Copy, Debug, PartialEq, Eq, Structural)]
pub struct Ratio {
    pub num: u64,
    pub den: u64,
}

/// Parameters of the filter, resampler and demodulator, fixed at startup.
#[derive(Clone, Copy, Debug, PartialEq, Eq, Structural)]
pub struct PipelineParams {
    pub filter_len: u32,
    /// Cutoff as a fraction of the input rate: bandwidth / samplerate.
    pub filter_cutoff: Ratio,
    pub filter_attenuation_db: u32,
    /// Gain of the filter: twice the cutoff.
    pub filter_scale: Ratio,
    /// Output rate over input rate; one without resampling.
    pub resample_ratio: Ratio,
    /// FM deviation over the rate that the demodulator runs at.
    pub modulation_factor: Ratio,
}

/// What a configuration can be refused for.
#[derive(Clone, Copy, Debug, PartialEq, Eq, Structural)]
pub enum ConfigError {
    MissingModulation,
    MissingSampleRate,
    MissingBandwidth,
    MissingDeviation,
    MissingInputType,
    MissingOutputType,
    ZeroSampleRate,
    ZeroBandwidth,
    ZeroResampleRate,
}

/// A complete, checked configuration of the demodulator.
#[derive(Clone, Copy, Debug, PartialEq, Eq, Structural)]
pub struct Pipeline {
    pub params: PipelineParams,
    pub inputtype: DataType,
    pub outputtype: DataType,
    pub squarewave: bool,
}

/// The parameters that the given rates determine; the rates that divide
/// are non-zero.
pub open spec fn params_of(samplerate: u32, resamplerate: Option<u32>, bandwidth: u32, deviation: u32) -> PipelineParams {
    PipelineParams {
        filter_len: FILTER_LEN,
        filter_cutoff: Ratio { num: bandwidth as u64, den: samplerate as u64 },
        filter_attenuation_db: FILTER_ATTENUATION_DB,
        filter_scale: Ratio { num: (2 * bandwidth) as u64, den: samplerate as u64 },
        resample_ratio: match resamplerate {
            Some(r) => Ratio { num: r as u64, den: samplerate as u64 },
            None => Ratio { num: 1, den: 1 },
        },
        modulation_factor: match resamplerate {
            Some(r) => Ratio { num: deviation as u64, den: r as u64 },
            None => Ratio { num: deviation as u64, den: samplerate as u64 },
        },
    }
}

/// The first reason, in the order checked, for which `args` is refused.
pub open spec fn config_error(args: CommandArgs) -> Option<ConfigError> {
    if args.modulation is None {
        Some(ConfigError::MissingModulation)
    } else if args.samplerate is None {
        Some(ConfigError::MissingSampleRate)
    } else if args.bandwidth is None {
        Some(ConfigError::MissingBandwidth)
    } else if args.fmargs.deviation is None {
        Some(ConfigError::MissingDeviation)
    } else if args.inputtype is None {
        Some(ConfigError::MissingInputType)
    } else if args.outputtype is None {
        Some(ConfigError::MissingOutputType)
    } else if args.samplerate == Some(0u32) {
        Some(ConfigError::ZeroSampleRate)
    } else if args.bandwidth == Some(0u32) {
        Some(ConfigError::ZeroBandwidth)
    } else if args.resamplerate == Some(0u32) {
        Some(ConfigError::ZeroResampleRate)
    } else {
        None
    }
}

/// Derives the pipeline parameters from the rates.
pub fn derive_params(samplerate: u32, resamplerate: Option<u32>, bandwidth: u32, deviation: u32) -> (r:
    PipelineParams)
    ensures
        r == params_of(samplerate, resamplerate, bandwidth, deviation),
{
    let sr = samplerate as u64;
    let (resample_ratio, modulation_factor) = match resamplerate {
        Some(rr) => (Ratio { num: rr as u64, den: sr }, Ratio { num: deviation as u64, den: rr as u64 }),
        None => (Ratio { num: 1, den: 1 }, Ratio { num: deviation as u64, den: sr }),
    };
    PipelineParams {
        filter_len: FILTER_LEN,
        filter_cutoff: Ratio { num: bandwidth as u64, den: sr },
        filter_attenuation_db: FILTER_ATTENUATION_DB,
        filter_scale: Ratio { num: 2 * (bandwidth as u64), den: sr },
        resample_ratio,
        modulation_factor,
    }
}

/// Checks the options and derives the whole configuration from them.
pub fn configure(args: &CommandArgs) -> (r: Result<Pipeline, ConfigError>)
    ensures
        r is Err <==> config_error(*args) is Some,
        r is Err ==> r == Err::<Pipeline, ConfigError>(config_error(*args).unwrap()),
        r is Ok ==> r == Ok::<Pipeline, ConfigError>(
            Pipeline {
                params: params_of(
                    args.samplerate.unwrap(),
                    args.resamplerate,
                    args.bandwidth.unwrap(),
                    args.fmargs.deviation.unwrap(),
                ),
                inputtype: args.inputtype.unwrap(),
                outputtype: args.outputtype.unwrap(),
                squarewave: args.fmargs.squarewave == Some(true),
            },
        ),
{
    if args.modulation.is_none() {
        return Err(ConfigError::MissingModulation);
    }
    let samplerate = match args.samplerate {
        Some(s) => s,
        None => return Err(ConfigError::MissingSampleRate),
    };
    let bandwidth = match args.bandwidth {
        Some(b) => b,
        None => return Err(ConfigError::MissingBandwidth),
    };
    let deviation = match args.fmargs.deviation {
        Some(d) => d,
        None => return Err(ConfigError::MissingDeviation),
    };
    let inputtype = match args.inputtype {
        Some(t) => t,
        None => return Err(ConfigError::MissingInputType),
    };
    let outputtype = match args.outputtype {
        Some(t) => t,
        None => return Err(ConfigError::MissingOutputType),
    };
    if samplerate == 0 {
        return Err(ConfigError::ZeroSampleRate);
    }
    if bandwidth == 0 {
        return Err(ConfigError::ZeroBandwidth);
    }
    if let Some(rr) = args.resamplerate {
        if rr == 0 {
            return Err(ConfigError::ZeroResampleRate);
        }
    }
    let squarewave = match args.fmargs.squarewave {
        Some(s) => s,
        None => false,
    };
    Ok(
        Pipeline {
            params: derive_params(samplerate, args.resamplerate, bandwidth, deviation),
            inputtype,
            outputtype,
            squarewave,
        },
    )
}

} // verus!
