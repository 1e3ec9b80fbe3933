use demod_fm::driver::{samples_per_chunk, StreamDriver, StreamState, BUFFER_SIZE};
use demod_fm::params::{configure, derive_params, ConfigError, Ratio, FILTER_ATTENUATION_DB, FILTER_LEN};
use demod_fm::usage::{CommandArgs, DataType, FmModulationArgs, Modulation};

fn full_args() -> CommandArgs {
    CommandArgs {
        samplerate: Some(2_000_000),
        resamplerate: None,
        inputtype: Some(DataType::U8),
        outputtype: Some(DataType::S8),
        bandwidth: Some(200_000),
        modulation: Some(Modulation::FM),
        fmargs: FmModulationArgs { deviation: Some(5_000), squarewave: Some(true) },
    }
}

fn value(r: Ratio) -> f32 {
    r.num as f32 / r.den as f32
}

#[test]
fn derives_parameters_without_resampling() {
    let p = configure(&full_args()).unwrap();
    assert_eq!(p.params.filter_len, FILTER_LEN);
    assert_eq!(p.params.filter_attenuation_db, FILTER_ATTENUATION_DB);
    assert_eq!(p.params.filter_cutoff, Ratio { num: 200_000, den: 2_000_000 });
    assert_eq!(value(p.params.filter_cutoff), 0.1);
    assert_eq!(value(p.params.filter_scale), 0.2);
    assert_eq!(value(p.params.resample_ratio), 1.0);
    assert_eq!(p.params.modulation_factor, Ratio { num: 5_000, den: 2_000_000 });
    assert_eq!(p.inputtype, DataType::U8);
    assert_eq!(p.outputtype, DataType::S8);
    assert!(p.squarewave);
}

#[test]
fn derives_parameters_with_resampling() {
    let p = derive_params(2_000_000, Some(48_000), 200_000, 5_000);
    assert_eq!(value(p.filter_cutoff), 0.1);
    assert_eq!(p.resample_ratio, Ratio { num: 48_000, den: 2_000_000 });
    assert_eq!(value(p.resample_ratio), 0.024);
    assert_eq!(p.modulation_factor, Ratio { num: 5_000, den: 48_000 });
}

#[test]
fn refuses_incomplete_configuration() {
    let mut a = full_args();
    a.modulation = None;
    assert_eq!(configure(&a), Err(ConfigError::MissingModulation));
    let mut a = full_args();
    a.samplerate = None;
    assert_eq!(configure(&a), Err(ConfigError::MissingSampleRate));
    let mut a = full_args();
    a.bandwidth = None;
    assert_eq!(configure(&a), Err(ConfigError::MissingBandwidth));
    let mut a = full_args();
    a.fmargs.deviation = None;
    assert_eq!(configure(&a), Err(ConfigError::MissingDeviation));
    let mut a = full_args();
    a.inputtype = None;
    assert_eq!(configure(&a), Err(ConfigError::MissingInputType));
    let mut a = full_args();
    a.outputtype = None;
    assert_eq!(configure(&a), Err(ConfigError::MissingOutputType));
    let mut a = full_args();
    a.samplerate = Some(0);
    assert_eq!(configure(&a), Err(ConfigError::ZeroSampleRate));
    let mut a = full_args();
    a.bandwidth = Some(0);
    assert_eq!(configure(&a), Err(ConfigError::ZeroBandwidth));
    let mut a = full_args();
    a.resamplerate = Some(0);
    assert_eq!(configure(&a), Err(ConfigError::ZeroResampleRate));
}

#[test]
fn squarewave_defaults_to_off() {
    let mut a = full_args();
    a.fmargs.squarewave = None;
    assert!(!configure(&a).unwrap().squarewave);
}

#[test]
fn chunk_sizes_follow_input_width() {
    assert_eq!(BUFFER_SIZE, 8192);
    assert_eq!(samples_per_chunk(DataType::S8), 4096);
    assert_eq!(samples_per_chunk(DataType::U8), 4096);
    assert_eq!(samples_per_chunk(DataType::I16), 2048);
    assert_eq!(samples_per_chunk(DataType::F32), 1024);
}

#[test]
fn single_short_chunk_stops_the_stream() {
    let mut d = StreamDriver::new();
    assert!(d.is_running());
    d.chunk_done(100);
    assert!(!d.is_running());
    assert_eq!(d.state, StreamState::Stopped);
    assert_eq!(d.chunks, 1);
}

#[test]
fn full_chunks_keep_the_stream_running() {
    let mut d = StreamDriver::new();
    d.chunk_done(8192);
    d.chunk_done(8192);
    assert!(d.is_running());
    d.chunk_done(0);
    assert_eq!(d.state, StreamState::Stopped);
    assert_eq!(d.chunks, 3);
}

#[test]
fn data_type_names() {
    assert_eq!(DataType::F32.name(), "f32");
    assert_eq!(DataType::I16.name(), "i16");
    assert_eq!(DataType::U8.name(), "u8");
    assert_eq!(DataType::S8.name(), "s8");
}

#[test]
fn data_types_by_name() {
    assert_eq!(DataType::from_name("f32"), Some(DataType::F32));
    assert_eq!(DataType::from_name("i16"), Some(DataType::I16));
    assert_eq!(DataType::from_name("u8"), Some(DataType::U8));
    assert_eq!(DataType::from_name("s8"), Some(DataType::S8));
    assert_eq!(DataType::from_name("s16"), None);
    assert_eq!(DataType::from_name("f3"), None);
    assert_eq!(DataType::from_name(""), None);
    assert_eq!(DataType::from_name("u8 "), None);
    for t in [DataType::F32, DataType::I16, DataType::U8, DataType::S8] {
        assert_eq!(DataType::from_name(t.name()), Some(t));
    }
}
