use vstd::prelude::*;
use vstd::arithmetic::power2::*;
use vstd::arithmetic::div_mod::*;
use crate::usage::DataType;

verus! {

/// One decoded component in the normalized domain.
///
/// Integer encodings decode to the exact fraction `num / den`; the float
/// encoding decodes to the IEEE-754 single-precision bit pattern, which is
/// used as it is.
#[derive(Clone, Copy, Debug, PartialEq, Eq, Structural)]
pub enum Level {
    Fraction { num: i32, den: u32 },
    Float { bits: u32 },
}

/// One complex sample: in-phase and quadrature components.
#[derive(Clone, Copy, Debug, PartialEq, Eq, Structural)]
pub struct IqSample {
    pub i: Level,
    pub q: Level,
}

/// A byte read as a two's-complement signed 8-bit value.
pub open spec fn signed_byte(b: u8) -> int {
    if b < 128 { b as int } else { b - 256 }
}

/// Two bytes, low byte first, read as a two's-complement signed 16-bit value.
pub open spec fn le_i16(lo: u8, hi: u8) -> int {
    let u = hi * 256 + lo;
    if u < 32768 { u } else { u - 65536 }
}

/// Four bytes, low byte first, read as an unsigned 32-bit value.
pub open spec fn le_u32(b0: u8, b1: u8, b2: u8, b3: u8) -> int {
    b0 + 256 * b1 + 65536 * b2 + 16777216 * b3
}

/// The component that starts at `off` in `bytes`.
///
/// s8 maps `v` to `2 * (v + 128) / 255 - 1 == (2 * v + 1) / 255`;
/// u8 maps `v` to `2 * v / 255 - 1 == (2 * v - 255) / 255`;
/// i16 maps `v` to `v / 32768`; f32 keeps the bits.
pub open spec fn level_at(enc: DataType, bytes: Seq<u8>, off: int) -> Level {
    match enc {
        DataType::S8 => Level::Fraction { num: (2 * signed_byte(bytes[off]) + 1) as i32, den: 255 },
        DataType::U8 => Level::Fraction { num: (2 * bytes[off] - 255) as i32, den: 255 },
        DataType::I16 => Level::Fraction { num: le_i16(bytes[off], bytes[off + 1]) as i32, den: 32768 },
        DataType::F32 => Level::Float {
            bits: le_u32(bytes[off], bytes[off + 1], bytes[off + 2], bytes[off + 3]) as u32,
        },
    }
}

/// The complex samples held in `bytes`: one for each whole group of
/// `2 * width` bytes; a shorter tail is dropped.
pub open spec fn decoded(bytes: Seq<u8>, enc: DataType) -> Seq<IqSample> {
    let w = enc.component_width_spec() as int;
    Seq::new(
        (bytes.len() as int / (2 * w)) as nat,
        |j: int| IqSample { i: level_at(enc, bytes, 2 * w * j), q: level_at(enc, bytes, 2 * w * j + w) },
    )
}

fn decode_level(enc: DataType, bytes: &Vec<u8>, off: usize) -> (r: Level)
    requires
        off + enc.component_width_spec() <= bytes@.len(),
    ensures
        r == level_at(enc, bytes@, off as int),
{
    // Reading the length bounds the view by `usize::MAX`, so the offsets
    // below do not overflow.
    let _len = bytes.len();
    match enc {
        DataType::S8 => {
            let b = bytes[off];
            let v: i32 = if b < 128 { b as i32 } else { b as i32 - 256 };
            Level::Fraction { num: 2 * v + 1, den: 255 }
        },
        DataType::U8 => Level::Fraction { num: 2 * (bytes[off] as i32) - 255, den: 255 },
        DataType::I16 => {
            let u: i32 = bytes[off + 1] as i32 * 256 + bytes[off] as i32;
            let v: i32 = if u < 32768 { u } else { u - 65536 };
            Level::Fraction { num: v, den: 32768 }
        },
        DataType::F32 => {
            let b0 = bytes[off] as u32;
            let b1 = bytes[off + 1] as u32;
            let b2 = bytes[off + 2] as u32;
            let b3 = bytes[off + 3] as u32;
            let bits: u32 = b0 + 256 * b1 + 65536 * b2 + 16777216 * b3;
            Level::Float { bits }
        },
    }
}

/// Decodes every whole complex sample of `bytes` in encoding `enc`.
pub fn decode(bytes: &Vec<u8>, enc: DataType) -> (r: Vec<IqSample>)
    ensures
        r@ == decoded(bytes@, enc),
        r@.len() == bytes@.len() / (2 * enc.component_width_spec()),
{
    let w = enc.component_width();
    let group = enc.iq_width();
    let len = bytes.len();
    let mut out: Vec<IqSample> = Vec::new();
    let mut off: usize = 0;
    while off <= len && group <= len - off
        invariant
            w == enc.component_width_spec(),
            group == 2 * w,
            len == bytes@.len(),
            off == group * out@.len(),
            off <= len,
            forall|j: int|
                0 <= j < out@.len() ==> #[trigger] out@[j] == decoded(bytes@, enc)[j],
            out@.len() <= len as int / (group as int),
        decreases len - off,
    {
        proof {
            let n = out@.len() as int;
            let g = group as int;
            let l = len as int;
            assert((n + 1) * g <= l) by (nonlinear_arith)
                requires
                    off == g * n,
                    off + g <= l,
            ;
            assert(n + 1 <= l / g) by (nonlinear_arith)
                requires
                    (n + 1) * g <= l,
                    g > 0,
            ;
        }
        let i = decode_level(enc, bytes, off);
        let q = decode_level(enc, bytes, off + w);
        proof {
            let n = out@.len() as int;
            assert(off + group == group * (n + 1)) by (nonlinear_arith)
                requires
                    off == group * n,
            ;
        }
        out.push(IqSample { i, q });
        off = off + group;
    }
    proof {
        let n = out@.len() as int;
        let g = group as int;
        let l = len as int;
        assert(n == l / g) by (nonlinear_arith)
            requires
                off == g * n,
                l < off + g,
                g > 0,
                n <= l / g,
        ;
    }
    assert(out@ =~= decoded(bytes@, enc));
    out
}

/// Bit pattern of the single-precision value `1.0`.
pub const ONE_BITS: u32 = 0x3f80_0000;

/// Bit pattern of the single-precision value `-1.0`.
pub const MINUS_ONE_BITS: u32 = 0xbf80_0000;

/// The bits of a single-precision value without its sign bit; for values
/// that are not NaN these order as the magnitudes do.
pub open spec fn magnitude(b: u32) -> int {
    (b % 0x8000_0000) as int
}

pub open spec fn is_negative(b: u32) -> bool {
    b >= 0x8000_0000
}

pub open spec fn is_nan(b: u32) -> bool {
    magnitude(b) > 0x7f80_0000
}

pub open spec fn biased_exponent(b: u32) -> int {
    magnitude(b) / 0x80_0000
}

/// The significand with its implicit leading bit, for finite values.
pub open spec fn mantissa(b: u32) -> int {
    let f = magnitude(b) % 0x80_0000;
    if biased_exponent(b) == 0 { f } else { f + 0x80_0000 }
}

/// For a finite value of magnitude at most one, `k` such that the value is
/// `signed_mantissa(b) / 2^k`.
pub open spec fn scale(b: u32) -> nat {
    let e = biased_exponent(b);
    if e == 0 { 149 } else if e <= 150 { (150 - e) as nat } else { 0 }
}

pub open spec fn signed_mantissa(b: u32) -> int {
    if is_negative(b) { -mantissa(b) } else { mantissa(b) }
}

/// Shaping applied to each output sample before it is narrowed.
///
/// With `square`, positive values become `1.0` and negative ones `-1.0`;
/// otherwise values are clamped to `[-1.0, 1.0]`. Zeros and NaN pass.
pub open spec fn shaped(b: u32, square: bool) -> u32 {
    if is_nan(b) {
        b
    } else if square {
        if magnitude(b) == 0 { b } else if is_negative(b) { MINUS_ONE_BITS } else { ONE_BITS }
    } else if magnitude(b) > ONE_BITS as int {
        if is_negative(b) { MINUS_ONE_BITS } else { ONE_BITS }
    } else {
        b
    }
}

/// The integer nearest to `n / d` (for `d > 0`), halves away from zero.
pub open spec fn round_div(n: int, d: int) -> int {
    if n >= 0 { (2 * n + d) / (2 * d) } else { -((d - 2 * n) / (2 * d)) }
}

/// `x` limited to `[lo, hi]`, as a float-to-integer cast saturates.
pub open spec fn saturate(x: int, lo: int, hi: int) -> int {
    if x < lo { lo } else if x > hi { hi } else { x }
}

/// The integer that a shaped value `b` narrows to in an integer encoding,
/// with `v` its value (a NaN narrows as zero):
/// i16 `round(32767 v)`, s8 `round(255 (v + 1) / 2 - 128)`,
/// u8 `round(255 (v + 1) / 2)`; all three round halves away from zero.
pub open spec fn quantized(enc: DataType, b: u32) -> int {
    let x: u32 = if is_nan(b) { 0 } else { b };
    let m = signed_mantissa(x);
    let d = pow2(scale(x)) as int;
    match enc {
        DataType::I16 => saturate(round_div(32767 * m, d), -32768, 32767),
        DataType::S8 => saturate(round_div(255 * m - d, 2 * d), -128, 127),
        DataType::U8 => saturate(round_div(255 * m + 255 * d, 2 * d), 0, 255),
        DataType::F32 => 0,
    }
}

/// The byte of a signed 8-bit value in two's complement.
pub open spec fn i8_byte(x: int) -> u8 {
    (if x < 0 { x + 256 } else { x }) as u8
}

/// The two bytes of a signed 16-bit value, low byte first.
pub open spec fn le16_bytes(x: int) -> Seq<u8> {
    let u = if x < 0 { x + 65536 } else { x };
    seq![(u % 256) as u8, (u / 256) as u8]
}

/// The four bytes of a 32-bit pattern, low byte first.
pub open spec fn le32_bytes(b: u32) -> Seq<u8> {
    seq![(b % 256) as u8, ((b / 256) % 256) as u8, ((b / 65536) % 256) as u8, (b / 16777216) as u8]
}

/// The bytes that one demodulated sample (a single-precision bit pattern)
/// becomes in encoding `enc`.
pub open spec fn sample_bytes(b: u32, enc: DataType, square: bool) -> Seq<u8> {
    let x = shaped(b, square);
    match enc {
        DataType::F32 => le32_bytes(x),
        DataType::S8 => seq![i8_byte(quantized(enc, x))],
        DataType::U8 => seq![quantized(enc, x) as u8],
        DataType::I16 => le16_bytes(quantized(enc, x)),
    }
}

/// The bytes of a whole buffer of demodulated samples, in order.
pub open spec fn encoded(samples: Seq<u32>, enc: DataType, square: bool) -> Seq<u8>
    decreases samples.len(),
{
    if samples.len() == 0 {
        seq![]
    } else {
        encoded(samples.drop_last(), enc, square) + sample_bytes(samples.last(), enc, square)
    }
}

fn shape(b: u32, square: bool) -> (r: u32)
    ensures
        r == shaped(b, square),
{
    let mag = b % 0x8000_0000;
    let neg = b >= 0x8000_0000;
    if mag > 0x7f80_0000 {
        b
    } else if square {
        if mag == 0 {
            b
        } else if neg {
            MINUS_ONE_BITS
        } else {
            ONE_BITS
        }
    } else if mag > ONE_BITS {
        if neg {
            MINUS_ONE_BITS
        } else {
            ONE_BITS
        }
    } else {
        b
    }
}

proof fn lemma_pow2_100()
    ensures
        pow2(100) == 0x10_0000_0000_0000_0000_0000_0000int,
{
    lemma2_to64();
    lemma2_to64_rest();
    lemma_pow2_adds(64, 36);
}

fn pow2_exec(k: u32) -> (d: i128)
    requires
        k <= 100,
    ensures
        d == pow2(k as nat),
        0 < d <= 0x10_0000_0000_0000_0000_0000_0000int,
{
    proof {
        lemma_pow2_100();
        lemma2_to64();
    }
    let mut d: i128 = 1;
    let mut i: u32 = 0;
    while i < k
        invariant
            i <= k <= 100,
            d == pow2(i as nat),
            pow2(100) == 0x10_0000_0000_0000_0000_0000_0000int,
        decreases k - i,
    {
        proof {
            lemma_pow2_unfold((i + 1) as nat);
            if i + 1 < 100 {
                lemma_pow2_strictly_increases((i + 1) as nat, 100);
            }
        }
        d = d * 2;
        i = i + 1;
    }
    proof {
        lemma_pow2_pos(k as nat);
        if k < 100 {
            lemma_pow2_strictly_increases(k as nat, 100);
        }
    }
    d
}

fn round_div_exec(n: i128, d: i128) -> (r: i128)
    requires
        0 < d < 0x1_0000_0000_0000_0000_0000_0000_0000int,
        -0x1_0000_0000_0000_0000_0000_0000_0000int < n < 0x1_0000_0000_0000_0000_0000_0000_0000int,
    ensures
        r == round_div(n as int, d as int),
{
    if n >= 0 {
        (2 * n + d) / (2 * d)
    } else {
        -((d - 2 * n) / (2 * d))
    }
}

fn saturate_exec(x: i128, lo: i32, hi: i32) -> (r: i32)
    requires
        lo <= hi,
    ensures
        r == saturate(x as int, lo as int, hi as int),
{
    if x < lo as i128 {
        lo
    } else if x > hi as i128 {
        hi
    } else {
        x as i32
    }
}

/// Rounding of values below `2^-40` in magnitude, for which only the sign
/// of the value matters.
proof fn lemma_tiny_rounding(m: int, d: int)
    requires
        -0x100_0000 < m < 0x100_0000,
        d > 0x1_0000_0000_0000_0000,
    ensures
        round_div(32767 * m, d) == 0,
        round_div(255 * m - d, 2 * d) == (if m > 0 { 0int } else { -1int }),
        round_div(255 * m + 255 * d, 2 * d) == (if m < 0 { 127int } else { 128int }),
{
    if m >= 0 {
        lemma_fundamental_div_mod_converse(2 * (32767 * m) + d, 2 * d, 0, 2 * (32767 * m) + d);
    } else {
        lemma_fundamental_div_mod_converse(d - 2 * (32767 * m), 2 * d, 0, d - 2 * (32767 * m));
    }
    let x = 2 * d - 2 * (255 * m - d);
    if m > 0 {
        lemma_fundamental_div_mod_converse(x, 4 * d, 0, x);
    } else {
        lemma_fundamental_div_mod_converse(x, 4 * d, 1, x - 4 * d);
    }
    let y = 2 * (255 * m + 255 * d) + 2 * d;
    if m < 0 {
        lemma_fundamental_div_mod_converse(y, 4 * d, 127, y - 127 * (4 * d));
    } else {
        lemma_fundamental_div_mod_converse(y, 4 * d, 128, y - 128 * (4 * d));
    }
}

/// Narrows one shaped sample to the integer that an integer encoding holds.
fn quantize(enc: DataType, b: u32) -> (r: i32)
    requires
        enc != DataType::F32,
    ensures
        r == quantized(enc, b),
        enc == DataType::S8 ==> -128 <= r <= 127,
        enc == DataType::U8 ==> 0 <= r <= 255,
        enc == DataType::I16 ==> -32768 <= r <= 32767,
{
    let x: u32 = if b % 0x8000_0000 > 0x7f80_0000 { 0 } else { b };
    let mag = x % 0x8000_0000;
    let e = mag / 0x80_0000;
    let f = mag % 0x80_0000;
    let m: i128 = if e == 0 { f as i128 } else { f as i128 + 0x80_0000 };
    let sm: i128 = if x >= 0x8000_0000 { -m } else { m };
    let k: u32 = if e == 0 { 149 } else if e <= 150 { 150 - e } else { 0 };
    assert(k == scale(x));
    assert(sm == signed_mantissa(x));
    if k <= 100 {
        let d = pow2_exec(k);
        match enc {
            DataType::I16 => saturate_exec(round_div_exec(32767 * sm, d), -32768, 32767),
            DataType::S8 => saturate_exec(round_div_exec(255 * sm - d, 2 * d), -128, 127),
            _ => saturate_exec(round_div_exec(255 * sm + 255 * d, 2 * d), 0, 255),
        }
    } else {
        proof {
            lemma2_to64();
            lemma_pow2_strictly_increases(64, k as nat);
            lemma_tiny_rounding(sm as int, pow2(k as nat) as int);
        }
        match enc {
            DataType::I16 => 0,
            DataType::S8 => if sm > 0 {
                0
            } else {
                -1
            },
            _ => if sm < 0 {
                127
            } else {
                128
            },
        }
    }
}

proof fn lemma_encoded_len(samples: Seq<u32>, enc: DataType, square: bool)
    ensures
        encoded(samples, enc, square).len() == samples.len() * enc.component_width_spec(),
    decreases samples.len(),
{
    if samples.len() > 0 {
        lemma_encoded_len(samples.drop_last(), enc, square);
        assert(samples.len() * enc.component_width_spec() == (samples.len() - 1)
            * enc.component_width_spec() + enc.component_width_spec()) by (nonlinear_arith);
    }
}

fn push_sample(out: &mut Vec<u8>, b: u32, enc: DataType, squarewave: bool)
    ensures
        final(out)@ == old(out)@ + sample_bytes(b, enc, squarewave),
{
    let x = shape(b, squarewave);
    match enc {
        DataType::F32 => {
            out.push((x % 256) as u8);
            out.push(((x / 256) % 256) as u8);
            out.push(((x / 65536) % 256) as u8);
            out.push((x / 16777216) as u8);
        },
        DataType::S8 => {
            let q = quantize(enc, x);
            let byte: u8 = if q < 0 { (q + 256) as u8 } else { q as u8 };
            out.push(byte);
        },
        DataType::U8 => {
            let q = quantize(enc, x);
            out.push(q as u8);
        },
        DataType::I16 => {
            let q = quantize(enc, x);
            let u: i32 = if q < 0 { q + 65536 } else { q };
            out.push((u % 256) as u8);
            out.push((u / 256) as u8);
        },
    }
    assert(out@ =~= old(out)@ + sample_bytes(b, enc, squarewave));
}

/// Encodes demodulated samples, given as single-precision bit patterns, in
/// encoding `enc`; `squarewave` selects square shaping over clamping.
pub fn encode(samples: &Vec<u32>, enc: DataType, squarewave: bool) -> (r: Vec<u8>)
    ensures
        r@ == encoded(samples@, enc, squarewave),
        r@.len() == samples@.len() * enc.component_width_spec(),
{
    let mut out: Vec<u8> = Vec::new();
    let mut i: usize = 0;
    while i < samples.len()
        invariant
            i <= samples@.len(),
            out@ == encoded(samples@.take(i as int), enc, squarewave),
        decreases samples@.len() - i,
    {
        push_sample(&mut out, samples[i], enc, squarewave);
        proof {
            let next = samples@.take(i + 1);
            assert(next.drop_last() =~= samples@.take(i as int));
            assert(next.last() == samples@[i as int]);
            assert(out@ =~= encoded(samples@.take(i as int), enc, squarewave) + sample_bytes(
                samples@[i as int],
                enc,
                squarewave,
            ));
        }
        i = i + 1;
    }
    assert(samples@.take(i as int) =~= samples@);
    proof {
        lemma_encoded_len(samples@, enc, squarewave);
    }
    out
}

/// Decoding `n` whole samples' worth of bytes yields exactly `n` samples,
/// and a trailing partial sample adds nothing.
pub proof fn lemma_decode_truncation(bytes: Seq<u8>, tail: Seq<u8>, enc: DataType, n: nat)
    requires
        bytes.len() == n * (2 * enc.component_width_spec()),
        tail.len() < 2 * enc.component_width_spec(),
    ensures
        decoded(bytes, enc).len() == n,
        decoded(bytes + tail, enc) == decoded(bytes, enc),
{
    let g = 2 * enc.component_width_spec() as int;
    let all = bytes + tail;
    assert(bytes.len() as int / g == n) by (nonlinear_arith)
        requires
            bytes.len() == n * g,
            g > 0,
    ;
    assert(all.len() as int / g == n) by (nonlinear_arith)
        requires
            all.len() == n * g + tail.len(),
            0 <= tail.len() < g,
    ;
    let w = enc.component_width_spec() as int;
    assert forall|j: int| 0 <= j < n implies #[trigger] decoded(all, enc)[j] == decoded(bytes, enc)[j] by {
        assert(g * j + g <= bytes.len()) by (nonlinear_arith)
            requires
                bytes.len() == n * g,
                0 <= j < n,
                g > 0,
        ;
        assert(forall|k: int| 0 <= k < bytes.len() ==> all[k] == bytes[k]);
    }
    assert(decoded(all, enc) =~= decoded(bytes, enc));
}

/// The integer encodings' largest values, that `1.0` narrows to.
pub open spec fn max_level(enc: DataType) -> int {
    match enc {
        DataType::I16 => 32767,
        DataType::S8 => 127,
        DataType::U8 => 255,
        DataType::F32 => 0,
    }
}

/// The integer encodings' smallest values, that `-1.0` narrows to.
pub open spec fn min_level(enc: DataType) -> int {
    match enc {
        DataType::I16 => -32767,
        DataType::S8 => -128,
        DataType::U8 => 0,
        DataType::F32 => 0,
    }
}

/// What zero narrows to: the middle of each integer encoding's range.
pub open spec fn zero_level(enc: DataType) -> int {
    match enc {
        DataType::I16 => 0,
        DataType::S8 => -1,
        DataType::U8 => 128,
        DataType::F32 => 0,
    }
}

proof fn lemma_levels_of_units(enc: DataType)
    requires
        enc != DataType::F32,
    ensures
        quantized(enc, ONE_BITS) == max_level(enc),
        quantized(enc, MINUS_ONE_BITS) == min_level(enc),
        quantized(enc, 0) == zero_level(enc),
        quantized(enc, 0x8000_0000) == zero_level(enc),
{
    lemma2_to64();
    assert(scale(ONE_BITS) == 23);
    assert(scale(MINUS_ONE_BITS) == 23);
    assert(signed_mantissa(ONE_BITS) == 0x80_0000);
    assert(signed_mantissa(MINUS_ONE_BITS) == -0x80_0000);
    let d: int = 0x80_0000;
    lemma_fundamental_div_mod_converse(65535 * d, 2 * d, 32767, d);
    lemma_fundamental_div_mod_converse(510 * d, 4 * d, 127, 2 * d);
    lemma_fundamental_div_mod_converse(1022 * d, 4 * d, 255, 2 * d);
    lemma_fundamental_div_mod_converse(2 * d, 4 * d, 0, 2 * d);
    lemma_pow2_strictly_increases(64, 149);
    lemma_tiny_rounding(0, pow2(149) as int);
    assert(scale(0) == 149);
    assert(signed_mantissa(0) == 0);
    assert(scale(0x8000_0000) == 149);
    assert(signed_mantissa(0x8000_0000) == 0);
}

/// Clamping: without square shaping, every value of at least `1.0` narrows
/// to the encoding's largest value and every value of at most `-1.0` to its
/// smallest; the float encoding writes exactly `1.0` or `-1.0`.
pub proof fn lemma_clamping(b: u32, enc: DataType)
    requires
        !is_nan(b),
        magnitude(b) >= ONE_BITS as int,
    ensures
        !is_negative(b) ==> shaped(b, false) == ONE_BITS,
        is_negative(b) ==> shaped(b, false) == MINUS_ONE_BITS,
        enc != DataType::F32 && !is_negative(b) ==> quantized(enc, shaped(b, false)) == max_level(enc),
        enc != DataType::F32 && is_negative(b) ==> quantized(enc, shaped(b, false)) == min_level(enc),
{
    if enc != DataType::F32 {
        lemma_levels_of_units(enc);
    }
}

/// Square shaping: every sample narrows to the encoding's largest, smallest
/// or zero value; in the float encoding it becomes `1.0`, `-1.0` or a zero,
/// or stays NaN.
pub proof fn lemma_square_wave(b: u32, enc: DataType)
    ensures
        enc != DataType::F32 ==> {
            let q = quantized(enc, shaped(b, true));
            q == max_level(enc) || q == min_level(enc) || q == zero_level(enc)
        },
        enc == DataType::F32 ==> {
            let x = shaped(b, true);
            x == ONE_BITS || x == MINUS_ONE_BITS || x == 0 || x == 0x8000_0000u32 || is_nan(x)
        },
{
    if enc != DataType::F32 {
        lemma_levels_of_units(enc);
        let x = shaped(b, true);
        if is_nan(x) {
            assert(quantized(enc, x) == quantized(enc, 0));
        }
    }
}

proof fn lemma_round_div_error(n: int, d: int)
    requires
        d > 0,
    ensures
        -d <= 2 * (round_div(n, d) * d - n) <= d,
{
    let dd = 2 * d;
    let x = if n >= 0 { 2 * n + d } else { d - 2 * n };
    let q = x / dd;
    let r = x % dd;
    lemma_fundamental_div_mod(x, dd);
    lemma_mod_pos_bound(x, dd);
    assert(dd * q == 2 * (q * d)) by (nonlinear_arith)
        requires
            dd == 2 * d,
    ;
    if n < 0 {
        assert(round_div(n, d) * d == -(q * d)) by (nonlinear_arith)
            requires
                round_div(n, d) == -q,
        ;
    }
}

proof fn lemma_mantissa_bound(x: u32)
    requires
        !is_nan(x),
        magnitude(x) <= ONE_BITS as int,
    ensures
        -(pow2(scale(x)) as int) <= signed_mantissa(x) <= pow2(scale(x)),
{
    lemma2_to64();
    let e = biased_exponent(x);
    if e == 0 {
        lemma_pow2_strictly_increases(64, 149);
    } else if e < 126 {
        lemma_pow2_strictly_increases(24, scale(x));
    }
}

/// Closeness of a decoded level to the value of the sample `b`,
/// `m / d` with `m` its signed mantissa and `d` two to its scale:
/// within `1/255` for the 8-bit encodings, within `1/(2 * 32767) + 1/32768`
/// for i16 (rounding to 32767 steps, reading back in 32768 steps), and the
/// very bits for f32.
pub open spec fn approximates(l: Level, b: u32, enc: DataType) -> bool {
    let m = signed_mantissa(b);
    let d = pow2(scale(b)) as int;
    match l {
        Level::Fraction { num, den } => match enc {
            DataType::I16 => den == 32768 && -98302 * d <= 65534 * (num * d - 32768 * m) <= 98302 * d,
            DataType::F32 => false,
            _ => den == 255 && -d <= num * d - 255 * m <= d,
        },
        Level::Float { bits } => enc == DataType::F32 && bits == b,
    }
}

proof fn lemma_round_trip_i16(b: u32)
    requires
        !is_nan(b),
        magnitude(b) <= ONE_BITS as int,
    ensures
        sample_bytes(b, DataType::I16, false).len() == 2,
        approximates(level_at(DataType::I16, sample_bytes(b, DataType::I16, false), 0), b, DataType::I16),
{
    let m = signed_mantissa(b);
    let d = pow2(scale(b)) as int;
    lemma_pow2_pos(scale(b));
    lemma_mantissa_bound(b);
    let bytes = sample_bytes(b, DataType::I16, false);
    let n = 32767 * m;
    let q = round_div(n, d);
    lemma_round_div_error(n, d);
    assert(-32767 <= q <= 32767) by (nonlinear_arith)
        requires
            -d <= 2 * (q * d - n) <= d,
            n == 32767 * m,
            -d <= m <= d,
            d > 0,
    ;
    assert(quantized(DataType::I16, b) == q);
    assert(le_i16(bytes[0], bytes[1]) == q);
    assert(-32767 * d <= q * d <= 32767 * d) by (nonlinear_arith)
        requires
            -32767 <= q <= 32767,
            d > 0,
    ;
}

proof fn lemma_round_trip_s8(b: u32)
    requires
        !is_nan(b),
        magnitude(b) <= ONE_BITS as int,
    ensures
        sample_bytes(b, DataType::S8, false).len() == 1,
        approximates(level_at(DataType::S8, sample_bytes(b, DataType::S8, false), 0), b, DataType::S8),
{
    let m = signed_mantissa(b);
    let d = pow2(scale(b)) as int;
    lemma_pow2_pos(scale(b));
    lemma_mantissa_bound(b);
    let bytes = sample_bytes(b, DataType::S8, false);
    let n = 255 * m - d;
    let q = round_div(n, 2 * d);
    lemma_round_div_error(n, 2 * d);
    assert(-128 <= q <= 127) by (nonlinear_arith)
        requires
            -2 * d <= 2 * (q * (2 * d) - n) <= 2 * d,
            n == 255 * m - d,
            -d <= m <= d,
            d > 0,
    ;
    assert(quantized(DataType::S8, b) == q);
    assert(signed_byte(bytes[0]) == q);
    assert((2 * q + 1) * d == 2 * (q * (2 * d)) / 2 + d) by (nonlinear_arith);
}

proof fn lemma_round_trip_u8(b: u32)
    requires
        !is_nan(b),
        magnitude(b) <= ONE_BITS as int,
    ensures
        sample_bytes(b, DataType::U8, false).len() == 1,
        approximates(level_at(DataType::U8, sample_bytes(b, DataType::U8, false), 0), b, DataType::U8),
{
    let m = signed_mantissa(b);
    let d = pow2(scale(b)) as int;
    lemma_pow2_pos(scale(b));
    lemma_mantissa_bound(b);
    let bytes = sample_bytes(b, DataType::U8, false);
    let n = 255 * m + 255 * d;
    let q = round_div(n, 2 * d);
    lemma_round_div_error(n, 2 * d);
    assert(0 <= q <= 255) by (nonlinear_arith)
        requires
            -2 * d <= 2 * (q * (2 * d) - n) <= 2 * d,
            n == 255 * m + 255 * d,
            -d <= m <= d,
            d > 0,
    ;
    assert(quantized(DataType::U8, b) == q);
    assert(bytes[0] == q);
    assert((2 * q - 255) * d == 2 * (q * (2 * d)) / 2 - 255 * d) by (nonlinear_arith);
}

proof fn lemma_level_round_trip(b: u32, enc: DataType)
    requires
        !is_nan(b),
        magnitude(b) <= ONE_BITS as int,
    ensures
        sample_bytes(b, enc, false).len() == enc.component_width_spec(),
        approximates(level_at(enc, sample_bytes(b, enc, false), 0), b, enc),
{
    match enc {
        DataType::I16 => lemma_round_trip_i16(b),
        DataType::S8 => lemma_round_trip_s8(b),
        DataType::U8 => lemma_round_trip_u8(b),
        DataType::F32 => {
            assert(shaped(b, false) == b);
            let bytes = sample_bytes(b, enc, false);
            assert(le_u32(bytes[0], bytes[1], bytes[2], bytes[3]) == b);
        },
    }
}

/// Round trip: two samples in `[-1, 1]`, encoded in any encoding and read
/// back by the decoder of the same encoding, give one complex sample whose
/// components are within that encoding's quantization error of the values.
pub proof fn lemma_round_trip(bi: u32, bq: u32, enc: DataType)
    requires
        !is_nan(bi),
        !is_nan(bq),
        magnitude(bi) <= ONE_BITS as int,
        magnitude(bq) <= ONE_BITS as int,
    ensures
        decoded(encoded(seq![bi, bq], enc, false), enc).len() == 1,
        approximates(decoded(encoded(seq![bi, bq], enc, false), enc)[0].i, bi, enc),
        approximates(decoded(encoded(seq![bi, bq], enc, false), enc)[0].q, bq, enc),
{
    let w = enc.component_width_spec() as int;
    let s = seq![bi, bq];
    let bi_bytes = sample_bytes(bi, enc, false);
    let bq_bytes = sample_bytes(bq, enc, false);
    lemma_level_round_trip(bi, enc);
    lemma_level_round_trip(bq, enc);
    let one = seq![bi];
    assert(one.drop_last() =~= Seq::<u32>::empty());
    assert(one.last() == bi);
    assert(encoded(Seq::<u32>::empty(), enc, false) == Seq::<u8>::empty());
    assert(encoded(one, enc, false) =~= Seq::<u8>::empty() + bi_bytes);
    assert(s.drop_last() =~= one);
    assert(s.last() == bq);
    let all = encoded(s, enc, false);
    assert(all =~= bi_bytes + bq_bytes);
    lemma_levels_of_pair(enc, bi_bytes, bq_bytes);
    lemma_div_by_self(2 * w);
    assert(all.len() as int / (2 * w) == 1);
    assert(decoded(all, enc)[0].i == level_at(enc, all, 0));
    assert(decoded(all, enc)[0].q == level_at(enc, all, w));
}

proof fn lemma_levels_of_pair(enc: DataType, a: Seq<u8>, b: Seq<u8>)
    requires
        a.len() == enc.component_width_spec(),
        b.len() == enc.component_width_spec(),
    ensures
        level_at(enc, a + b, 0) == level_at(enc, a, 0),
        level_at(enc, a + b, a.len() as int) == level_at(enc, b, 0),
{
    let ab = a + b;
    let w = a.len() as int;
    assert(forall|k: int| 0 <= k < w ==> ab[k] == a[k]);
    assert(forall|k: int| 0 <= k < w ==> ab[w + k] == b[k]);
}

} // verus!
