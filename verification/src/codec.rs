//! The codec plugin contract: data types, array representations, codec
//! errors, and the built-in codecs. The `bitround` array-to-array codec
//! rounds the mantissa of floating-point elements to a configured number of
//! bits, operating on the raw words so that the transform is exact integer
//! arithmetic.

use vstd::prelude::*;

use vstd::arithmetic::power2::pow2;

verus! {

/// The element data types an array can hold.
#[derive(Clone, Copy, Debug, PartialEq, Eq, Structural)]
pub enum DataType {
    /// A boolean stored as one byte.
    Bool,
    /// A signed 8-bit integer.
    Int8,
    /// A signed 16-bit integer.
    Int16,
    /// A signed 32-bit integer.
    Int32,
    /// A signed 64-bit integer.
    Int64,
    /// An unsigned 8-bit integer.
    UInt8,
    /// An unsigned 16-bit integer.
    UInt16,
    /// An unsigned 32-bit integer.
    UInt32,
    /// An unsigned 64-bit integer.
    UInt64,
    /// A 16-bit IEEE float: 10 mantissa bits.
    Float16,
    /// A 16-bit brain float: 7 mantissa bits.
    BFloat16,
    /// A 32-bit IEEE float: 23 mantissa bits.
    Float32,
    /// A 64-bit IEEE float: 52 mantissa bits.
    Float64,
    /// A 64-bit complex number: two 32-bit IEEE floats.
    Complex64,
    /// A 128-bit complex number: two 64-bit IEEE floats.
    Complex128,
}

impl DataType {
    /// The size of one element in bytes.
    pub open spec fn spec_size(self) -> nat {
        match self {
            DataType::Bool => 1,
            DataType::Int8 => 1,
            DataType::Int16 => 2,
            DataType::Int32 => 4,
            DataType::Int64 => 8,
            DataType::UInt8 => 1,
            DataType::UInt16 => 2,
            DataType::UInt32 => 4,
            DataType::UInt64 => 8,
            DataType::Float16 => 2,
            DataType::BFloat16 => 2,
            DataType::Float32 => 4,
            DataType::Float64 => 8,
            DataType::Complex64 => 8,
            DataType::Complex128 => 16,
        }
    }

    /// The size of one element in bytes.
    pub fn size(&self) -> (r: usize)
        ensures
            r == self.spec_size(),
    {
        match self {
            DataType::Bool => 1,
            DataType::Int8 => 1,
            DataType::Int16 => 2,
            DataType::Int32 => 4,
            DataType::Int64 => 8,
            DataType::UInt8 => 1,
            DataType::UInt16 => 2,
            DataType::UInt32 => 4,
            DataType::UInt64 => 8,
            DataType::Float16 => 2,
            DataType::BFloat16 => 2,
            DataType::Float32 => 4,
            DataType::Float64 => 8,
            DataType::Complex64 => 8,
            DataType::Complex128 => 16,
        }
    }
}

/// A codec failure.
#[derive(Clone, Debug)]
pub enum CodecError {
    /// The codec does not support the data type, with the codec's
    /// identifier.
    UnsupportedDataType(DataType, Vec<u8>),
    /// An input buffer had the wrong length: `(got, expected)`.
    InvalidBytesLength(usize, usize),
    /// A subset fell outside the shape it addresses.
    SubsetOutOfBounds,
    /// Any other failure, with a message.
    Other(Vec<u8>),
}

/// The decoded representation of a chunk: its shape, data type and fill
/// value (one element's byte pattern).
#[derive(Clone, Debug)]
pub struct ArrayRepresentation {
    /// The chunk's shape in elements.
    pub shape: Vec<u64>,
    /// The element data type.
    pub data_type: DataType,
    /// The byte pattern of one fill-value element.
    pub fill_value: Vec<u8>,
}

/// The `bitround` codec configuration (one version exists).
#[derive(Clone, Copy, Debug)]
pub enum BitroundCodecConfiguration {
    /// The first configuration version.
    V1(BitroundCodecConfigurationV1),
}

/// The fields of the first `bitround` configuration version.
#[derive(Clone, Copy, Debug)]
pub struct BitroundCodecConfigurationV1 {
    /// The number of mantissa bits to keep.
    pub keepbits: u32,
}

/// Metadata describing a codec, as the engine would emit it.
#[derive(Clone, Copy, Debug)]
pub struct BitroundCodecMetadata {
    /// The number of mantissa bits kept.
    pub keepbits: u32,
}

/// The identifier of the `bitround` codec, named in its errors.
pub open spec fn bitround_identifier_bytes() -> Seq<u8> {
    seq![98u8, 105u8, 116u8, 114u8, 111u8, 117u8, 110u8, 100u8]
}

/// The identifier of the `bitround` codec as a byte string.
pub fn bitround_identifier() -> (r: Vec<u8>)
    ensures
        r@ == bitround_identifier_bytes(),
{
    let mut out: Vec<u8> = Vec::new();
    out.push(98);
    out.push(105);
    out.push(116);
    out.push(114);
    out.push(111);
    out.push(117);
    out.push(110);
    out.push(100);
    proof {
        assert(out@ =~= bitround_identifier_bytes());
    }
    out
}

/// The number of mantissa bits of a floating-point data type, or `None` for
/// non-float types, which `bitround` does not support.
pub open spec fn spec_mantissa_bits(dt: DataType) -> Option<u32> {
    match dt {
        DataType::Float16 => Some(10u32),
        DataType::BFloat16 => Some(7u32),
        DataType::Float32 => Some(23u32),
        DataType::Float64 => Some(52u32),
        _ => None,
    }
}

/// A word rounded to `keep` mantissa bits, half to even: the word is split
/// below bit `mantissa - keep`; the kept part is incremented when the
/// dropped part is over half, or exactly half with an odd kept part. The
/// result wraps modulo the word width, as the carry of an all-ones word
/// leaves the word.
pub open spec fn spec_round_word(w: int, mantissa: nat, keep: nat, width: nat) -> int {
    if keep >= mantissa {
        w
    } else {
        let p = pow2((mantissa - keep) as nat) as int;
        let base = w / p;
        let low = w % p;
        let half = p / 2;
        let up: int = if low > half || (low == half && base % 2 == 1) {
            1
        } else {
            0
        };
        ((base + up) * p) % (pow2(width) as int)
    }
}

/// Round a word of `width` bits (held in the low bits of a `u64`) to `keep`
/// mantissa bits, half to even.
pub fn round_word(w: u64, mantissa: u32, keep: u32, width: u32) -> (r: u64)
    requires
        0 < mantissa < width <= 64,
        w < pow2(width as nat),
    ensures
        r == spec_round_word(w as int, mantissa as nat, keep as nat, width as nat),
        r < pow2(width as nat),
{
    proof {
        vstd::arithmetic::power2::lemma_pow2_pos(width as nat);
    }
    if keep >= mantissa {
        return w;
    }
    let shift = mantissa - keep;
    proof {
        vstd::bits::lemma_u64_pow2_no_overflow(shift as nat);
        vstd::bits::lemma_u64_shl_is_mul(1u64, shift as u64);
        vstd::arithmetic::power2::lemma_pow2_strictly_increases(0, shift as nat);
        vstd::arithmetic::power2::lemma2_to64();
        vstd::arithmetic::power2::lemma2_to64_rest();
    }
    let p = 1u64 << shift;
    let base = w / p;
    let low = w % p;
    let half = p / 2;
    let up: u64 = if low > half || (low == half && base % 2 == 1) {
        1
    } else {
        0
    };
    proof {
        assert(base + up <= u64::MAX) by (nonlinear_arith)
            requires
                p >= 2,
                base == w / p,
                up <= 1,
                w <= u64::MAX,
        ;
    }
    let rounded = base + up;
    if width == 64 {
        if up == 1 && rounded > u64::MAX / p {
            proof {
                assert(pow2(64) - 1 == u64::MAX);
                assert(shift < 64 && p == pow2(shift as nat));
                lemma_round_word_wraps(w as int, p as int, rounded as int, 64);
            }
            0
        } else {
            proof {
                assert(pow2(64) - 1 == u64::MAX);
                assert(shift < 64 && p == pow2(shift as nat));
                if up == 0 {
                    vstd::arithmetic::div_mod::lemma_div_is_ordered(
                        w as int,
                        u64::MAX as int,
                        p as int,
                    );
                }
                lemma_round_word_fits(w as int, p as int, rounded as int, 64);
            }
            rounded * p
        }
    } else {
        proof {
            vstd::bits::lemma_u64_pow2_no_overflow(width as nat);
            vstd::bits::lemma_u64_shl_is_mul(1u64, width as u64);
            lemma_round_word_bound(w as int, p as int, rounded as int, width as nat, shift as nat);
        }
        let tw = 1u64 << width;
        (rounded * p) % tw
    }
}

/// A rounded word that cannot be multiplied back without leaving 64 bits is
/// exactly the wrapped value zero.
proof fn lemma_round_word_wraps(w: int, p: int, rounded: int, width: nat)
    requires
        width == 64,
        p >= 2,
        exists|s: nat| s < 64 && p == pow2(s),
        0 <= w < pow2(64),
        rounded == w / p + 1,
        rounded > (pow2(64) - 1) / p,
    ensures
        rounded * p % (pow2(width) as int) == 0,
{
    let s = choose|s: nat| s < 64 && p == pow2(s);
    vstd::arithmetic::power2::lemma_pow2_adds(s, (64 - s) as nat);
    vstd::arithmetic::power2::lemma_pow2_pos(s);
    vstd::arithmetic::power2::lemma_pow2_pos((64 - s) as nat);
    let q = pow2((64 - s) as nat) as int;
    assert(pow2(64) == p * q);
    assert(w / p < q) by (nonlinear_arith)
        requires
            p >= 2,
            q >= 1,
            0 <= w < p * q,
    ;
    assert(rounded <= q);
    assert((pow2(64) - 1) / p == q - 1) by (nonlinear_arith)
        requires
            p >= 2,
            q >= 1,
            pow2(64) == p * q,
    ;
    assert(rounded == q);
    assert(q * p == pow2(64));
    assert(pow2(64) as int % pow2(64) as int == 0) by (nonlinear_arith)
        requires
            pow2(64) > 0,
    ;
}

/// A rounded word that stays within 64 bits is its own value modulo the
/// word width.
proof fn lemma_round_word_fits(w: int, p: int, rounded: int, width: nat)
    requires
        width == 64,
        p >= 2,
        exists|s: nat| s < 64 && p == pow2(s),
        0 <= w < pow2(64),
        w / p <= rounded <= w / p + 1,
        rounded <= (pow2(64) - 1) / p,
    ensures
        rounded * p <= pow2(64) - 1,
        rounded * p % (pow2(width) as int) == rounded * p,
{
    assert(rounded * p <= ((pow2(64) - 1) / p) * p) by (nonlinear_arith)
        requires
            p >= 2,
            0 <= rounded <= (pow2(64) - 1) / p,
    ;
    assert(((pow2(64) - 1) / p) * p <= pow2(64) - 1) by (nonlinear_arith)
        requires
            p >= 2,
            pow2(64) >= 1,
    ;
    assert(rounded * p >= 0) by (nonlinear_arith)
        requires
            rounded >= 0,
            p >= 2,
    ;
    vstd::arithmetic::div_mod::lemma_small_mod((rounded * p) as nat, pow2(64));
}

/// The rounded word of a narrow width stays below `2^width` after the
/// multiply, so the executable modulo matches the specification's.
proof fn lemma_round_word_bound(w: int, p: int, rounded: int, width: nat, shift: nat)
    requires
        0 < width < 64,
        shift < width,
        p == pow2(shift),
        0 <= w < pow2(width),
        w / p <= rounded <= w / p + 1,
    ensures
        0 <= rounded * p <= pow2(width),
        pow2(width) <= u64::MAX,
{
    vstd::arithmetic::power2::lemma_pow2_adds(shift, (width - shift) as nat);
    vstd::arithmetic::power2::lemma_pow2_pos(shift);
    vstd::arithmetic::power2::lemma_pow2_pos((width - shift) as nat);
    vstd::bits::lemma_u64_pow2_no_overflow(width);
    let q = pow2((width - shift) as nat) as int;
    assert(pow2(width) == p * q);
    assert(w / p < q) by (nonlinear_arith)
        requires
            p >= 1,
            q >= 1,
            0 <= w < p * q,
    ;
    assert(rounded <= q);
    assert(rounded * p <= q * p) by (nonlinear_arith)
        requires
            p >= 1,
            0 <= rounded <= q,
    ;
    assert(rounded * p >= 0) by (nonlinear_arith)
        requires
            rounded >= 0,
            p >= 1,
    ;
}

/// The little-endian integer value of a byte sequence.
pub open spec fn le_word_of(b: Seq<u8>) -> int
    decreases b.len(),
{
    if b.len() == 0 {
        0
    } else {
        b[0] + 256 * le_word_of(b.skip(1))
    }
}

/// The `n` little-endian bytes of an integer value.
pub open spec fn le_bytes_of_word(w: int, n: nat) -> Seq<u8>
    decreases n,
{
    if n == 0 {
        Seq::empty()
    } else {
        seq![(w % 256) as u8] + le_bytes_of_word(w / 256, (n - 1) as nat)
    }
}

/// The little-endian value of a byte sequence is bounded by the sequence's
/// width in bits.
pub proof fn lemma_le_word_bound(b: Seq<u8>)
    ensures
        0 <= le_word_of(b) < pow2(8 * b.len()),
    decreases b.len(),
{
    if b.len() == 0 {
        vstd::arithmetic::power2::lemma2_to64();
    } else {
        lemma_le_word_bound(b.skip(1));
        vstd::arithmetic::power2::lemma_pow2_adds(8, 8 * (b.len() - 1) as nat);
        vstd::arithmetic::power2::lemma2_to64();
        let rest = le_word_of(b.skip(1));
        let bound = pow2(8 * (b.len() - 1) as nat) as int;
        assert(b[0] + 256 * rest < 256 * bound) by (nonlinear_arith)
            requires
                0 <= b[0] < 256,
                0 <= rest,
                rest < bound,
        ;
        assert(0 <= b[0] + 256 * rest) by (nonlinear_arith)
            requires
                0 <= b[0],
                0 <= rest,
        ;
    }
}

/// A byte buffer of floating-point words, each rounded to `keep` mantissa
/// bits. Words are `ws` bytes wide with `mantissa` mantissa bits; a trailing
/// fragment shorter than one word is left as it is.
pub open spec fn round_float_bytes(b: Seq<u8>, ws: nat, mantissa: nat, keep: nat) -> Seq<u8>
    decreases b.len(),
{
    if ws == 0 || b.len() < ws {
        b
    } else {
        le_bytes_of_word(
            spec_round_word(le_word_of(b.take(ws as int)), mantissa, keep, 8 * ws),
            ws,
        ) + round_float_bytes(b.skip(ws as int), ws, mantissa, keep)
    }
}

/// Read the `ws`-byte little-endian word at `at`.
fn read_word(b: &Vec<u8>, at: usize, ws: usize) -> (r: u64)
    requires
        at + ws <= b@.len(),
        0 < ws <= 8,
    ensures
        r == le_word_of(b@.subrange(at as int, at + ws)),
        r < pow2(8 * ws as nat),
{
    let total = b.len();
    let mut w: u64 = 0;
    let mut k: usize = ws;
    proof {
        assert(b@.subrange(at + ws, at + ws) =~= Seq::<u8>::empty());
        vstd::arithmetic::power2::lemma2_to64();
    }
    while k > 0
        invariant
            total == b@.len(),
            at + ws <= b@.len(),
            0 < ws <= 8,
            k <= ws,
            w == le_word_of(b@.subrange(at + k, at + ws)),
            w < pow2(8 * (ws - k) as nat),
        decreases k,
    {
        k -= 1;
        proof {
            let sub = b@.subrange(at + k, at + ws);
            assert(sub[0] == b@[at + k]);
            assert(sub.skip(1) =~= b@.subrange(at + k + 1, at + ws));
            vstd::arithmetic::power2::lemma_pow2_adds(8, 8 * (ws - k - 1) as nat);
            vstd::arithmetic::power2::lemma2_to64();
            vstd::arithmetic::power2::lemma2_to64_rest();
            let bound = pow2(8 * (ws - k - 1) as nat) as int;
            assert(b@[at + k] + 256 * w < 256 * bound) by (nonlinear_arith)
                requires
                    0 <= b@[at + k] < 256,
                    0 <= w < bound,
            ;
            if 8 * (ws - k) < 64 {
                vstd::arithmetic::power2::lemma_pow2_strictly_increases(8 * (ws - k) as nat, 64);
            }
        }
        w = w * 256 + (b[at + k] as u64);
    }
    w
}

/// Append the `ws` little-endian bytes of `w`.
fn push_word(out: &mut Vec<u8>, w: u64, ws: usize)
    ensures
        final(out)@ == old(out)@ + le_bytes_of_word(w as int, ws as nat),
{
    let ghost base = out@;
    let ghost w0 = w as int;
    let mut v: u64 = w;
    let mut k: usize = 0;
    while k < ws
        invariant
            k <= ws,
            base + le_bytes_of_word(w0, ws as nat) == out@ + le_bytes_of_word(
                v as int,
                (ws - k) as nat,
            ),
            out@.len() == base.len() + k,
        decreases ws - k,
    {
        proof {
            assert(le_bytes_of_word(v as int, (ws - k) as nat) == seq![((v as int) % 256) as u8]
                + le_bytes_of_word((v as int) / 256, (ws - k - 1) as nat));
        }
        out.push((v % 256) as u8);
        v = v / 256;
        k += 1;
    }
    proof {
        assert(le_bytes_of_word(v as int, 0) =~= Seq::<u8>::empty());
        assert(final(out)@ =~= base + le_bytes_of_word(w0, ws as nat));
    }
}

/// Round every `ws`-byte word of a buffer to `keep` mantissa bits.
fn bitround_buffer(value: &Vec<u8>, ws: usize, mantissa: u32, keep: u32) -> (r: Vec<u8>)
    requires
        0 < ws <= 8,
        0 < mantissa < 8 * ws,
        (value@.len() as int) % (ws as int) == 0,
    ensures
        r@ == round_float_bytes(value@, ws as nat, mantissa as nat, keep as nat),
        r@.len() == value@.len(),
{
    let mut out: Vec<u8> = Vec::new();
    proof {
        assert(value@.skip(0) =~= value@);
        lemma_round_float_bytes_len(value@, ws as nat, mantissa as nat, keep as nat);
        vstd::arithmetic::div_mod::lemma_fundamental_div_mod(value@.len() as int, ws as int);
    }
    let nw = value.len() / ws;
    let mut j: usize = 0;
    let mut i: usize = 0;
    while j < nw
        invariant
            0 < ws <= 8,
            0 < mantissa < 8 * ws,
            nw == (value@.len() as int) / (ws as int),
            value@.len() == nw * ws,
            value@.len() <= usize::MAX,
            j <= nw,
            i == j * ws,
            out@.len() == i,
            round_float_bytes(value@, ws as nat, mantissa as nat, keep as nat) == out@
                + round_float_bytes(value@.skip(i as int), ws as nat, mantissa as nat, keep as nat),
        decreases nw - j,
    {
        proof {
            assert((j + 1) * ws <= nw * ws) by (nonlinear_arith)
                requires
                    j + 1 <= nw,
                    ws >= 1,
            ;
            assert((j + 1) * ws == j * ws + ws) by (nonlinear_arith);
        }
        let w = read_word(value, i, ws);
        let rounded = round_word(w, mantissa, keep, 8 * (ws as u32));
        let ghost tail = value@.skip(i as int);
        proof {
            assert(tail.take(ws as int) =~= value@.subrange(i as int, i + ws));
            assert(tail.skip(ws as int) =~= value@.skip(i + ws));
            assert(round_float_bytes(tail, ws as nat, mantissa as nat, keep as nat)
                == le_bytes_of_word(
                spec_round_word(le_word_of(tail.take(ws as int)), mantissa as nat, keep as nat, 8
                    * ws as nat),
                ws as nat,
            ) + round_float_bytes(value@.skip(i + ws), ws as nat, mantissa as nat, keep as nat));
        }
        push_word(&mut out, rounded, ws);
        proof {
            lemma_le_bytes_of_word_len(rounded as int, ws as nat);
        }
        i += ws;
        j += 1;
    }
    proof {
        assert(value@.skip(value@.len() as int) =~= Seq::<u8>::empty());
    }
    out
}

/// Rounding a buffer's words keeps its length.
pub proof fn lemma_round_float_bytes_len(b: Seq<u8>, ws: nat, mantissa: nat, keep: nat)
    ensures
        round_float_bytes(b, ws, mantissa, keep).len() == b.len(),
    decreases b.len(),
{
    if ws > 0 && b.len() >= ws {
        lemma_round_float_bytes_len(b.skip(ws as int), ws, mantissa, keep);
        lemma_le_bytes_of_word_len(
            spec_round_word(le_word_of(b.take(ws as int)), mantissa, keep, 8 * ws),
            ws,
        );
    }
}

/// An integer's little-endian serialisation to `n` bytes has `n` bytes.
pub proof fn lemma_le_bytes_of_word_len(w: int, n: nat)
    ensures
        le_bytes_of_word(w, n).len() == n,
    decreases n,
{
    if n > 0 {
        lemma_le_bytes_of_word_len(w / 256, (n - 1) as nat);
    }
}

/// The `bitround` array-to-array codec: rounds the mantissa of each
/// floating-point element to `keepbits` bits, half to even. Encoding is
/// irreversible; decoding is the identity.
#[derive(Clone, Copy, Debug, Default)]
pub struct BitroundCodec {
    keepbits: u32,
}

impl BitroundCodec {
    /// The configured number of mantissa bits kept.
    pub closed spec fn spec_keepbits(self) -> u32 {
        self.keepbits
    }

    /// Create a new `bitround` codec.
    ///
    /// `keepbits` is the number of bits to round to in the floating point
    /// mantissa.
    pub fn new(keepbits: u32) -> (r: Self)
        ensures
            r.spec_keepbits() == keepbits,
    {
        BitroundCodec { keepbits }
    }

    /// Create a new `bitround` codec from a configuration.
    pub fn new_with_configuration(configuration: &BitroundCodecConfiguration) -> (r: Self)
        ensures
            configuration matches BitroundCodecConfiguration::V1(c) ==> r.spec_keepbits()
                == c.keepbits,
    {
        let BitroundCodecConfiguration::V1(configuration) = configuration;
        BitroundCodec { keepbits: configuration.keepbits }
    }

    /// The codec's metadata, or `None` to suppress it: the rounding is
    /// irreversible and decoders need not know of it, so metadata is only
    /// emitted when `store_metadata_if_encode_only` (the experimental
    /// configuration option) asks for it.
    pub fn create_metadata(&self, store_metadata_if_encode_only: bool) -> (r: Option<
        BitroundCodecMetadata,
    >)
        ensures
            r is Some <==> store_metadata_if_encode_only,
            r matches Some(m) ==> m.keepbits == self.spec_keepbits(),
    {
        if store_metadata_if_encode_only {
            Some(BitroundCodecMetadata { keepbits: self.keepbits })
        } else {
            None
        }
    }

    /// Partial decoding does not require caching the input.
    pub fn partial_decoder_should_cache_input(&self) -> (r: bool)
        ensures
            r == false,
    {
        false
    }

    /// The partial decoder serves requested ranges without decoding all.
    pub fn partial_decoder_decodes_all(&self) -> (r: bool)
        ensures
            r == false,
    {
        false
    }

    /// Encode a chunk: round every element's mantissa to `keepbits` bits.
    ///
    /// Fails with `UnsupportedDataType` for non-float data types and with
    /// `InvalidBytesLength` when the buffer is not whole elements.
    pub fn encode(&self, decoded_value: Vec<u8>, decoded_representation: &ArrayRepresentation)
        -> (r: Result<Vec<u8>, CodecError>)
        ensures
            r is Ok <==> spec_mantissa_bits(decoded_representation.data_type) is Some
                && (decoded_value@.len() as int) % (
            decoded_representation.data_type.spec_size() as int) == 0,
            r matches Ok(v) ==> v@ == round_float_bytes(
                decoded_value@,
                decoded_representation.data_type.spec_size(),
                spec_mantissa_bits(decoded_representation.data_type).unwrap() as nat,
                self.spec_keepbits() as nat,
            ),
            r matches Err(e) ==> (e is UnsupportedDataType <==> spec_mantissa_bits(
                decoded_representation.data_type,
            ) is None),
    {
        let mantissa: u32 = match decoded_representation.data_type {
            DataType::Float16 => 10,
            DataType::BFloat16 => 7,
            DataType::Float32 => 23,
            DataType::Float64 => 52,
            _ => {
                return Err(
                    CodecError::UnsupportedDataType(
                        decoded_representation.data_type,
                        bitround_identifier(),
                    ),
                );
            },
        };
        let ws = decoded_representation.data_type.size();
        if decoded_value.len() % ws != 0 {
            let expected = decoded_value.len() - decoded_value.len() % ws;
            return Err(CodecError::InvalidBytesLength(decoded_value.len(), expected));
        }
        Ok(bitround_buffer(&decoded_value, ws, mantissa, self.keepbits))
    }

    /// Decode a chunk: the identity, as rounding cannot be undone.
    pub fn decode(&self, encoded_value: Vec<u8>, _decoded_representation: &ArrayRepresentation)
        -> (r: Result<Vec<u8>, CodecError>)
        ensures
            r matches Ok(v) && v@ == encoded_value@,
    {
        Ok(encoded_value)
    }

    /// The encoded representation equals the decoded one: rounding changes
    /// values, not representation. Fails with `UnsupportedDataType` for
    /// non-float data types.
    pub fn compute_encoded_size(&self, decoded_representation: &ArrayRepresentation) -> (r: Result<
        ArrayRepresentation,
        CodecError,
    >)
        ensures
            r is Ok <==> spec_mantissa_bits(decoded_representation.data_type) is Some,
            r matches Ok(rep) ==> rep.shape@ == decoded_representation.shape@ && rep.data_type
                == decoded_representation.data_type && rep.fill_value@
                == decoded_representation.fill_value@,
            r matches Err(e) ==> e is UnsupportedDataType,
    {
        match decoded_representation.data_type {
            DataType::Float16 | DataType::BFloat16 | DataType::Float32 | DataType::Float64 => Ok(
                ArrayRepresentation {
                    shape: decoded_representation.shape.clone(),
                    data_type: decoded_representation.data_type,
                    fill_value: decoded_representation.fill_value.clone(),
                },
            ),
            _ => Err(
                CodecError::UnsupportedDataType(
                    decoded_representation.data_type,
                    bitround_identifier(),
                ),
            ),
        }
    }
}

} // verus!
