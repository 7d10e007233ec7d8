//! The typed-value model: value kinds with their byte widths, scan
//! criteria, concrete values with their little-endian wire encoding, and
//! criterion-based comparison.

use vstd::prelude::*;

verus! {

/// The closed set of value kinds a scan can look for. Each kind has a fixed
/// byte width and a little-endian wire encoding.
#[derive(Debug, Clone, Copy, PartialEq, Eq, Structural)]
pub enum ValueType {
    I8,
    I16,
    I32,
    I64,
    U8,
    U16,
    U32,
    U64,
    F32,
    F64,
}

impl ValueType {
    /// Width in bytes of this kind's wire encoding.
    pub open spec fn spec_size(self) -> nat {
        match self {
            ValueType::I8 | ValueType::U8 => 1,
            ValueType::I16 | ValueType::U16 => 2,
            ValueType::I32 | ValueType::U32 | ValueType::F32 => 4,
            ValueType::I64 | ValueType::U64 | ValueType::F64 => 8,
        }
    }

    /// Whether this kind carries a floating-point payload. The library keeps
    /// such payloads as raw bit patterns; see [`Value`].
    pub open spec fn spec_is_float(self) -> bool {
        match self {
            ValueType::F32 | ValueType::F64 => true,
            _ => false,
        }
    }

    pub fn size(&self) -> (n: usize)
        ensures
            n == self.spec_size(),
    {
        match self {
            ValueType::I8 | ValueType::U8 => 1,
            ValueType::I16 | ValueType::U16 => 2,
            ValueType::I32 | ValueType::U32 | ValueType::F32 => 4,
            ValueType::I64 | ValueType::U64 | ValueType::F64 => 8,
        }
    }

    pub fn is_float(&self) -> (r: bool)
        ensures
            r == self.spec_is_float(),
    {
        match self {
            ValueType::F32 | ValueType::F64 => true,
            _ => false,
        }
    }

    /// Every kind, in the order the presentation layer offers them.
    pub fn all() -> (r: Vec<ValueType>)
        ensures
            r@ =~= seq![
                ValueType::I8,
                ValueType::I16,
                ValueType::I32,
                ValueType::I64,
                ValueType::U8,
                ValueType::U16,
                ValueType::U32,
                ValueType::U64,
                ValueType::F32,
                ValueType::F64,
            ],
    {
        let mut v: Vec<ValueType> = Vec::new();
        v.push(ValueType::I8);
        v.push(ValueType::I16);
        v.push(ValueType::I32);
        v.push(ValueType::I64);
        v.push(ValueType::U8);
        v.push(ValueType::U16);
        v.push(ValueType::U32);
        v.push(ValueType::U64);
        v.push(ValueType::F32);
        v.push(ValueType::F64);
        v
    }
}

/// The scan criteria. The first four are valid on a first scan; the last
/// four compare against each address's previously recorded value and are
/// valid only on a refinement scan.
#[derive(Debug, Clone, Copy, PartialEq, Eq, Structural)]
pub enum ScanType {
    ExactValue,
    GreaterThan,
    LessThan,
    UnknownInitial,
    IncreasedValue,
    DecreasedValue,
    ChangedValue,
    UnchangedValue,
}

impl ScanType {
    /// Criteria that compare against a user-supplied literal value.
    pub open spec fn spec_needs_value(self) -> bool {
        match self {
            ScanType::ExactValue | ScanType::GreaterThan | ScanType::LessThan => true,
            _ => false,
        }
    }

    /// Criteria admissible on a first scan.
    pub open spec fn spec_valid_first(self) -> bool {
        match self {
            ScanType::ExactValue
            | ScanType::GreaterThan
            | ScanType::LessThan
            | ScanType::UnknownInitial => true,
            _ => false,
        }
    }

    pub fn needs_value(&self) -> (r: bool)
        ensures
            r == self.spec_needs_value(),
    {
        match self {
            ScanType::ExactValue | ScanType::GreaterThan | ScanType::LessThan => true,
            _ => false,
        }
    }

    pub fn valid_first(&self) -> (r: bool)
        ensures
            r == self.spec_valid_first(),
    {
        match self {
            ScanType::ExactValue
            | ScanType::GreaterThan
            | ScanType::LessThan
            | ScanType::UnknownInitial => true,
            _ => false,
        }
    }

}

/// A concrete numeric value, tagged with its kind.
///
/// Floating-point payloads are held as their IEEE-754 little-endian bit
/// patterns (`F32Bits`, `F64Bits`): the codec moves them byte-exactly, and
/// comparison treats them as explained on [`Value::compare`].
#[derive(Debug, Clone, Copy, PartialEq, Eq, Structural)]
pub enum Value {
    I8(i8),
    I16(i16),
    I32(i32),
    I64(i64),
    U8(u8),
    U16(u16),
    U32(u32),
    U64(u64),
    F32Bits(u32),
    F64Bits(u64),
}

impl Value {
    /// The kind this value belongs to.
    pub open spec fn spec_kind(self) -> ValueType {
        match self {
            Value::I8(_) => ValueType::I8,
            Value::I16(_) => ValueType::I16,
            Value::I32(_) => ValueType::I32,
            Value::I64(_) => ValueType::I64,
            Value::U8(_) => ValueType::U8,
            Value::U16(_) => ValueType::U16,
            Value::U32(_) => ValueType::U32,
            Value::U64(_) => ValueType::U64,
            Value::F32Bits(_) => ValueType::F32,
            Value::F64Bits(_) => ValueType::F64,
        }
    }

    pub fn kind(&self) -> (r: ValueType)
        ensures
            r == self.spec_kind(),
    {
        match self {
            Value::I8(_) => ValueType::I8,
            Value::I16(_) => ValueType::I16,
            Value::I32(_) => ValueType::I32,
            Value::I64(_) => ValueType::I64,
            Value::U8(_) => ValueType::U8,
            Value::U16(_) => ValueType::U16,
            Value::U32(_) => ValueType::U32,
            Value::U64(_) => ValueType::U64,
            Value::F32Bits(_) => ValueType::F32,
            Value::F64Bits(_) => ValueType::F64,
        }
    }
}

/// A match produced by a scan: an address together with the value observed
/// there when it was found, which later refinements compare against and
/// overwrite.
#[derive(Debug, Clone, Copy, PartialEq, Eq, Structural)]
pub struct FoundAddress {
    pub address: usize,
    pub value: Value,
}

// --- Little-endian recomposition of bytes into unsigned payloads ---

pub open spec fn le16b(b0: u8, b1: u8) -> u16 {
    (b0 as u16) | ((b1 as u16) << 8)
}

pub open spec fn le32b(b0: u8, b1: u8, b2: u8, b3: u8) -> u32 {
    (b0 as u32) | ((b1 as u32) << 8) | ((b2 as u32) << 16) | ((b3 as u32) << 24)
}

pub open spec fn le64b(b0: u8, b1: u8, b2: u8, b3: u8, b4: u8, b5: u8, b6: u8, b7: u8) -> u64 {
    (b0 as u64) | ((b1 as u64) << 8) | ((b2 as u64) << 16) | ((b3 as u64) << 24)
        | ((b4 as u64) << 32) | ((b5 as u64) << 40) | ((b6 as u64) << 48) | ((b7 as u64) << 56)
}

// --- Reinterpretation between unsigned bit patterns and signed values ---

pub open spec fn i8_of_bits(b: u8) -> i8 {
    if b < 0x80 {
        b as i8
    } else {
        (b - 0x100) as i8
    }
}

pub open spec fn i16_of_bits(u: u16) -> i16 {
    if u < 0x8000 {
        u as i16
    } else {
        (u - 0x1_0000) as i16
    }
}

pub open spec fn i32_of_bits(u: u32) -> i32 {
    if u < 0x8000_0000 {
        u as i32
    } else {
        (u - 0x1_0000_0000) as i32
    }
}

pub open spec fn i64_of_bits(u: u64) -> i64 {
    if u < 0x8000_0000_0000_0000 {
        u as i64
    } else {
        (u - 0x1_0000_0000_0000_0000) as i64
    }
}

pub open spec fn bits_of_i8(v: i8) -> u8 {
    if v >= 0 {
        v as u8
    } else {
        (v + 0x100) as u8
    }
}

pub open spec fn bits_of_i16(v: i16) -> u16 {
    if v >= 0 {
        v as u16
    } else {
        (v + 0x1_0000) as u16
    }
}

pub open spec fn bits_of_i32(v: i32) -> u32 {
    if v >= 0 {
        v as u32
    } else {
        (v + 0x1_0000_0000) as u32
    }
}

pub open spec fn bits_of_i64(v: i64) -> u64 {
    if v >= 0 {
        v as u64
    } else {
        (v + 0x1_0000_0000_0000_0000) as u64
    }
}

// --- Decomposition of unsigned payloads into little-endian bytes ---

pub open spec fn le16_bytes(u: u16) -> Seq<u8> {
    seq![(u & 0xff) as u8, ((u >> 8) & 0xff) as u8]
}

pub open spec fn le32_bytes(u: u32) -> Seq<u8> {
    seq![
        (u & 0xff) as u8,
        ((u >> 8) & 0xff) as u8,
        ((u >> 16) & 0xff) as u8,
        ((u >> 24) & 0xff) as u8,
    ]
}

pub open spec fn le64_bytes(u: u64) -> Seq<u8> {
    seq![
        (u & 0xff) as u8,
        ((u >> 8) & 0xff) as u8,
        ((u >> 16) & 0xff) as u8,
        ((u >> 24) & 0xff) as u8,
        ((u >> 32) & 0xff) as u8,
        ((u >> 40) & 0xff) as u8,
        ((u >> 48) & 0xff) as u8,
        ((u >> 56) & 0xff) as u8,
    ]
}

/// The value encoded by the first `vt.spec_size()` bytes of `s`, little-endian.
pub open spec fn spec_decode_front(s: Seq<u8>, vt: ValueType) -> Value
    recommends
        s.len() >= vt.spec_size(),
{
    match vt {
        ValueType::I8 => Value::I8(i8_of_bits(s[0])),
        ValueType::U8 => Value::U8(s[0]),
        ValueType::I16 => Value::I16(i16_of_bits(le16b(s[0], s[1]))),
        ValueType::U16 => Value::U16(le16b(s[0], s[1])),
        ValueType::I32 => Value::I32(i32_of_bits(le32b(s[0], s[1], s[2], s[3]))),
        ValueType::U32 => Value::U32(le32b(s[0], s[1], s[2], s[3])),
        ValueType::F32 => Value::F32Bits(le32b(s[0], s[1], s[2], s[3])),
        ValueType::I64 => Value::I64(
            i64_of_bits(le64b(s[0], s[1], s[2], s[3], s[4], s[5], s[6], s[7])),
        ),
        ValueType::U64 => Value::U64(le64b(s[0], s[1], s[2], s[3], s[4], s[5], s[6], s[7])),
        ValueType::F64 => Value::F64Bits(le64b(s[0], s[1], s[2], s[3], s[4], s[5], s[6], s[7])),
    }
}

/// Typed decoding: `None` whenever fewer than `vt.spec_size()` bytes are
/// given; otherwise the value read from exactly the leading bytes.
pub open spec fn spec_decode(s: Seq<u8>, vt: ValueType) -> Option<Value> {
    if s.len() < vt.spec_size() {
        None
    } else {
        Some(spec_decode_front(s, vt))
    }
}

/// The little-endian wire encoding of a value: exactly
/// `v.spec_kind().spec_size()` bytes.
pub open spec fn spec_encode(v: Value) -> Seq<u8> {
    match v {
        Value::I8(x) => seq![bits_of_i8(x)],
        Value::U8(x) => seq![x],
        Value::I16(x) => le16_bytes(bits_of_i16(x)),
        Value::U16(x) => le16_bytes(x),
        Value::I32(x) => le32_bytes(bits_of_i32(x)),
        Value::U32(x) => le32_bytes(x),
        Value::F32Bits(x) => le32_bytes(x),
        Value::I64(x) => le64_bytes(bits_of_i64(x)),
        Value::U64(x) => le64_bytes(x),
        Value::F64Bits(x) => le64_bytes(x),
    }
}

// --- Recomposing an unsigned payload from its own bytes gives it back ---

proof fn lemma_le16_round(u: u16)
    by (bit_vector)
    ensures
        u & 0xff < 0x100,
        (u >> 8) & 0xff < 0x100,
        le16b((u & 0xff) as u8, ((u >> 8) & 0xff) as u8) == u,
{
}

proof fn lemma_le32_round(u: u32)
    by (bit_vector)
    ensures
        u & 0xff < 0x100,
        (u >> 8) & 0xff < 0x100,
        (u >> 16) & 0xff < 0x100,
        (u >> 24) & 0xff < 0x100,
        le32b(
            (u & 0xff) as u8,
            ((u >> 8) & 0xff) as u8,
            ((u >> 16) & 0xff) as u8,
            ((u >> 24) & 0xff) as u8,
        ) == u,
{
}

proof fn lemma_le64_round(u: u64)
    by (bit_vector)
    ensures
        u & 0xff < 0x100,
        (u >> 8) & 0xff < 0x100,
        (u >> 16) & 0xff < 0x100,
        (u >> 24) & 0xff < 0x100,
        (u >> 32) & 0xff < 0x100,
        (u >> 40) & 0xff < 0x100,
        (u >> 48) & 0xff < 0x100,
        (u >> 56) & 0xff < 0x100,
        le64b(
            (u & 0xff) as u8,
            ((u >> 8) & 0xff) as u8,
            ((u >> 16) & 0xff) as u8,
            ((u >> 24) & 0xff) as u8,
            ((u >> 32) & 0xff) as u8,
            ((u >> 40) & 0xff) as u8,
            ((u >> 48) & 0xff) as u8,
            ((u >> 56) & 0xff) as u8,
        ) == u,
{
}

/// Encoding a value and decoding it at the same kind gives the value back,
/// and the encoding is exactly as wide as the kind.
pub proof fn lemma_decode_encode(v: Value)
    ensures
        spec_encode(v).len() == v.spec_kind().spec_size(),
        spec_decode(spec_encode(v), v.spec_kind()) == Some(v),
{
    match v {
        Value::I8(x) => {}
        Value::U8(x) => {}
        Value::I16(x) => {
            lemma_le16_round(bits_of_i16(x));
        }
        Value::U16(x) => {
            lemma_le16_round(x);
        }
        Value::I32(x) => {
            lemma_le32_round(bits_of_i32(x));
        }
        Value::U32(x) => {
            lemma_le32_round(x);
        }
        Value::F32Bits(x) => {
            lemma_le32_round(x);
        }
        Value::I64(x) => {
            lemma_le64_round(bits_of_i64(x));
        }
        Value::U64(x) => {
            lemma_le64_round(x);
        }
        Value::F64Bits(x) => {
            lemma_le64_round(x);
        }
    }
}

/// A decoded value belongs to the kind it was decoded at.
pub proof fn lemma_decode_kind(s: Seq<u8>, vt: ValueType)
    requires
        s.len() >= vt.spec_size(),
    ensures
        spec_decode_front(s, vt).spec_kind() == vt,
{
}

/// Decoding, re-encoding, and decoding again is the same as decoding once:
/// the codec loses nothing on buffers of the kind's exact width.
pub proof fn lemma_codec_stable(b: Seq<u8>, k: ValueType)
    requires
        b.len() == k.spec_size(),
    ensures
        spec_decode(b, k) matches Some(v) && spec_decode(spec_encode(v), k) == spec_decode(b, k),
{
    let v = spec_decode(b, k)->Some_0;
    lemma_decode_kind(b, k);
    lemma_decode_encode(v);
}

/// Decoding fewer bytes than the kind's width yields nothing.
pub proof fn lemma_decode_short(b: Seq<u8>, k: ValueType)
    requires
        b.len() < k.spec_size(),
    ensures
        spec_decode(b, k) is None,
{
}

// --- Executable codec ---

fn i8_from_bits(b: u8) -> (r: i8)
    ensures
        r == i8_of_bits(b),
{
    if b < 0x80 {
        b as i8
    } else {
        ((b as i16) - 0x100) as i8
    }
}

fn i16_from_bits(u: u16) -> (r: i16)
    ensures
        r == i16_of_bits(u),
{
    if u < 0x8000 {
        u as i16
    } else {
        ((u as i32) - 0x1_0000) as i16
    }
}

fn i32_from_bits(u: u32) -> (r: i32)
    ensures
        r == i32_of_bits(u),
{
    if u < 0x8000_0000 {
        u as i32
    } else {
        ((u as i64) - 0x1_0000_0000) as i32
    }
}

fn i64_from_bits(u: u64) -> (r: i64)
    ensures
        r == i64_of_bits(u),
{
    if u < 0x8000_0000_0000_0000 {
        u as i64
    } else {
        ((u - 0x8000_0000_0000_0000) as i64) + i64::MIN
    }
}

impl Value {
    /// Decode a value of kind `value_type` from the bytes starting at
    /// `offset`: `None` when fewer than the kind's width remain there.
    pub(crate) fn from_bytes_at(bytes: &[u8], offset: usize, value_type: ValueType) -> (r: Option<
        Value,
    >)
        requires
            offset <= bytes@.len(),
        ensures
            r == spec_decode(bytes@.skip(offset as int), value_type),
    {
        let n = bytes.len();
        let width = value_type.size();
        if n - offset < width {
            return None;
        }
        let ghost s = bytes@.skip(offset as int);
        let v = match value_type {
            ValueType::I8 => Value::I8(i8_from_bits(bytes[offset])),
            ValueType::U8 => Value::U8(bytes[offset]),
            ValueType::I16 => {
                let u = (bytes[offset] as u16) | ((bytes[offset + 1] as u16) << 8);
                Value::I16(i16_from_bits(u))
            },
            ValueType::U16 => {
                let u = (bytes[offset] as u16) | ((bytes[offset + 1] as u16) << 8);
                Value::U16(u)
            },
            ValueType::I32 => Value::I32(i32_from_bits(read_le32(bytes, offset))),
            ValueType::U32 => Value::U32(read_le32(bytes, offset)),
            ValueType::F32 => Value::F32Bits(read_le32(bytes, offset)),
            ValueType::I64 => Value::I64(i64_from_bits(read_le64(bytes, offset))),
            ValueType::U64 => Value::U64(read_le64(bytes, offset)),
            ValueType::F64 => Value::F64Bits(read_le64(bytes, offset)),
        };
        Some(v)
    }

    /// Decode a value of kind `value_type` from the leading bytes: `None`
    /// whenever fewer than `value_type.size()` bytes are given.
    pub fn from_bytes(bytes: &[u8], value_type: ValueType) -> (r: Option<Value>)
        ensures
            r == spec_decode(bytes@, value_type),
            r matches Some(v) ==> v.spec_kind() == value_type,
            bytes@.len() < value_type.spec_size() ==> r is None,
    {
        proof {
            assert(bytes@.skip(0) =~= bytes@);
        }
        Value::from_bytes_at(bytes, 0, value_type)
    }

    /// The little-endian wire encoding of this value: exactly
    /// `self.kind().size()` bytes.
    pub fn to_bytes(&self) -> (r: Vec<u8>)
        ensures
            r@ == spec_encode(*self),
            r@.len() == self.spec_kind().spec_size(),
    {
        let mut out: Vec<u8> = Vec::new();
        match self {
            Value::I8(x) => {
                let b = if *x >= 0 {
                    *x as u8
                } else {
                    ((*x as i16) + 0x100) as u8
                };
                out.push(b);
            },
            Value::U8(x) => {
                out.push(*x);
            },
            Value::I16(x) => {
                let u = if *x >= 0 {
                    *x as u16
                } else {
                    ((*x as i32) + 0x1_0000) as u16
                };
                push_le16(&mut out, u);
            },
            Value::U16(x) => {
                push_le16(&mut out, *x);
            },
            Value::I32(x) => {
                let u = if *x >= 0 {
                    *x as u32
                } else {
                    ((*x as i64) + 0x1_0000_0000) as u32
                };
                push_le32(&mut out, u);
            },
            Value::U32(x) => {
                push_le32(&mut out, *x);
            },
            Value::F32Bits(x) => {
                push_le32(&mut out, *x);
            },
            Value::I64(x) => {
                let u = if *x >= 0 {
                    *x as u64
                } else {
                    (((*x - i64::MIN) as u64) + 0x8000_0000_0000_0000)
                };
                assert(u == bits_of_i64(*x));
                push_le64(&mut out, u);
            },
            Value::U64(x) => {
                push_le64(&mut out, *x);
            },
            Value::F64Bits(x) => {
                push_le64(&mut out, *x);
            },
        }
        proof {
            assert(out@ =~= spec_encode(*self));
        }
        out
    }
}

fn read_le32(bytes: &[u8], offset: usize) -> (r: u32)
    requires
        offset + 4 <= bytes@.len(),
    ensures
        r == le32b(
            bytes@[offset as int],
            bytes@[offset as int + 1],
            bytes@[offset as int + 2],
            bytes@[offset as int + 3],
        ),
{
    (bytes[offset] as u32) | ((bytes[offset + 1] as u32) << 8) | ((bytes[offset + 2] as u32) << 16)
        | ((bytes[offset + 3] as u32) << 24)
}

fn read_le64(bytes: &[u8], offset: usize) -> (r: u64)
    requires
        offset + 8 <= bytes@.len(),
    ensures
        r == le64b(
            bytes@[offset as int],
            bytes@[offset as int + 1],
            bytes@[offset as int + 2],
            bytes@[offset as int + 3],
            bytes@[offset as int + 4],
            bytes@[offset as int + 5],
            bytes@[offset as int + 6],
            bytes@[offset as int + 7],
        ),
{
    (bytes[offset] as u64) | ((bytes[offset + 1] as u64) << 8) | ((bytes[offset + 2] as u64) << 16)
        | ((bytes[offset + 3] as u64) << 24) | ((bytes[offset + 4] as u64) << 32)
        | ((bytes[offset + 5] as u64) << 40) | ((bytes[offset + 6] as u64) << 48)
        | ((bytes[offset + 7] as u64) << 56)
}

fn push_le16(out: &mut Vec<u8>, u: u16)
    ensures
        final(out)@ == old(out)@ + le16_bytes(u),
{
    proof {
        lemma_le16_round(u);
    }
    out.push((u & 0xff) as u8);
    out.push(((u >> 8) & 0xff) as u8);
    proof {
        assert(out@ =~= old(out)@ + le16_bytes(u));
    }
}

fn push_le32(out: &mut Vec<u8>, u: u32)
    ensures
        final(out)@ == old(out)@ + le32_bytes(u),
{
    proof {
        lemma_le32_round(u);
    }
    out.push((u & 0xff) as u8);
    out.push(((u >> 8) & 0xff) as u8);
    out.push(((u >> 16) & 0xff) as u8);
    out.push(((u >> 24) & 0xff) as u8);
    proof {
        assert(out@ =~= old(out)@ + le32_bytes(u));
    }
}

fn push_le64(out: &mut Vec<u8>, u: u64)
    ensures
        final(out)@ == old(out)@ + le64_bytes(u),
{
    proof {
        lemma_le64_round(u);
    }
    out.push((u & 0xff) as u8);
    out.push(((u >> 8) & 0xff) as u8);
    out.push(((u >> 16) & 0xff) as u8);
    out.push(((u >> 24) & 0xff) as u8);
    out.push(((u >> 32) & 0xff) as u8);
    out.push(((u >> 40) & 0xff) as u8);
    out.push(((u >> 48) & 0xff) as u8);
    out.push(((u >> 56) & 0xff) as u8);
    proof {
        assert(out@ =~= old(out)@ + le64_bytes(u));
    }
}

// --- Criterion-based comparison ---

/// NaN bit patterns: exponent all ones, mantissa nonzero.
pub open spec fn f32_is_nan(bits: u32) -> bool {
    (bits >> 23) & 0xff == 0xff && bits & 0x7f_ffff != 0
}

pub open spec fn f64_is_nan(bits: u64) -> bool {
    (bits >> 52) & 0x7ff == 0x7ff && bits & 0xf_ffff_ffff_ffff != 0
}

/// Where a 32-bit pattern falls in the IEEE-754 order: magnitude bits,
/// negated under a set sign bit. Both zeroes land on 0, so they compare
/// equal; infinities and subnormals fall in place.
pub open spec fn f32_order_key(bits: u32) -> int {
    if bits >> 31 == 1 {
        -((bits & 0x7fff_ffff) as int)
    } else {
        (bits & 0x7fff_ffff) as int
    }
}

pub open spec fn f64_order_key(bits: u64) -> int {
    if bits >> 63 == 1 {
        -((bits & 0x7fff_ffff_ffff_ffff) as int)
    } else {
        (bits & 0x7fff_ffff_ffff_ffff) as int
    }
}

/// The IEEE-754 `>` relation on two 32-bit patterns: false whenever either
/// is NaN, otherwise the order of the sign-magnitude keys.
pub open spec fn spec_f32_gt(a: u32, b: u32) -> bool {
    !f32_is_nan(a) && !f32_is_nan(b) && f32_order_key(a) > f32_order_key(b)
}

pub open spec fn spec_f64_gt(a: u64, b: u64) -> bool {
    !f64_is_nan(a) && !f64_is_nan(b) && f64_order_key(a) > f64_order_key(b)
}

/// Equality as the scan engine applies it: operands of different kinds are
/// never equal; integers compare exactly; float payloads compare by bit
/// pattern.
pub open spec fn spec_eq_value(a: Value, b: Value) -> bool {
    match (a, b) {
        (Value::I8(x), Value::I8(y)) => x == y,
        (Value::I16(x), Value::I16(y)) => x == y,
        (Value::I32(x), Value::I32(y)) => x == y,
        (Value::I64(x), Value::I64(y)) => x == y,
        (Value::U8(x), Value::U8(y)) => x == y,
        (Value::U16(x), Value::U16(y)) => x == y,
        (Value::U32(x), Value::U32(y)) => x == y,
        (Value::U64(x), Value::U64(y)) => x == y,
        (Value::F32Bits(x), Value::F32Bits(y)) => x == y,
        (Value::F64Bits(x), Value::F64Bits(y)) => x == y,
        _ => false,
    }
}

/// Strict numeric order: false across kinds; integers compare numerically;
/// float payloads compare in the IEEE-754 order of their bit patterns.
pub open spec fn spec_gt_value(a: Value, b: Value) -> bool {
    match (a, b) {
        (Value::I8(x), Value::I8(y)) => x > y,
        (Value::I16(x), Value::I16(y)) => x > y,
        (Value::I32(x), Value::I32(y)) => x > y,
        (Value::I64(x), Value::I64(y)) => x > y,
        (Value::U8(x), Value::U8(y)) => x > y,
        (Value::U16(x), Value::U16(y)) => x > y,
        (Value::U32(x), Value::U32(y)) => x > y,
        (Value::U64(x), Value::U64(y)) => x > y,
        (Value::F32Bits(x), Value::F32Bits(y)) => spec_f32_gt(x, y),
        (Value::F64Bits(x), Value::F64Bits(y)) => spec_f64_gt(x, y),
        _ => false,
    }
}

pub open spec fn spec_lt_value(a: Value, b: Value) -> bool {
    spec_gt_value(b, a)
}

/// What `compare` returns for every pair of values and every criterion.
pub open spec fn spec_compare(a: Value, b: Value, st: ScanType) -> bool {
    match st {
        ScanType::ExactValue => spec_eq_value(a, b),
        ScanType::GreaterThan => spec_gt_value(a, b),
        ScanType::LessThan => spec_lt_value(a, b),
        ScanType::IncreasedValue => spec_gt_value(a, b),
        ScanType::DecreasedValue => spec_lt_value(a, b),
        ScanType::ChangedValue => !spec_eq_value(a, b),
        ScanType::UnchangedValue => spec_eq_value(a, b),
        ScanType::UnknownInitial => true,
    }
}

fn f32_gt_bits(a: u32, b: u32) -> (r: bool)
    ensures
        r == spec_f32_gt(a, b),
{
    let a_nan = (a >> 23) & 0xff == 0xff && a & 0x7f_ffff != 0;
    let b_nan = (b >> 23) & 0xff == 0xff && b & 0x7f_ffff != 0;
    if a_nan || b_nan {
        return false;
    }
    let a_mag = (a & 0x7fff_ffff) as i64;
    let b_mag = (b & 0x7fff_ffff) as i64;
    let a_key: i64 = if a >> 31 == 1 {
        -a_mag
    } else {
        a_mag
    };
    let b_key: i64 = if b >> 31 == 1 {
        -b_mag
    } else {
        b_mag
    };
    a_key > b_key
}

fn f64_gt_bits(a: u64, b: u64) -> (r: bool)
    ensures
        r == spec_f64_gt(a, b),
{
    let a_nan = (a >> 52) & 0x7ff == 0x7ff && a & 0xf_ffff_ffff_ffff != 0;
    let b_nan = (b >> 52) & 0x7ff == 0x7ff && b & 0xf_ffff_ffff_ffff != 0;
    if a_nan || b_nan {
        return false;
    }
    proof {
        lemma_f64_mag_fits(a);
        lemma_f64_mag_fits(b);
    }
    let a_mag = (a & 0x7fff_ffff_ffff_ffff) as i64;
    let b_mag = (b & 0x7fff_ffff_ffff_ffff) as i64;
    let a_key: i64 = if a >> 63 == 1 {
        -a_mag
    } else {
        a_mag
    };
    let b_key: i64 = if b >> 63 == 1 {
        -b_mag
    } else {
        b_mag
    };
    a_key > b_key
}

proof fn lemma_f64_mag_fits(a: u64)
    by (bit_vector)
    ensures
        a & 0x7fff_ffff_ffff_ffff <= 0x7fff_ffff_ffff_ffff,
{
}

impl Value {
    fn eq_value(&self, other: &Value) -> (r: bool)
        ensures
            r == spec_eq_value(*self, *other),
    {
        match (self, other) {
            (Value::I8(x), Value::I8(y)) => x == y,
            (Value::I16(x), Value::I16(y)) => x == y,
            (Value::I32(x), Value::I32(y)) => x == y,
            (Value::I64(x), Value::I64(y)) => x == y,
            (Value::U8(x), Value::U8(y)) => x == y,
            (Value::U16(x), Value::U16(y)) => x == y,
            (Value::U32(x), Value::U32(y)) => x == y,
            (Value::U64(x), Value::U64(y)) => x == y,
            (Value::F32Bits(x), Value::F32Bits(y)) => x == y,
            (Value::F64Bits(x), Value::F64Bits(y)) => x == y,
            _ => false,
        }
    }

    fn gt_value(&self, other: &Value) -> (r: bool)
        ensures
            r == spec_gt_value(*self, *other),
    {
        match (self, other) {
            (Value::I8(x), Value::I8(y)) => x > y,
            (Value::I16(x), Value::I16(y)) => x > y,
            (Value::I32(x), Value::I32(y)) => x > y,
            (Value::I64(x), Value::I64(y)) => x > y,
            (Value::U8(x), Value::U8(y)) => x > y,
            (Value::U16(x), Value::U16(y)) => x > y,
            (Value::U32(x), Value::U32(y)) => x > y,
            (Value::U64(x), Value::U64(y)) => x > y,
            (Value::F32Bits(x), Value::F32Bits(y)) => f32_gt_bits(*x, *y),
            (Value::F64Bits(x), Value::F64Bits(y)) => f64_gt_bits(*x, *y),
            _ => false,
        }
    }

    fn lt_value(&self, other: &Value) -> (r: bool)
        ensures
            r == spec_lt_value(*self, *other),
    {
        other.gt_value(self)
    }

    /// Evaluate a criterion on this value against `other` (the target value
    /// for literal criteria, the previously recorded value for delta
    /// criteria). Operands of different kinds never raise an error, they
    /// simply do not match.
    ///
    /// Float payloads are compared on their stored bit patterns: ordering is
    /// the IEEE-754 order, and `ExactValue`/`ChangedValue`/`UnchangedValue`
    /// use bit equality. A tolerance-based float equality needs float
    /// arithmetic, which this library leaves to the embedding application.
    pub fn compare(&self, other: &Value, scan_type: ScanType) -> (r: bool)
        ensures
            r == spec_compare(*self, *other, scan_type),
    {
        match scan_type {
            ScanType::ExactValue => self.eq_value(other),
            ScanType::GreaterThan => self.gt_value(other),
            ScanType::LessThan => self.lt_value(other),
            ScanType::IncreasedValue => self.gt_value(other),
            ScanType::DecreasedValue => self.lt_value(other),
            ScanType::ChangedValue => !self.eq_value(other),
            ScanType::UnchangedValue => self.eq_value(other),
            ScanType::UnknownInitial => true,
        }
    }
}

/// An exact comparison of any value with itself holds.
pub proof fn lemma_exact_reflexive(x: Value)
    ensures
        spec_compare(x, x, ScanType::ExactValue),
{
}

/// The changed criterion is precisely the negation of the exact one.
pub proof fn lemma_changed_negates_exact(x: Value, y: Value)
    ensures
        spec_compare(x, y, ScanType::ChangedValue) == !spec_compare(x, y, ScanType::ExactValue),
{
}

} // verus!

