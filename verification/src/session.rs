//! One scanning session: the state the presentation layer drives — the
//! selected kind and criterion, the first-scan/refinement phase, the
//! accumulated results and progress, the saved-address list with live
//! refresh — and the parsing of user-supplied literal values.

use vstd::prelude::*;

use crate::memory::MemoryError;
use crate::memory::MemoryReader;
use crate::types::spec_decode;
use crate::types::FoundAddress;
use crate::types::ScanType;
use crate::types::Value;
use crate::types::ValueType;

verus! {

/// A user-supplied literal failed to parse as the selected kind.
#[derive(Debug, Clone, Copy, PartialEq, Eq, Structural)]
pub enum ParseError {
    /// The input was empty (after trimming).
    Empty,
    /// The input was not a number of the kind, or out of its range.
    Malformed,
}

// --- Trimming ---

/// Whitespace trimmed off a user-supplied literal.
pub open spec fn is_trim_ws(b: u8) -> bool {
    b == 0x20 || b == 0x09 || b == 0x0a || b == 0x0d
}

pub open spec fn trim_start(s: Seq<u8>) -> Seq<u8>
    decreases s.len(),
{
    if s.len() > 0 && is_trim_ws(s[0]) {
        trim_start(s.skip(1))
    } else {
        s
    }
}

pub open spec fn trim_end(s: Seq<u8>) -> Seq<u8>
    decreases s.len(),
{
    if s.len() > 0 && is_trim_ws(s.last()) {
        trim_end(s.drop_last())
    } else {
        s
    }
}

/// The literal without leading and trailing whitespace.
pub open spec fn spec_trim(s: Seq<u8>) -> Seq<u8> {
    trim_end(trim_start(s))
}

proof fn lemma_trim_start_run(s: Seq<u8>, a: int)
    requires
        0 <= a <= s.len(),
        forall|k: int| 0 <= k < a ==> is_trim_ws(s[k]),
        a == s.len() || !is_trim_ws(s[a]),
    ensures
        trim_start(s) == s.skip(a),
    decreases a,
{
    if a == 0 {
        assert(s.skip(0) =~= s);
    } else {
        let t = s.skip(1);
        assert(forall|k: int| 0 <= k < a - 1 ==> t[k] == s[k + 1] && is_trim_ws(t[k]));
        assert(a - 1 == t.len() || !is_trim_ws(t[a - 1]));
        lemma_trim_start_run(t, a - 1);
        assert(t.skip(a - 1) =~= s.skip(a));
    }
}

proof fn lemma_trim_end_run(s: Seq<u8>, b: int)
    requires
        0 <= b <= s.len(),
        forall|k: int| b <= k < s.len() ==> is_trim_ws(s[k]),
        b == 0 || !is_trim_ws(s[b - 1]),
    ensures
        trim_end(s) == s.take(b),
    decreases s.len() - b,
{
    if b == s.len() {
        assert(s.take(b) =~= s);
    } else {
        let t = s.drop_last();
        assert(forall|k: int| b <= k < t.len() ==> t[k] == s[k]);
        lemma_trim_end_run(t, b);
        assert(t.take(b) =~= s.take(b));
    }
}

/// The input without leading and trailing whitespace.
fn trim_bytes<'a>(s: &'a [u8]) -> (r: &'a [u8])
    ensures
        r@ == spec_trim(s@),
{
    let n = s.len();
    let mut a: usize = 0;
    while a < n && (s[a] == 0x20 || s[a] == 0x09 || s[a] == 0x0a || s[a] == 0x0d)
        invariant
            a <= n,
            n == s@.len(),
            forall|k: int| 0 <= k < a ==> is_trim_ws(s@[k]),
        decreases n - a,
    {
        a = a + 1;
    }
    let mut b: usize = n;
    while b > a && (s[b - 1] == 0x20 || s[b - 1] == 0x09 || s[b - 1] == 0x0a || s[b - 1] == 0x0d)
        invariant
            a <= b <= n,
            n == s@.len(),
            forall|k: int| 0 <= k < a ==> is_trim_ws(s@[k]),
            forall|k: int| b <= k < n ==> is_trim_ws(s@[k]),
        decreases b,
    {
        b = b - 1;
    }
    proof {
        lemma_trim_start_run(s@, a as int);
        let t = s@.skip(a as int);
        assert(forall|k: int|
            b - a <= k < t.len() ==> t[k] == s@[k + a] && is_trim_ws(t[k]));
        if b > a {
            assert(!is_trim_ws(s@[b - 1]));
            assert(t[b - a - 1] == s@[b as int - 1]);
        }
        lemma_trim_end_run(t, b - a);
        assert(t.take(b - a) =~= s@.subrange(a as int, b as int));
    }
    &s[a..b]
}

// --- Decimal magnitudes ---

pub open spec fn spec_dec_digit(b: u8) -> Option<int> {
    if 0x30 <= b <= 0x39 {
        Some(b - 0x30)
    } else {
        None
    }
}

/// The unbounded value of a decimal digit string: `None` as soon as any
/// byte is not a digit. The empty string has value 0.
pub open spec fn dec_val(t: Seq<u8>) -> Option<int>
    decreases t.len(),
{
    if t.len() == 0 {
        Some(0)
    } else {
        match (dec_val(t.drop_last()), spec_dec_digit(t.last())) {
            (Some(v), Some(d)) => Some(v * 10 + d),
            _ => None,
        }
    }
}

proof fn lemma_dec_val_nonneg(t: Seq<u8>)
    ensures
        dec_val(t) matches Some(v) ==> v >= 0,
    decreases t.len(),
{
    if t.len() > 0 {
        lemma_dec_val_nonneg(t.drop_last());
    }
}

proof fn lemma_dec_val_monotone(t: Seq<u8>, i: int)
    requires
        0 <= i <= t.len(),
        dec_val(t) is Some,
    ensures
        dec_val(t.take(i)) matches Some(p) && p <= dec_val(t)->Some_0,
    decreases t.len() - i,
{
    if i == t.len() {
        assert(t.take(i) =~= t);
    } else {
        lemma_dec_val_monotone(t, i + 1);
        let u = t.take(i + 1);
        assert(u.drop_last() =~= t.take(i));
        assert(u.last() == t[i]);
        lemma_dec_val_nonneg(t.take(i));
        lemma_dec_val_nonneg(t.take(i + 1));
    }
}

proof fn lemma_dec_val_bad_digit(t: Seq<u8>, i: int)
    requires
        0 <= i < t.len(),
        spec_dec_digit(t[i]) is None,
    ensures
        dec_val(t) is None,
    decreases t.len(),
{
    if i == t.len() - 1 {
    } else {
        assert(t.drop_last()[i] == t[i]);
        lemma_dec_val_bad_digit(t.drop_last(), i);
    }
}

/// Accumulate a decimal digit string into a machine word: `None` when a
/// byte is not a digit or the value exceeds the word.
fn parse_dec_mag(t: &[u8]) -> (r: Option<u64>)
    ensures
        match r {
            Some(m) => dec_val(t@) == Some(m as int),
            None => !(dec_val(t@) matches Some(v) && v <= u64::MAX),
        },
{
    let n = t.len();
    let mut acc: u64 = 0;
    let mut i: usize = 0;
    proof {
        assert(t@.take(0) =~= Seq::<u8>::empty());
    }
    while i < n
        invariant
            i <= n,
            n == t@.len(),
            dec_val(t@.take(i as int)) == Some(acc as int),
        decreases n - i,
    {
        let ghost prefix = t@.take(i as int);
        proof {
            assert(t@.take(i as int + 1).drop_last() =~= prefix);
            assert(t@.take(i as int + 1).last() == t@[i as int]);
        }
        let b = t[i];
        if !(0x30 <= b && b <= 0x39) {
            proof {
                lemma_dec_val_bad_digit(t@, i as int);
            }
            return None;
        }
        let d = b - 0x30;
        let widened = match acc.checked_mul(10) {
            Some(m) => m.checked_add(d as u64),
            None => None,
        };
        match widened {
            Some(next) => {
                acc = next;
            },
            None => {
                proof {
                    if dec_val(t@) is Some {
                        lemma_dec_val_monotone(t@, i as int + 1);
                    }
                }
                return None;
            },
        }
        i = i + 1;
    }
    proof {
        assert(t@.take(n as int) =~= t@);
    }
    Some(acc)
}

// --- Signed literals ---

/// The integer a trimmed literal denotes within `[lo, hi]`: an optional
/// sign (a minus only where the kind is signed), then at least one decimal
/// digit; `None` when the shape is wrong or the value out of range.
pub open spec fn spec_parse_int(s: Seq<u8>, signed: bool, lo: int, hi: int) -> Option<int> {
    if s.len() == 0 {
        None
    } else {
        let neg = s[0] == 0x2d;
        let has_sign = s[0] == 0x2d || s[0] == 0x2b;
        let digits = if has_sign {
            s.skip(1)
        } else {
            s
        };
        if neg && !signed {
            None
        } else if digits.len() == 0 {
            None
        } else {
            match dec_val(digits) {
                Some(m) => {
                    let v = if neg {
                        -m
                    } else {
                        m
                    };
                    if lo <= v <= hi {
                        Some(v)
                    } else {
                        None
                    }
                },
                None => None,
            }
        }
    }
}

/// Split a trimmed literal into its sign and decimal magnitude.
fn parse_sign_mag(t: &[u8]) -> (r: Option<(bool, u64)>)
    ensures
        match r {
            Some(p) => forall|signed: bool, lo: int, hi: int|
                -0x8000_0000_0000_0000 <= lo && hi <= 0xffff_ffff_ffff_ffff ==> #[trigger]
                    spec_parse_int(t@, signed, lo, hi) == ({
                    let v: int = if p.0 {
                        -(p.1 as int)
                    } else {
                        p.1 as int
                    };
                    if p.0 && !signed {
                        None
                    } else if lo <= v <= hi {
                        Some(v)
                    } else {
                        None
                    }
                }),
            None => forall|signed: bool, lo: int, hi: int|
                -0x8000_0000_0000_0000 <= lo && hi <= 0xffff_ffff_ffff_ffff ==> #[trigger]
                    spec_parse_int(t@, signed, lo, hi) is None,
        },
{
    let n = t.len();
    if n == 0 {
        return None;
    }
    let neg = t[0] == 0x2d;
    let has_sign = neg || t[0] == 0x2b;
    let digits: &[u8] = if has_sign {
        &t[1..n]
    } else {
        t
    };
    proof {
        if has_sign {
            assert(digits@ =~= t@.skip(1));
        }
    }
    if digits.len() == 0 {
        return None;
    }
    match parse_dec_mag(digits) {
        Some(m) => {
            proof {
                lemma_dec_val_nonneg(digits@);
            }
            Some((neg, m))
        },
        None => {
            proof {
                lemma_dec_val_nonneg(digits@);
            }
            None
        },
    }
}

// --- Typed literals ---

/// What a user-supplied literal parses to at a kind: empty input (after
/// trimming) is its own error; a wrong shape or an out-of-range value is
/// malformed. Floating-point literals are the embedding application's to
/// parse — the core holds no float arithmetic — so the float kinds report
/// malformed here.
pub open spec fn spec_parse_value(s: Seq<u8>, vt: ValueType) -> Result<Value, ParseError> {
    let t = spec_trim(s);
    if t.len() == 0 {
        Err(ParseError::Empty)
    } else {
        match vt {
            ValueType::I8 => match spec_parse_int(t, true, -0x80, 0x7f) {
                Some(v) => Ok(Value::I8(v as i8)),
                None => Err(ParseError::Malformed),
            },
            ValueType::I16 => match spec_parse_int(t, true, -0x8000, 0x7fff) {
                Some(v) => Ok(Value::I16(v as i16)),
                None => Err(ParseError::Malformed),
            },
            ValueType::I32 => match spec_parse_int(t, true, -0x8000_0000, 0x7fff_ffff) {
                Some(v) => Ok(Value::I32(v as i32)),
                None => Err(ParseError::Malformed),
            },
            ValueType::I64 => match spec_parse_int(
                t,
                true,
                -0x8000_0000_0000_0000,
                0x7fff_ffff_ffff_ffff,
            ) {
                Some(v) => Ok(Value::I64(v as i64)),
                None => Err(ParseError::Malformed),
            },
            ValueType::U8 => match spec_parse_int(t, false, 0, 0xff) {
                Some(v) => Ok(Value::U8(v as u8)),
                None => Err(ParseError::Malformed),
            },
            ValueType::U16 => match spec_parse_int(t, false, 0, 0xffff) {
                Some(v) => Ok(Value::U16(v as u16)),
                None => Err(ParseError::Malformed),
            },
            ValueType::U32 => match spec_parse_int(t, false, 0, 0xffff_ffff) {
                Some(v) => Ok(Value::U32(v as u32)),
                None => Err(ParseError::Malformed),
            },
            ValueType::U64 => match spec_parse_int(t, false, 0, 0xffff_ffff_ffff_ffff) {
                Some(v) => Ok(Value::U64(v as u64)),
                None => Err(ParseError::Malformed),
            },
            ValueType::F32 | ValueType::F64 => Err(ParseError::Malformed),
        }
    }
}

/// Parse a user-supplied literal as a value of the given integer kind.
/// The float kinds carry no integer literal; the embedding application
/// parses those itself.
pub fn parse_value_for_type(value_str: &[u8], value_type: ValueType) -> (r: Result<
    Value,
    ParseError,
>)
    requires
        !value_type.spec_is_float(),
    ensures
        r == spec_parse_value(value_str@, value_type),
{
    let t = trim_bytes(value_str);
    if t.len() == 0 {
        return Err(ParseError::Empty);
    }
    let (neg, m) = match parse_sign_mag(t) {
        Some(p) => p,
        None => {
            return Err(ParseError::Malformed);
        },
    };
    match value_type {
        ValueType::I8 => {
            if neg {
                if m <= 0x80 {
                    Ok(Value::I8((-(m as i64)) as i8))
                } else {
                    Err(ParseError::Malformed)
                }
            } else if m <= 0x7f {
                Ok(Value::I8(m as i8))
            } else {
                Err(ParseError::Malformed)
            }
        },
        ValueType::I16 => {
            if neg {
                if m <= 0x8000 {
                    Ok(Value::I16((-(m as i64)) as i16))
                } else {
                    Err(ParseError::Malformed)
                }
            } else if m <= 0x7fff {
                Ok(Value::I16(m as i16))
            } else {
                Err(ParseError::Malformed)
            }
        },
        ValueType::I32 => {
            if neg {
                if m <= 0x8000_0000 {
                    Ok(Value::I32((-(m as i64)) as i32))
                } else {
                    Err(ParseError::Malformed)
                }
            } else if m <= 0x7fff_ffff {
                Ok(Value::I32(m as i32))
            } else {
                Err(ParseError::Malformed)
            }
        },
        ValueType::I64 => {
            if neg {
                if m <= 0x7fff_ffff_ffff_ffff {
                    Ok(Value::I64(-(m as i64)))
                } else if m == 0x8000_0000_0000_0000 {
                    Ok(Value::I64(i64::MIN))
                } else {
                    Err(ParseError::Malformed)
                }
            } else if m <= 0x7fff_ffff_ffff_ffff {
                Ok(Value::I64(m as i64))
            } else {
                Err(ParseError::Malformed)
            }
        },
        ValueType::U8 => {
            if neg {
                Err(ParseError::Malformed)
            } else if m <= 0xff {
                Ok(Value::U8(m as u8))
            } else {
                Err(ParseError::Malformed)
            }
        },
        ValueType::U16 => {
            if neg {
                Err(ParseError::Malformed)
            } else if m <= 0xffff {
                Ok(Value::U16(m as u16))
            } else {
                Err(ParseError::Malformed)
            }
        },
        ValueType::U32 => {
            if neg {
                Err(ParseError::Malformed)
            } else if m <= 0xffff_ffff {
                Ok(Value::U32(m as u32))
            } else {
                Err(ParseError::Malformed)
            }
        },
        ValueType::U64 => {
            if neg {
                Err(ParseError::Malformed)
            } else {
                Ok(Value::U64(m))
            }
        },
        ValueType::F32 | ValueType::F64 => Err(ParseError::Malformed),
    }
}

// --- Saved addresses ---

/// An address the user pinned, with its own kind, a description, and a
/// freeze mark; its recorded value is refreshed periodically.
#[derive(Debug, Clone)]
pub struct SavedAddress {
    pub address: usize,
    pub description: String,
    pub value: Value,
    pub value_type: ValueType,
    pub frozen: bool,
}

/// How a live refresh may change one saved entry: everything but the
/// recorded value stays, and the value is either untouched or a value of
/// the entry's kind decoded from a full-width read of its address.
pub open spec fn refreshed_saved(o: SavedAddress, n: SavedAddress) -> bool {
    &&& n.address == o.address
    &&& n.description == o.description
    &&& n.value_type == o.value_type
    &&& n.frozen == o.frozen
    &&& (n.value == o.value || exists|b: Seq<u8>|
        b.len() == o.value_type.spec_size() && Some(n.value) == #[trigger] spec_decode(
            b,
            o.value_type,
        ))
}

/// The same for a watched scan result, which carries the session's scan
/// kind.
pub open spec fn refreshed_found(o: FoundAddress, n: FoundAddress, vt: ValueType) -> bool {
    &&& n.address == o.address
    &&& (n.value == o.value || exists|b: Seq<u8>|
        b.len() == vt.spec_size() && Some(n.value) == #[trigger] spec_decode(b, vt))
}

/// At most this many watched scan results are re-read per refresh cycle.
pub const MAX_LIVE_REFRESH: usize = 1000;

// --- The session ---

/// One scanning session: created on process selection, reset by an
/// explicit new scan, replaced wholesale on process reselection. The
/// first completed scan moves it from the first-scan phase to the
/// refinement phase.
pub struct ScanSession {
    /// The kind the next scan will look for.
    pub value_type: ValueType,
    /// The criterion the next scan will apply.
    pub scan_type: ScanType,
    /// Whether the next scan is a first scan (no baseline values yet).
    pub first_scan: bool,
    /// Whether a scan is running right now.
    pub is_scanning: bool,
    /// The addresses the scans so far have narrowed down to.
    pub scan_results: Vec<FoundAddress>,
    /// The kind `scan_results` was produced at (the kind picker may have
    /// moved since).
    pub scan_value_type: ValueType,
    /// The user's pinned addresses.
    pub saved_addresses: Vec<SavedAddress>,
    /// Bytes scanned so far, accumulated from the progress stream.
    pub progress_current: usize,
    /// Total scannable bytes of the running scan.
    pub progress_total: usize,
}

impl ScanSession {
    /// A fresh session: first scan ahead, nothing found, nothing saved.
    pub fn new() -> (r: Self)
        ensures
            r.value_type == ValueType::I32,
            r.scan_type == ScanType::ExactValue,
            r.first_scan,
            !r.is_scanning,
            r.scan_results@ =~= Seq::<FoundAddress>::empty(),
            r.scan_value_type == ValueType::I32,
            r.saved_addresses@ =~= Seq::<SavedAddress>::empty(),
            r.progress_current == 0,
            r.progress_total == 0,
    {
        ScanSession {
            value_type: ValueType::I32,
            scan_type: ScanType::ExactValue,
            first_scan: true,
            is_scanning: false,
            scan_results: Vec::new(),
            scan_value_type: ValueType::I32,
            saved_addresses: Vec::new(),
            progress_current: 0,
            progress_total: 0,
        }
    }

    /// Whether the selected criterion needs a user-supplied literal.
    pub fn scan_type_needs_value(&self) -> (r: bool)
        ensures
            r == self.scan_type.spec_needs_value(),
    {
        self.scan_type.needs_value()
    }

    /// Whether the selected criterion is admissible in the session's
    /// phase: on a first scan only the first-scan criteria are; on a
    /// refinement every criterion is (an unknown initial value falls back
    /// to matching everything).
    pub fn criterion_valid(&self) -> (r: bool)
        ensures
            r == (self.first_scan ==> self.scan_type.spec_valid_first()),
    {
        !self.first_scan || self.scan_type.valid_first()
    }

    /// Enter the scanning state: results and progress cleared, everything
    /// else kept.
    pub fn begin_scan(&mut self)
        ensures
            final(self).is_scanning,
            final(self).scan_results@ =~= Seq::<FoundAddress>::empty(),
            final(self).progress_current == 0,
            final(self).progress_total == 0,
            final(self).value_type == old(self).value_type,
            final(self).scan_type == old(self).scan_type,
            final(self).first_scan == old(self).first_scan,
            final(self).scan_value_type == old(self).scan_value_type,
            final(self).saved_addresses == old(self).saved_addresses,
    {
        self.is_scanning = true;
        self.scan_results = Vec::new();
        self.progress_current = 0;
        self.progress_total = 0;
    }

    /// Take one delivered batch into the results, in arrival order.
    pub fn absorb_batch(&mut self, batch: Vec<FoundAddress>)
        ensures
            final(self).scan_results@ == old(self).scan_results@ + batch@,
            final(self).value_type == old(self).value_type,
            final(self).scan_type == old(self).scan_type,
            final(self).first_scan == old(self).first_scan,
            final(self).is_scanning == old(self).is_scanning,
            final(self).scan_value_type == old(self).scan_value_type,
            final(self).saved_addresses == old(self).saved_addresses,
            final(self).progress_current == old(self).progress_current,
            final(self).progress_total == old(self).progress_total,
    {
        let mut b = batch;
        self.scan_results.append(&mut b);
    }

    /// Take one progress tuple: the first component is a freshly finished
    /// region's bytes and accumulates (saturating) into bytes scanned so
    /// far; the second is the scan's total.
    pub fn absorb_progress(&mut self, delta: usize, total: usize)
        ensures
            final(self).progress_total == total,
            final(self).progress_current == if old(self).progress_current + delta <= usize::MAX {
                old(self).progress_current + delta
            } else {
                usize::MAX as int
            },
            final(self).scan_results == old(self).scan_results,
            final(self).value_type == old(self).value_type,
            final(self).scan_type == old(self).scan_type,
            final(self).first_scan == old(self).first_scan,
            final(self).is_scanning == old(self).is_scanning,
            final(self).scan_value_type == old(self).scan_value_type,
            final(self).saved_addresses == old(self).saved_addresses,
    {
        self.progress_total = total;
        self.progress_current = match self.progress_current.checked_add(delta) {
            Some(v) => v,
            None => usize::MAX,
        };
    }

    /// Take the scan's one completion signal. On success the session
    /// leaves the first-scan phase, records the kind the results were
    /// produced at, and rounds the progress up to its total; on failure it
    /// only stops scanning.
    pub fn finish_scan(&mut self, success: bool)
        ensures
            !final(self).is_scanning,
            final(self).scan_results == old(self).scan_results,
            final(self).value_type == old(self).value_type,
            final(self).scan_type == old(self).scan_type,
            final(self).saved_addresses == old(self).saved_addresses,
            success ==> !final(self).first_scan && final(self).scan_value_type == old(self).value_type && final(self).progress_current == (if old(self).progress_total > 0 {
                old(self).progress_total as int
            } else {
                old(self).progress_current as int
            }) && final(self).progress_total == old(self).progress_total,
            !success ==> final(self).first_scan == old(self).first_scan && final(self).scan_value_type
                == old(self).scan_value_type && final(self).progress_current == old(self).progress_current && final(self).progress_total == old(self).progress_total,
    {
        self.is_scanning = false;
        if success {
            self.first_scan = false;
            self.scan_value_type = self.value_type;
            if self.progress_total > 0 {
                self.progress_current = self.progress_total;
            }
        }
    }

    /// An explicit new scan: back to the first-scan phase with no
    /// results; the saved addresses and the pickers stay.
    pub fn new_scan(&mut self)
        ensures
            final(self).first_scan,
            !final(self).is_scanning,
            final(self).scan_results@ =~= Seq::<FoundAddress>::empty(),
            final(self).progress_current == 0,
            final(self).progress_total == 0,
            final(self).value_type == old(self).value_type,
            final(self).scan_type == old(self).scan_type,
            final(self).scan_value_type == old(self).scan_value_type,
            final(self).saved_addresses == old(self).saved_addresses,
    {
        self.scan_results = Vec::new();
        self.first_scan = true;
        self.is_scanning = false;
        self.progress_current = 0;
        self.progress_total = 0;
    }

    /// Pin one scan result onto the saved list, described as yet
    /// undescribed, unfrozen, at the session's selected kind. An index
    /// beyond the results changes nothing.
    pub fn save_result(&mut self, index: usize)
        ensures
            final(self).scan_results == old(self).scan_results,
            final(self).value_type == old(self).value_type,
            final(self).scan_type == old(self).scan_type,
            final(self).first_scan == old(self).first_scan,
            final(self).is_scanning == old(self).is_scanning,
            final(self).scan_value_type == old(self).scan_value_type,
            final(self).progress_current == old(self).progress_current,
            final(self).progress_total == old(self).progress_total,
            index < old(self).scan_results@.len() ==> {
                &&& final(self).saved_addresses@.len() == old(self).saved_addresses@.len() + 1
                &&& final(self).saved_addresses@.drop_last() == old(self).saved_addresses@
                &&& final(self).saved_addresses@.last().address == old(self).scan_results@[index as int].address
                &&& final(self).saved_addresses@.last().value == old(self).scan_results@[index as int].value
                &&& final(self).saved_addresses@.last().value_type == old(self).value_type
                &&& !final(self).saved_addresses@.last().frozen
            },
            index >= old(self).scan_results@.len() ==> final(self).saved_addresses == old(self).saved_addresses,
    {
        if index < self.scan_results.len() {
            let found = self.scan_results[index];
            let entry = SavedAddress {
                address: found.address,
                description: String::new(),
                value: found.value,
                value_type: self.value_type,
                frozen: false,
            };
            proof {
                assert(self.saved_addresses@.push(entry).drop_last() =~= self.saved_addresses@);
            }
            self.saved_addresses.push(entry);
        }
    }

    /// Write a new value over a saved entry's address and record it as
    /// the entry's value. An explicit, user-driven write: a failure
    /// surfaces as it came, with nothing recorded. An index beyond the
    /// list changes nothing.
    pub fn write_saved_value(&mut self, reader: &MemoryReader, index: usize, new_value: Value) -> (r:
        Result<(), MemoryError>)
        ensures
            final(self).scan_results == old(self).scan_results,
            final(self).saved_addresses@.len() == old(self).saved_addresses@.len(),
            forall|k: int|
                0 <= k < old(self).saved_addresses@.len() && k != index ==> final(self).saved_addresses@[k] == #[trigger] old(self).saved_addresses@[k],
            r is Ok && index < old(self).saved_addresses@.len() ==> {
                let o = old(self).saved_addresses@[index as int];
                let n = final(self).saved_addresses@[index as int];
                n.address == o.address && n.description == o.description && n.value_type
                    == o.value_type && n.frozen == o.frozen && n.value == new_value
            },
            r is Err ==> final(self).saved_addresses@ == old(self).saved_addresses@,
    {
        if index >= self.saved_addresses.len() {
            return Ok(());
        }
        let ghost before = self.saved_addresses@;
        let mut entry = self.saved_addresses.remove(index);
        let ghost original = entry;
        let bytes = new_value.to_bytes();
        match reader.write_memory(entry.address, bytes.as_slice()) {
            Ok(_) => {
                entry.value = new_value;
                let ghost updated = entry;
                self.saved_addresses.insert(index, entry);
                proof {
                    assert(self.saved_addresses@ =~= before.update(index as int, updated));
                }
                Ok(())
            },
            Err(e) => {
                self.saved_addresses.insert(index, entry);
                proof {
                    assert(self.saved_addresses@ =~= before);
                }
                Err(e)
            },
        }
    }
}

impl ScanSession {
    /// One periodic live-refresh cycle: re-read every saved address (each
    /// at its own kind) and up to [`MAX_LIVE_REFRESH`] watched scan
    /// results (at the kind they were scanned at), overwriting each
    /// recorded value with what its address holds now. The entry the
    /// caller marks as being edited is skipped this cycle, so in-flight
    /// input is not clobbered; a failed or short read leaves its entry
    /// untouched — periodic refresh skips silently on failure.
    pub fn refresh_live_values(&mut self, reader: &MemoryReader, editing: Option<usize>)
        ensures
            final(self).value_type == old(self).value_type,
            final(self).scan_type == old(self).scan_type,
            final(self).first_scan == old(self).first_scan,
            final(self).is_scanning == old(self).is_scanning,
            final(self).scan_value_type == old(self).scan_value_type,
            final(self).progress_current == old(self).progress_current,
            final(self).progress_total == old(self).progress_total,
            final(self).saved_addresses@.len() == old(self).saved_addresses@.len(),
            forall|k: int|
                0 <= k < old(self).saved_addresses@.len() ==> refreshed_saved(
                    old(self).saved_addresses@[k],
                    #[trigger] final(self).saved_addresses@[k],
                ),
            forall|k: int|
                0 <= k < old(self).saved_addresses@.len() && editing == Some(k as usize) ==> final(self).saved_addresses@[k] == old(self).saved_addresses@[k],
            final(self).scan_results@.len() == old(self).scan_results@.len(),
            forall|k: int|
                0 <= k < old(self).scan_results@.len() ==> refreshed_found(
                    old(self).scan_results@[k],
                    #[trigger] final(self).scan_results@[k],
                    old(self).scan_value_type,
                ),
            forall|k: int|
                MAX_LIVE_REFRESH <= k < old(self).scan_results@.len() ==> final(self).scan_results@[k] == old(self).scan_results@[k],
    {
        let ghost orig = *self;
        let mut i: usize = 0;
        while i < self.saved_addresses.len()
            invariant
                i <= self.saved_addresses@.len(),
                self.saved_addresses@.len() == orig.saved_addresses@.len(),
                self.value_type == orig.value_type,
                self.scan_type == orig.scan_type,
                self.first_scan == orig.first_scan,
                self.is_scanning == orig.is_scanning,
                self.scan_value_type == orig.scan_value_type,
                self.progress_current == orig.progress_current,
                self.progress_total == orig.progress_total,
                self.scan_results == orig.scan_results,
                forall|k: int|
                    0 <= k < i ==> refreshed_saved(
                        orig.saved_addresses@[k],
                        #[trigger] self.saved_addresses@[k],
                    ),
                forall|k: int|
                    0 <= k < i && editing == Some(k as usize) ==> self.saved_addresses@[k]
                        == orig.saved_addresses@[k],
                forall|k: int|
                    i <= k < orig.saved_addresses@.len() ==> #[trigger] self.saved_addresses@[k]
                        == orig.saved_addresses@[k],
            decreases self.saved_addresses@.len() - i,
        {
            let skip = match editing {
                Some(e) => e == i,
                None => false,
            };
            if !skip {
                let ghost snap = self.saved_addresses@;
                let mut entry = self.saved_addresses.remove(i);
                let width = entry.value_type.size();
                match reader.read_value(entry.address, width) {
                    Ok(data) => {
                        match Value::from_bytes(data.as_slice(), entry.value_type) {
                            Some(v) => {
                                proof {
                                    assert(data@.len() == entry.value_type.spec_size());
                                    assert(Some(v) == spec_decode(data@, entry.value_type));
                                }
                                entry.value = v;
                            },
                            None => {},
                        }
                    },
                    Err(_) => {},
                }
                let ghost updated = entry;
                self.saved_addresses.insert(i, entry);
                proof {
                    assert(self.saved_addresses@ =~= snap.update(i as int, updated));
                    assert(refreshed_saved(orig.saved_addresses@[i as int], updated));
                }
            }
            i = i + 1;
        }
        let limit: usize = if self.scan_results.len() < MAX_LIVE_REFRESH {
            self.scan_results.len()
        } else {
            MAX_LIVE_REFRESH
        };
        let vt = self.scan_value_type;
        let width = vt.size();
        let mut j: usize = 0;
        while j < limit
            invariant
                j <= limit,
                limit <= self.scan_results@.len(),
                vt == orig.scan_value_type,
                width == vt.spec_size(),
                self.scan_results@.len() == orig.scan_results@.len(),
                self.value_type == orig.value_type,
                self.scan_type == orig.scan_type,
                self.first_scan == orig.first_scan,
                self.is_scanning == orig.is_scanning,
                self.scan_value_type == orig.scan_value_type,
                self.progress_current == orig.progress_current,
                self.progress_total == orig.progress_total,
                self.saved_addresses@.len() == orig.saved_addresses@.len(),
                forall|k: int|
                    0 <= k < orig.saved_addresses@.len() ==> refreshed_saved(
                        orig.saved_addresses@[k],
                        #[trigger] self.saved_addresses@[k],
                    ),
                forall|k: int|
                    0 <= k < orig.saved_addresses@.len() && editing == Some(k as usize)
                        ==> self.saved_addresses@[k] == orig.saved_addresses@[k],
                forall|k: int|
                    0 <= k < j ==> refreshed_found(
                        orig.scan_results@[k],
                        #[trigger] self.scan_results@[k],
                        orig.scan_value_type,
                    ),
                forall|k: int|
                    j <= k < orig.scan_results@.len() ==> #[trigger] self.scan_results@[k]
                        == orig.scan_results@[k],
            decreases limit - j,
        {
            let ghost snap = self.scan_results@;
            let mut found = self.scan_results.remove(j);
            match reader.read_value(found.address, width) {
                Ok(data) => {
                    match Value::from_bytes(data.as_slice(), vt) {
                        Some(v) => {
                            proof {
                                assert(data@.len() == vt.spec_size());
                                assert(Some(v) == spec_decode(data@, vt));
                            }
                            found.value = v;
                        },
                        None => {},
                    }
                },
                Err(_) => {},
            }
            let ghost updated = found;
            self.scan_results.insert(j, found);
            proof {
                assert(self.scan_results@ =~= snap.update(j as int, updated));
                assert(refreshed_found(orig.scan_results@[j as int], updated, orig.scan_value_type));
            }
            j = j + 1;
        }
    }
}

} // verus!
