//! Processes and their memory maps: region descriptors and the parser for
//! the kernel's per-process region table (one text row per region). Rows
//! that do not match the expected shape are silently skipped; a partial
//! parse failure never aborts the whole listing.

use vstd::prelude::*;

verus! {

/// Why a process's region table could not be obtained at all. Opening and
/// reading the table is operating-system work that the embedding
/// application performs; it reports a failure with this type.
#[derive(Debug, Clone, Copy, PartialEq, Eq, Structural)]
pub enum ProcessError {
    /// The table could not be opened or read.
    SystemIO,
}

/// A process as the process picker lists it.
#[derive(Debug, Clone)]
pub struct Process {
    pub pid: i32,
    pub name: String,
}

impl Process {
    pub fn new(pid: i32, name: String) -> (r: Process)
        ensures
            r.pid == pid,
            r.name == name,
    {
        Process { pid, name }
    }
}

/// A contiguous virtual-address range of the target process with uniform
/// access permissions. Re-derived on every scan, never cached across scans.
#[derive(Debug, Clone)]
pub struct MemoryRegion {
    /// First address of the range.
    pub start: usize,
    /// One past the last address of the range.
    pub end: usize,
    pub readable: bool,
    pub writable: bool,
    pub executable: bool,
    /// Offset into the backing file.
    pub offset: usize,
    /// Path of the backing file, if the row named one; empty otherwise.
    pub pathname: Vec<u8>,
}

impl MemoryRegion {
    /// A region never runs backwards: the parser only produces such
    /// regions, and every consumer expects them.
    pub open spec fn wf(self) -> bool {
        self.start <= self.end
    }

    pub open spec fn spec_size(self) -> nat {
        (self.end - self.start) as nat
    }

    /// Length of the range in bytes.
    pub fn size(&self) -> (n: usize)
        requires
            self.wf(),
        ensures
            n == self.spec_size(),
    {
        self.end - self.start
    }
}

/// The mathematical content of a [`MemoryRegion`]: the same fields with
/// the path as a byte sequence.
pub ghost struct RegionData {
    pub start: usize,
    pub end: usize,
    pub readable: bool,
    pub writable: bool,
    pub executable: bool,
    pub offset: usize,
    pub pathname: Seq<u8>,
}

impl RegionData {
    pub open spec fn wf(self) -> bool {
        self.start <= self.end
    }

    pub open spec fn spec_size(self) -> nat {
        (self.end - self.start) as nat
    }
}

impl View for MemoryRegion {
    type V = RegionData;

    open spec fn view(&self) -> RegionData {
        RegionData {
            start: self.start,
            end: self.end,
            readable: self.readable,
            writable: self.writable,
            executable: self.executable,
            offset: self.offset,
            pathname: self.pathname@,
        }
    }
}

// --- Tokenization of a table row ---

/// Horizontal whitespace that separates the columns of a row.
pub open spec fn is_ws(b: u8) -> bool {
    b == 0x20 || b == 0x09
}

/// Length of the leading run of non-whitespace bytes.
pub open spec fn token_len(s: Seq<u8>) -> nat
    decreases s.len(),
{
    if s.len() == 0 || is_ws(s[0]) {
        0
    } else {
        1 + token_len(s.skip(1))
    }
}

proof fn lemma_token_len_le(s: Seq<u8>)
    ensures
        token_len(s) <= s.len(),
    decreases s.len(),
{
    if s.len() == 0 || is_ws(s[0]) {
    } else {
        lemma_token_len_le(s.skip(1));
    }
}

/// The whitespace-separated tokens of `s`, in order.
pub open spec fn spec_tokens(s: Seq<u8>) -> Seq<Seq<u8>>
    decreases s.len(),
    via spec_tokens_dec
{
    if s.len() == 0 {
        Seq::empty()
    } else if is_ws(s[0]) {
        spec_tokens(s.skip(1))
    } else {
        seq![s.take(token_len(s) as int)] + spec_tokens(s.skip(token_len(s) as int))
    }
}

#[via_fn]
proof fn spec_tokens_dec(s: Seq<u8>) {
    lemma_token_len_le(s);
}

proof fn lemma_token_len_run(s: Seq<u8>, m: nat)
    requires
        m <= s.len(),
        forall|k: int| 0 <= k < m ==> !is_ws(s[k]),
        m == s.len() || is_ws(s[m as int]),
    ensures
        token_len(s) == m,
    decreases m,
{
    if m == 0 {
    } else {
        assert(!is_ws(s[0]));
        let t = s.skip(1);
        assert(forall|k: int| 0 <= k < m - 1 ==> t[k] == s[k + 1] && !is_ws(t[k]));
        lemma_token_len_run(t, (m - 1) as nat);
    }
}

fn tokenize(line: &[u8]) -> (r: Vec<Vec<u8>>)
    ensures
        r@.map_values(|t: Vec<u8>| t@) == spec_tokens(line@),
{
    let n = line.len();
    let mut out: Vec<Vec<u8>> = Vec::new();
    let mut i: usize = 0;
    proof {
        assert(line@.skip(0) =~= line@);
        assert(out@.map_values(|t: Vec<u8>| t@) =~= Seq::<Seq<u8>>::empty());
    }
    while i < n
        invariant
            i <= n,
            n == line@.len(),
            spec_tokens(line@) == out@.map_values(|t: Vec<u8>| t@) + spec_tokens(
                line@.skip(i as int),
            ),
        decreases n - i,
    {
        if line[i] == 0x20 || line[i] == 0x09 {
            proof {
                assert(line@.skip(i as int).skip(1) =~= line@.skip(i as int + 1));
            }
            i = i + 1;
        } else {
            let ghost suffix = line@.skip(i as int);
            let mut j: usize = i + 1;
            while j < n && !(line[j] == 0x20 || line[j] == 0x09)
                invariant
                    i < j <= n,
                    n == line@.len(),
                    forall|k: int| i <= k < j ==> !is_ws(line@[k]),
                decreases n - j,
            {
                j = j + 1;
            }
            proof {
                assert(forall|k: int|
                    0 <= k < j - i ==> suffix[k] == line@[i + k] && !is_ws(suffix[k]));
                assert(j < n ==> is_ws(suffix[(j - i) as int]));
                lemma_token_len_run(suffix, (j - i) as nat);
            }
            let mut tok: Vec<u8> = Vec::new();
            let mut k: usize = i;
            while k < j
                invariant
                    i <= k <= j <= n,
                    n == line@.len(),
                    tok@ == line@.subrange(i as int, k as int),
                decreases j - k,
            {
                proof {
                    assert(line@.subrange(i as int, k as int + 1) =~= line@.subrange(
                        i as int,
                        k as int,
                    ).push(line@[k as int]));
                }
                tok.push(line[k]);
                k = k + 1;
            }
            proof {
                assert(tok@ =~= suffix.take((j - i) as int));
                assert(suffix.skip((j - i) as int) =~= line@.skip(j as int));
                let f = |t: Vec<u8>| t@;
                assert((out@ + seq![tok]).map_values(f) =~= out@.map_values(f) + seq![tok@]);
                assert(out@.push(tok) =~= out@ + seq![tok]);
                assert(out@.map_values(f) + (seq![tok@] + spec_tokens(line@.skip(j as int)))
                    =~= (out@.map_values(f) + seq![tok@]) + spec_tokens(line@.skip(j as int)));
            }
            out.push(tok);
            i = j;
        }
    }
    proof {
        assert(line@.skip(n as int) =~= Seq::<u8>::empty());
    }
    out
}

// --- Hexadecimal numbers ---

/// The numeric value of one hexadecimal digit, either case.
pub open spec fn spec_hex_digit(b: u8) -> Option<int> {
    if 0x30 <= b <= 0x39 {
        Some(b - 0x30)
    } else if 0x61 <= b <= 0x66 {
        Some(b - 0x61 + 10)
    } else if 0x41 <= b <= 0x46 {
        Some(b - 0x41 + 10)
    } else {
        None
    }
}

/// The unbounded value of a hexadecimal digit string: `None` as soon as any
/// byte is not a digit. The empty string has value 0.
pub open spec fn hex_val(t: Seq<u8>) -> Option<int>
    decreases t.len(),
{
    if t.len() == 0 {
        Some(0)
    } else {
        match (hex_val(t.drop_last()), spec_hex_digit(t.last())) {
            (Some(v), Some(d)) => Some(v * 16 + d),
            _ => None,
        }
    }
}

/// What parsing a hexadecimal token as an address yields: the value when
/// the token is nonempty, all digits, and the value fits the machine word;
/// nothing otherwise.
pub open spec fn spec_hex(t: Seq<u8>) -> Option<int> {
    if t.len() == 0 {
        None
    } else {
        match hex_val(t) {
            Some(v) => if v <= usize::MAX as int {
                Some(v)
            } else {
                None
            },
            None => None,
        }
    }
}

proof fn lemma_hex_val_nonneg(t: Seq<u8>)
    ensures
        hex_val(t) matches Some(v) ==> v >= 0,
    decreases t.len(),
{
    if t.len() > 0 {
        lemma_hex_val_nonneg(t.drop_last());
    }
}

/// A longer digit string never has a smaller value.
proof fn lemma_hex_val_monotone(t: Seq<u8>, i: int)
    requires
        0 <= i <= t.len(),
        hex_val(t) is Some,
    ensures
        hex_val(t.take(i)) matches Some(p) && p <= hex_val(t)->Some_0,
    decreases t.len() - i,
{
    if i == t.len() {
        assert(t.take(i) =~= t);
    } else {
        lemma_hex_val_monotone(t, i + 1);
        let u = t.take(i + 1);
        assert(u.drop_last() =~= t.take(i));
        assert(u.last() == t[i]);
        lemma_hex_val_nonneg(t.take(i));
        lemma_hex_val_nonneg(t.take(i + 1));
    }
}

/// If any byte is not a hexadecimal digit, the whole string has no value.
proof fn lemma_hex_val_bad_digit(t: Seq<u8>, i: int)
    requires
        0 <= i < t.len(),
        spec_hex_digit(t[i]) is None,
    ensures
        hex_val(t) is None,
    decreases t.len(),
{
    if i == t.len() - 1 {
    } else {
        assert(t.drop_last()[i] == t[i]);
        lemma_hex_val_bad_digit(t.drop_last(), i);
    }
}

fn hex_digit(b: u8) -> (r: Option<u8>)
    ensures
        match r {
            Some(d) => spec_hex_digit(b) == Some(d as int),
            None => spec_hex_digit(b) is None,
        },
{
    if 0x30 <= b && b <= 0x39 {
        Some(b - 0x30)
    } else if 0x61 <= b && b <= 0x66 {
        Some(b - 0x61 + 10)
    } else if 0x41 <= b && b <= 0x46 {
        Some(b - 0x41 + 10)
    } else {
        None
    }
}

/// Parse a hexadecimal token: the address value when the token is nonempty,
/// entirely digits, and in range; `None` otherwise.
fn parse_hex(t: &[u8]) -> (r: Option<usize>)
    ensures
        match r {
            Some(v) => spec_hex(t@) == Some(v as int),
            None => spec_hex(t@) is None,
        },
{
    let n = t.len();
    if n == 0 {
        return None;
    }
    let mut acc: usize = 0;
    let mut i: usize = 0;
    proof {
        assert(t@.take(0) =~= Seq::<u8>::empty());
    }
    while i < n
        invariant
            i <= n,
            n == t@.len(),
            hex_val(t@.take(i as int)) == Some(acc as int),
        decreases n - i,
    {
        let ghost prefix = t@.take(i as int);
        proof {
            assert(t@.take(i as int + 1).drop_last() =~= prefix);
            assert(t@.take(i as int + 1).last() == t@[i as int]);
        }
        match hex_digit(t[i]) {
            Some(d) => {
                let widened = match acc.checked_mul(16) {
                    Some(m) => m.checked_add(d as usize),
                    None => None,
                };
                match widened {
                    Some(next) => {
                        acc = next;
                    },
                    None => {
                        proof {
                            if hex_val(t@) is Some {
                                lemma_hex_val_monotone(t@, i as int + 1);
                            }
                        }
                        return None;
                    },
                }
            },
            None => {
                proof {
                    lemma_hex_val_bad_digit(t@, i as int);
                }
                return None;
            },
        }
        i = i + 1;
    }
    proof {
        assert(t@.take(n as int) =~= t@);
    }
    Some(acc)
}

// --- Splitting the address token on its dash ---

/// How many times `c` occurs in `t`.
pub open spec fn count_byte(t: Seq<u8>, c: u8) -> nat
    decreases t.len(),
{
    if t.len() == 0 {
        0
    } else {
        (if t[0] == c {
            1nat
        } else {
            0nat
        }) + count_byte(t.skip(1), c)
    }
}

/// The two sides of `t` around a separator that occurs exactly once:
/// `None` when it occurs never or more than once.
pub open spec fn spec_split_once(t: Seq<u8>, c: u8) -> Option<(Seq<u8>, Seq<u8>)>
    decreases t.len(),
{
    if t.len() == 0 {
        None
    } else if t[0] == c {
        if count_byte(t.skip(1), c) == 0 {
            Some((Seq::empty(), t.skip(1)))
        } else {
            None
        }
    } else {
        match spec_split_once(t.skip(1), c) {
            Some((a, b)) => Some((seq![t[0]] + a, b)),
            None => None,
        }
    }
}

proof fn lemma_split_once_at(t: Seq<u8>, c: u8, i: int)
    requires
        0 <= i < t.len(),
        t[i] == c,
        forall|k: int| 0 <= k < i ==> t[k] != c,
        count_byte(t.skip(i + 1), c) == 0,
    ensures
        spec_split_once(t, c) == Some((t.take(i), t.skip(i + 1))),
    decreases i,
{
    if i == 0 {
        assert(t.skip(1) =~= t.skip(i + 1));
        assert(t.take(0) =~= Seq::<u8>::empty());
    } else {
        let u = t.skip(1);
        assert(forall|k: int| 0 <= k < i - 1 ==> u[k] == t[k + 1] && u[k] != c);
        assert(u.skip(i) =~= t.skip(i + 1));
        lemma_split_once_at(u, c, i - 1);
        assert(seq![t[0]] + u.take(i - 1) =~= t.take(i));
    }
}

proof fn lemma_split_once_none(t: Seq<u8>, c: u8)
    requires
        count_byte(t, c) != 1,
    ensures
        spec_split_once(t, c) is None,
    decreases t.len(),
{
    if t.len() == 0 {
    } else if t[0] == c {
    } else {
        lemma_split_once_none(t.skip(1), c);
    }
}

proof fn lemma_count_byte_suffix(t: Seq<u8>, c: u8, i: int)
    requires
        0 <= i < t.len(),
    ensures
        count_byte(t.skip(i), c) == (if t[i] == c {
            1nat
        } else {
            0nat
        }) + count_byte(t.skip(i + 1), c),
{
    assert(t.skip(i).skip(1) =~= t.skip(i + 1));
    assert(t.skip(i)[0] == t[i]);
}

/// Split `t` at a separator byte that must occur exactly once, yielding the
/// bytes before and after it.
fn split_once(t: &[u8], c: u8) -> (r: Option<(Vec<u8>, Vec<u8>)>)
    ensures
        match r {
            Some(p) => spec_split_once(t@, c) == Some((p.0@, p.1@)),
            None => spec_split_once(t@, c) is None,
        },
{
    let n = t.len();
    let mut first: usize = n;
    let mut count: usize = 0;
    let mut i: usize = 0;
    proof {
        assert(t@.skip(0) =~= t@);
        lemma_count_byte_le(t@, c);
    }
    while i < n
        invariant
            i <= n,
            n == t@.len(),
            count <= i,
            count as nat == count_byte(t@, c) - count_byte(t@.skip(i as int), c),
            count_byte(t@.skip(i as int), c) <= n - i,
            if count == 0 {
                first == n && forall|k: int| 0 <= k < i ==> t@[k] != c
            } else {
                first < i && t@[first as int] == c && (forall|k: int|
                    0 <= k < first ==> t@[k] != c)
            },
        decreases n - i,
    {
        proof {
            lemma_count_byte_suffix(t@, c, i as int);
            lemma_count_byte_le(t@.skip(i as int + 1), c);
        }
        if t[i] == c {
            if count == 0 {
                first = i;
            }
            count = count + 1;
        }
        i = i + 1;
    }
    proof {
        assert(t@.skip(n as int) =~= Seq::<u8>::empty());
    }
    if count != 1 {
        proof {
            lemma_split_once_none(t@, c);
        }
        return None;
    }
    proof {
        assert(count_byte(t@.skip(first as int + 1), c) == 0) by {
            lemma_count_byte_suffix(t@, c, first as int);
            lemma_count_suffix_prefix(t@, c, first as int);
        }
        lemma_split_once_at(t@, c, first as int);
    }
    let mut a: Vec<u8> = Vec::new();
    let mut k: usize = 0;
    while k < first
        invariant
            k <= first <= n,
            n == t@.len(),
            a@ == t@.subrange(0, k as int),
        decreases first - k,
    {
        proof {
            assert(t@.subrange(0, k as int + 1) =~= t@.subrange(0, k as int).push(t@[k as int]));
        }
        a.push(t[k]);
        k = k + 1;
    }
    let mut b: Vec<u8> = Vec::new();
    let mut m: usize = first + 1;
    while m < n
        invariant
            first + 1 <= m <= n,
            n == t@.len(),
            b@ == t@.subrange(first as int + 1, m as int),
        decreases n - m,
    {
        proof {
            assert(t@.subrange(first as int + 1, m as int + 1) =~= t@.subrange(
                first as int + 1,
                m as int,
            ).push(t@[m as int]));
        }
        b.push(t[m]);
        m = m + 1;
    }
    proof {
        assert(a@ =~= t@.take(first as int));
        assert(b@ =~= t@.skip(first as int + 1));
    }
    Some((a, b))
}

proof fn lemma_count_byte_le(t: Seq<u8>, c: u8)
    ensures
        count_byte(t, c) <= t.len(),
    decreases t.len(),
{
    if t.len() > 0 {
        lemma_count_byte_le(t.skip(1), c);
    }
}

/// Once the single occurrence has been seen, none remain after it.
proof fn lemma_count_suffix_prefix(t: Seq<u8>, c: u8, i: int)
    requires
        0 <= i < t.len(),
        count_byte(t, c) == 1,
        t[i] == c,
        forall|k: int| 0 <= k < i ==> t[k] != c,
    ensures
        count_byte(t.skip(i + 1), c) == 0,
    decreases i,
{
    if i == 0 {
        lemma_count_byte_suffix(t, c, 0);
        assert(t.skip(0) =~= t);
    } else {
        let u = t.skip(1);
        lemma_count_byte_suffix(t, c, 0);
        assert(t.skip(0) =~= t);
        assert(forall|k: int| 0 <= k < i - 1 ==> u[k] == t[k + 1] && u[k] != c);
        lemma_count_suffix_prefix(u, c, i - 1);
        assert(u.skip(i) =~= t.skip(i + 1));
    }
}

// --- Joining the trailing path tokens ---

/// The trailing tokens of a row joined with single spaces: the backing
/// path as the original table column order shows it.
pub open spec fn spec_join_sp(ts: Seq<Seq<u8>>) -> Seq<u8>
    decreases ts.len(),
{
    if ts.len() == 0 {
        Seq::empty()
    } else if ts.len() == 1 {
        ts[0]
    } else {
        spec_join_sp(ts.drop_last()) + seq![0x20u8] + ts.last()
    }
}

fn join_tokens(tokens: &Vec<Vec<u8>>, from: usize) -> (r: Vec<u8>)
    requires
        from <= tokens@.len(),
    ensures
        r@ == spec_join_sp(tokens@.map_values(|t: Vec<u8>| t@).skip(from as int)),
{
    let ghost ts = tokens@.map_values(|t: Vec<u8>| t@).skip(from as int);
    let n = tokens.len();
    let mut out: Vec<u8> = Vec::new();
    let mut i: usize = from;
    proof {
        assert(ts.take(0) =~= Seq::<Seq<u8>>::empty());
    }
    while i < n
        invariant
            from <= i <= n,
            n == tokens@.len(),
            ts == tokens@.map_values(|t: Vec<u8>| t@).skip(from as int),
            out@ == spec_join_sp(ts.take(i - from)),
        decreases n - i,
    {
        let ghost m: int = i - from;
        proof {
            assert(ts[m] == tokens@[i as int]@);
            if m > 0 {
                assert(ts.take(m + 1).drop_last() =~= ts.take(m));
                assert(ts.take(m + 1).last() == ts[m]);
            } else {
                assert(ts.take(1)[0] == ts[0]);
            }
        }
        if i > from {
            out.push(0x20);
        }
        let tok = &tokens[i];
        let mut k: usize = 0;
        let ghost base = out@;
        while k < tok.len()
            invariant
                k <= tok@.len(),
                out@ == base + tok@.take(k as int),
            decreases tok@.len() - k,
        {
            proof {
                assert(tok@.take(k as int + 1) =~= tok@.take(k as int).push(tok@[k as int]));
            }
            out.push(tok[k]);
            k = k + 1;
        }
        proof {
            assert(tok@.take(tok@.len() as int) =~= tok@);
            assert(out@ =~= spec_join_sp(ts.take(m + 1)));
        }
        i = i + 1;
    }
    proof {
        assert(ts.take(n - from) =~= ts);
    }
    out
}

// --- One row of the table ---

/// What one row of the region table describes: `None` when the row does
/// not match the expected shape (range, permission token, offset, and at
/// least the two bookkeeping columns; a range that runs backwards or does
/// not fit the machine word is no region either).
pub open spec fn spec_parse_line(line: Seq<u8>) -> Option<RegionData> {
    let toks = spec_tokens(line);
    if toks.len() < 5 {
        None
    } else {
        match spec_split_once(toks[0], 0x2d) {
            Some(parts) => match (spec_hex(parts.0), spec_hex(parts.1), spec_hex(toks[2])) {
                (Some(start), Some(end), Some(offset)) => if toks[1].len() < 3 || end < start {
                    None
                } else {
                    Some(
                        RegionData {
                            start: start as usize,
                            end: end as usize,
                            // the permission token reads r, w, x in its
                            // first three columns
                            readable: toks[1][0] == 0x72,
                            writable: toks[1][1] == 0x77,
                            executable: toks[1][2] == 0x78,
                            offset: offset as usize,
                            pathname: if toks.len() > 5 {
                                spec_join_sp(toks.skip(5))
                            } else {
                                Seq::empty()
                            },
                        },
                    )
                },
                _ => None,
            },
            None => None,
        }
    }
}

/// Parse one row of the region table. Rows that do not match the expected
/// shape yield `None` and are skipped by the listing.
pub fn parse_maps_line(line: &[u8]) -> (r: Option<MemoryRegion>)
    ensures
        match r {
            Some(reg) => spec_parse_line(line@) == Some(reg@) && reg.wf(),
            None => spec_parse_line(line@) is None,
        },
{
    let tokens = tokenize(line);
    let ghost toks = spec_tokens(line@);
    if tokens.len() < 5 {
        return None;
    }
    proof {
        assert(toks[0] == tokens@[0]@);
        assert(toks[1] == tokens@[1]@);
        assert(toks[2] == tokens@[2]@);
    }
    let parts = match split_once(tokens[0].as_slice(), 0x2d) {
        Some(p) => p,
        None => {
            return None;
        },
    };
    let start = match parse_hex(parts.0.as_slice()) {
        Some(v) => v,
        None => {
            return None;
        },
    };
    let end = match parse_hex(parts.1.as_slice()) {
        Some(v) => v,
        None => {
            return None;
        },
    };
    let offset = match parse_hex(tokens[2].as_slice()) {
        Some(v) => v,
        None => {
            return None;
        },
    };
    let perms = &tokens[1];
    if perms.len() < 3 {
        return None;
    }
    if end < start {
        return None;
    }
    let readable = perms[0] == 0x72;
    let writable = perms[1] == 0x77;
    let executable = perms[2] == 0x78;
    let pathname: Vec<u8> = if tokens.len() > 5 {
        join_tokens(&tokens, 5)
    } else {
        Vec::new()
    };
    proof {
        if toks.len() > 5 {
            assert(tokens@.map_values(|t: Vec<u8>| t@).skip(5) =~= toks.skip(5));
        }
    }
    Some(
        MemoryRegion {
            start,
            end,
            readable,
            writable,
            executable,
            offset,
            pathname,
        },
    )
}

// --- The whole table ---

/// Length of the leading run of bytes before a line feed.
pub open spec fn line_len(s: Seq<u8>) -> nat
    decreases s.len(),
{
    if s.len() == 0 || s[0] == 0x0a {
        0
    } else {
        1 + line_len(s.skip(1))
    }
}

proof fn lemma_line_len_le(s: Seq<u8>)
    ensures
        line_len(s) <= s.len(),
    decreases s.len(),
{
    if s.len() == 0 || s[0] == 0x0a {
    } else {
        lemma_line_len_le(s.skip(1));
    }
}

/// A line without its trailing carriage return, if it carries one.
pub open spec fn strip_cr(l: Seq<u8>) -> Seq<u8> {
    if l.len() > 0 && l.last() == 0x0d {
        l.drop_last()
    } else {
        l
    }
}

/// The lines of `s`: separated by line feeds, each without a trailing
/// carriage return, with no empty line after a final line feed.
pub open spec fn spec_lines(s: Seq<u8>) -> Seq<Seq<u8>>
    decreases s.len(),
    via spec_lines_dec
{
    if s.len() == 0 {
        Seq::empty()
    } else {
        let n = line_len(s);
        if n == s.len() {
            seq![strip_cr(s)]
        } else {
            seq![strip_cr(s.take(n as int))] + spec_lines(s.skip(n as int + 1))
        }
    }
}

#[via_fn]
proof fn spec_lines_dec(s: Seq<u8>) {
    lemma_line_len_le(s);
}

proof fn lemma_line_len_run(s: Seq<u8>, m: nat)
    requires
        m <= s.len(),
        forall|k: int| 0 <= k < m ==> s[k] != 0x0a,
        m == s.len() || s[m as int] == 0x0a,
    ensures
        line_len(s) == m,
    decreases m,
{
    if m == 0 {
    } else {
        let t = s.skip(1);
        assert(forall|k: int| 0 <= k < m - 1 ==> t[k] == s[k + 1] && t[k] != 0x0a);
        lemma_line_len_run(t, (m - 1) as nat);
    }
}

/// What one line contributes to the listing: its region when it parses
/// and is both readable and writable, nothing otherwise.
pub open spec fn spec_line_contrib(l: Seq<u8>) -> Seq<RegionData> {
    match spec_parse_line(l) {
        Some(rd) => if rd.readable && rd.writable {
            seq![rd]
        } else {
            Seq::empty()
        },
        None => Seq::empty(),
    }
}

/// The regions the listing yields for a sequence of lines, in line order.
pub open spec fn spec_regions_of(lines: Seq<Seq<u8>>) -> Seq<RegionData>
    decreases lines.len(),
{
    if lines.len() == 0 {
        Seq::empty()
    } else {
        spec_regions_of(lines.drop_last()) + spec_line_contrib(lines.last())
    }
}

/// Parse a process's whole region table, given its text, and keep exactly
/// the rows that parse and are both readable and writable, in table order.
/// Rows that do not match the expected shape are skipped, never fatal.
pub fn get_memory_regions(maps: &[u8]) -> (r: Vec<MemoryRegion>)
    ensures
        r@.map_values(|reg: MemoryRegion| reg@) == spec_regions_of(spec_lines(maps@)),
        forall|i: int|
            0 <= i < r@.len() ==> (#[trigger] r@[i]).wf() && r@[i].readable && r@[i].writable,
{
    let n = maps.len();
    let mut out: Vec<MemoryRegion> = Vec::new();
    let mut i: usize = 0;
    let ghost mut done: Seq<Seq<u8>> = Seq::empty();
    proof {
        assert(maps@.skip(0) =~= maps@);
        assert(out@.map_values(|reg: MemoryRegion| reg@) =~= Seq::<RegionData>::empty());
    }
    while i < n
        invariant
            i <= n,
            n == maps@.len(),
            spec_lines(maps@) == done + spec_lines(maps@.skip(i as int)),
            out@.map_values(|reg: MemoryRegion| reg@) == spec_regions_of(done),
            forall|k: int|
                0 <= k < out@.len() ==> (#[trigger] out@[k]).wf() && out@[k].readable
                    && out@[k].writable,
        decreases n - i,
    {
        let ghost suffix = maps@.skip(i as int);
        let mut j: usize = i;
        while j < n && maps[j] != 0x0a
            invariant
                i <= j <= n,
                n == maps@.len(),
                forall|k: int| i <= k < j ==> maps@[k] != 0x0a,
            decreases n - j,
        {
            j = j + 1;
        }
        proof {
            assert(forall|k: int|
                0 <= k < j - i ==> suffix[k] == maps@[i + k] && suffix[k] != 0x0a);
            lemma_line_len_run(suffix, (j - i) as nat);
        }
        // drop a carriage return before the line feed
        let jj: usize = if j > i && maps[j - 1] == 0x0d {
            j - 1
        } else {
            j
        };
        let ghost l = strip_cr(suffix.take((j - i) as int));
        proof {
            assert(suffix.take((j - i) as int) =~= maps@.subrange(i as int, j as int));
            if j > i && maps@[j as int - 1] == 0x0d {
                assert(maps@.subrange(i as int, j as int).drop_last() =~= maps@.subrange(
                    i as int,
                    jj as int,
                ));
            }
            assert(l =~= maps@.subrange(i as int, jj as int));
            if j == n {
                assert(strip_cr(suffix) == l);
                assert(spec_lines(suffix) =~= seq![l]);
            } else {
                assert(suffix.skip((j - i) as int + 1) =~= maps@.skip(j as int + 1));
                assert(spec_lines(suffix) =~= seq![l] + spec_lines(maps@.skip(j as int + 1)));
            }
            assert((done + seq![l]).drop_last() =~= done);
            assert((done + seq![l]).last() == l);
        }
        let line = &maps[i..jj];
        let parsed = parse_maps_line(line);
        match parsed {
            Some(region) => {
                if region.readable && region.writable {
                    proof {
                        let f = |reg: MemoryRegion| reg@;
                        assert(out@.push(region).map_values(f) =~= out@.map_values(f) + seq![
                            region@,
                        ]);
                        assert(spec_regions_of(done + seq![l]) =~= spec_regions_of(done) + seq![
                            region@,
                        ]);
                    }
                    out.push(region);
                } else {
                    proof {
                        assert(spec_regions_of(done + seq![l]) =~= spec_regions_of(done));
                    }
                }
            },
            None => {
                proof {
                    assert(spec_regions_of(done + seq![l]) =~= spec_regions_of(done));
                }
            },
        }
        proof {
            done = done + seq![l];
            if j == n {
                assert(spec_lines(maps@.skip(n as int)) =~= Seq::<Seq<u8>>::empty());
            }
        }
        if j < n {
            i = j + 1;
        } else {
            i = n;
        }
    }
    proof {
        assert(spec_lines(maps@.skip(n as int)) =~= Seq::<Seq<u8>>::empty());
    }
    out
}

} // verus!
