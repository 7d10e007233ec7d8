//! The scan engine: byte-granularity value matching over region contents,
//! batched delivery for streaming consumers, refinement of a watched
//! address set, and the orchestration that fans regions and addresses out
//! across a worker pool.

use vstd::prelude::*;

use rayon::iter::IntoParallelRefIterator;
use rayon::iter::ParallelIterator;

use crate::memory::MemoryError;
use crate::memory::MemoryReader;
use crate::process::MemoryRegion;
use crate::process::RegionData;
use crate::types::spec_decode;
use crate::types::spec_decode_front;
use crate::types::spec_compare;
use crate::types::FoundAddress;
use crate::types::ScanType;
use crate::types::Value;
use crate::types::ValueType;

verus! {

// --- What matches on a first scan ---

/// Whether a candidate value matches a first-scan criterion: the literal
/// criteria compare against the target (and nothing matches when none was
/// supplied), an unknown initial value matches everything, and the
/// refinement criteria have no previous value to compare against here, so
/// they match nothing.
pub open spec fn spec_match(v: Value, st: ScanType, target: Option<Value>) -> bool {
    match st {
        ScanType::ExactValue | ScanType::GreaterThan | ScanType::LessThan => match target {
            Some(t) => spec_compare(v, t, st),
            None => false,
        },
        ScanType::UnknownInitial => true,
        _ => false,
    }
}

/// Whether the candidate decoded at byte offset `o` of `data` matches.
pub open spec fn match_at(
    data: Seq<u8>,
    vt: ValueType,
    st: ScanType,
    target: Option<Value>,
    o: int,
) -> bool
    recommends
        0 <= o && o + vt.spec_size() <= data.len(),
{
    spec_match(spec_decode_front(data.skip(o), vt), st, target)
}

/// The match the scan emits for offset `o`: the region-relative address
/// and the value decoded there.
pub open spec fn found_at(data: Seq<u8>, base: usize, vt: ValueType, o: int) -> FoundAddress {
    FoundAddress { address: (base + o) as usize, value: spec_decode_front(data.skip(o), vt) }
}

/// How many byte offsets a buffer of `len` bytes offers a candidate of
/// width `width`: every single-byte offset from 0 to `len - width`
/// inclusive, none when the buffer is too short.
pub open spec fn num_offsets(len: nat, width: nat) -> int {
    if len >= width {
        len - width + 1
    } else {
        0
    }
}

/// The matches among the first `n` offsets, in increasing offset order.
pub open spec fn spec_scan_upto(
    data: Seq<u8>,
    base: usize,
    vt: ValueType,
    st: ScanType,
    target: Option<Value>,
    n: int,
) -> Seq<FoundAddress>
    decreases n,
{
    if n <= 0 {
        Seq::empty()
    } else {
        spec_scan_upto(data, base, vt, st, target, n - 1) + if match_at(
            data,
            vt,
            st,
            target,
            n - 1,
        ) {
            seq![found_at(data, base, vt, n - 1)]
        } else {
            Seq::empty()
        }
    }
}

/// Everything a first scan finds in one region's bytes: the matches at
/// every admissible byte offset, in increasing offset order.
pub open spec fn spec_scan(
    data: Seq<u8>,
    base: usize,
    vt: ValueType,
    st: ScanType,
    target: Option<Value>,
) -> Seq<FoundAddress> {
    spec_scan_upto(data, base, vt, st, target, num_offsets(data.len(), vt.spec_size()))
}

/// Scan one region's bytes: decode a candidate at **every single-byte
/// offset** (the target value's alignment is unknown), evaluate the
/// criterion, and emit a match carrying `base + offset`. Matches come out
/// in increasing offset order.
pub fn scan_bytes(
    data: &[u8],
    base: usize,
    value_type: ValueType,
    scan_type: ScanType,
    target: &Option<Value>,
) -> (r: Vec<FoundAddress>)
    requires
        base + data@.len() <= usize::MAX,
    ensures
        r@ == spec_scan(data@, base, value_type, scan_type, *target),
{
    let width = value_type.size();
    let len = data.len();
    let n_off: usize = if len >= width {
        len - width + 1
    } else {
        0
    };
    let mut out: Vec<FoundAddress> = Vec::new();
    let mut offset: usize = 0;
    while offset < n_off
        invariant
            offset <= n_off,
            n_off == num_offsets(data@.len(), value_type.spec_size()),
            width == value_type.spec_size(),
            len == data@.len(),
            base + data@.len() <= usize::MAX,
            out@ == spec_scan_upto(data@, base, value_type, scan_type, *target, offset as int),
        decreases n_off - offset,
    {
        let candidate = Value::from_bytes_at(data, offset, value_type);
        let v = match candidate {
            Some(v) => v,
            None => {
                // unreachable: the loop stays within the last full window
                proof {
                    assert(data@.skip(offset as int).len() >= width);
                }
                return out;
            },
        };
        let matched = match scan_type {
            ScanType::ExactValue | ScanType::GreaterThan | ScanType::LessThan => match target {
                Some(t) => v.compare(t, scan_type),
                None => false,
            },
            ScanType::UnknownInitial => true,
            _ => false,
        };
        proof {
            assert(data@.skip(offset as int).len() >= width);
            assert(matched == match_at(data@, value_type, scan_type, *target, offset as int));
        }
        if matched {
            proof {
                assert(out@.push(found_at(data@, base, value_type, offset as int)) =~= out@ + seq![
                    found_at(data@, base, value_type, offset as int),
                ]);
            }
            out.push(FoundAddress { address: base + offset, value: v });
        } else {
            proof {
                assert(out@ =~= out@ + Seq::<FoundAddress>::empty());
            }
        }
        offset = offset + 1;
    }
    out
}

// --- What the scan's output contains ---

proof fn lemma_scan_upto_char(
    data: Seq<u8>,
    base: usize,
    vt: ValueType,
    st: ScanType,
    target: Option<Value>,
    n: int,
    fa: FoundAddress,
)
    requires
        n <= num_offsets(data.len(), vt.spec_size()),
    ensures
        spec_scan_upto(data, base, vt, st, target, n).contains(fa) <==> exists|o: int|
            0 <= o < n && #[trigger] match_at(data, vt, st, target, o) && fa == found_at(
                data,
                base,
                vt,
                o,
            ),
    decreases n,
{
    if n <= 0 {
    } else {
        lemma_scan_upto_char(data, base, vt, st, target, n - 1, fa);
        let prev = spec_scan_upto(data, base, vt, st, target, n - 1);
        let whole = spec_scan_upto(data, base, vt, st, target, n);
        if match_at(data, vt, st, target, n - 1) {
            assert(whole =~= prev.push(found_at(data, base, vt, n - 1)));
            if fa == found_at(data, base, vt, n - 1) {
                assert(whole[whole.len() - 1] == fa);
                assert(whole.contains(fa));
            }
            if whole.contains(fa) {
                let i = choose|i: int| 0 <= i < whole.len() && whole[i] == fa;
                if i < prev.len() {
                    assert(prev.contains(fa));
                }
            }
            if prev.contains(fa) {
                let i = choose|i: int| 0 <= i < prev.len() && prev[i] == fa;
                assert(whole[i] == fa);
            }
        } else {
            assert(whole =~= prev);
        }
    }
}

/// What a scan of one buffer returns, exactly: a match for offset `o`
/// is in the output if and only if the candidate at `o` matches, and
/// everything in the output is such a match.
pub proof fn lemma_scan_characterizes(
    data: Seq<u8>,
    base: usize,
    vt: ValueType,
    st: ScanType,
    target: Option<Value>,
)
    ensures
        forall|fa: FoundAddress|
            #[trigger] spec_scan(data, base, vt, st, target).contains(fa) <==> exists|o: int|
                0 <= o < num_offsets(data.len(), vt.spec_size()) && #[trigger] match_at(
                    data,
                    vt,
                    st,
                    target,
                    o,
                ) && fa == found_at(data, base, vt, o),
{
    let n = num_offsets(data.len(), vt.spec_size());
    assert forall|fa: FoundAddress|
        #[trigger] spec_scan(data, base, vt, st, target).contains(fa) <==> exists|o: int|
            0 <= o < n && #[trigger] match_at(data, vt, st, target, o) && fa == found_at(
                data,
                base,
                vt,
                o,
            ) by {
        lemma_scan_upto_char(data, base, vt, st, target, n, fa);
    }
}

proof fn lemma_scan_upto_single(
    data: Seq<u8>,
    base: usize,
    vt: ValueType,
    st: ScanType,
    target: Option<Value>,
    o: int,
    n: int,
)
    requires
        0 <= o < num_offsets(data.len(), vt.spec_size()),
        match_at(data, vt, st, target, o),
        forall|k: int|
            0 <= k < num_offsets(data.len(), vt.spec_size()) && k != o ==> !(#[trigger] match_at(
                data,
                vt,
                st,
                target,
                k,
            )),
        n <= num_offsets(data.len(), vt.spec_size()),
    ensures
        spec_scan_upto(data, base, vt, st, target, n) == if o < n {
            seq![found_at(data, base, vt, o)]
        } else {
            Seq::<FoundAddress>::empty()
        },
    decreases n,
{
    if n <= 0 {
    } else {
        lemma_scan_upto_single(data, base, vt, st, target, o, n - 1);
        if o == n - 1 {
            assert(spec_scan_upto(data, base, vt, st, target, n) =~= seq![
                found_at(data, base, vt, o),
            ]);
        } else {
            assert(!match_at(data, vt, st, target, n - 1));
            assert(spec_scan_upto(data, base, vt, st, target, n) =~= spec_scan_upto(
                data,
                base,
                vt,
                st,
                target,
                n - 1,
            ));
        }
    }
}

/// A buffer whose candidate matches at exactly one offset scans to exactly
/// that one match: the address `base + o` and the value decoded at `o`.
pub proof fn lemma_scan_single_match(
    data: Seq<u8>,
    base: usize,
    vt: ValueType,
    st: ScanType,
    target: Option<Value>,
    o: int,
)
    requires
        0 <= o < num_offsets(data.len(), vt.spec_size()),
        match_at(data, vt, st, target, o),
        forall|k: int|
            0 <= k < num_offsets(data.len(), vt.spec_size()) && k != o ==> !(#[trigger] match_at(
                data,
                vt,
                st,
                target,
                k,
            )),
    ensures
        spec_scan(data, base, vt, st, target) == seq![found_at(data, base, vt, o)],
{
    lemma_scan_upto_single(
        data,
        base,
        vt,
        st,
        target,
        o,
        num_offsets(data.len(), vt.spec_size()),
    );
}


/// Every match a scan emits lies inside the scanned buffer: its address is
/// `base + o` for an admissible offset `o`, so it never leaves the region
/// that was read — the region that was readable and writable at the moment
/// of discovery.
pub proof fn lemma_scan_addresses_in_region(
    data: Seq<u8>,
    base: usize,
    vt: ValueType,
    st: ScanType,
    target: Option<Value>,
)
    requires
        base + data.len() <= usize::MAX,
        data.len() >= vt.spec_size(),
    ensures
        forall|fa: FoundAddress|
            #[trigger] spec_scan(data, base, vt, st, target).contains(fa) ==> base <= fa.address
                <= base + data.len() - vt.spec_size(),
{
    lemma_scan_characterizes(data, base, vt, st, target);
}


proof fn lemma_scan_upto_sorted(
    data: Seq<u8>,
    base: usize,
    vt: ValueType,
    st: ScanType,
    target: Option<Value>,
    n: int,
)
    requires
        base + data.len() <= usize::MAX,
        n <= num_offsets(data.len(), vt.spec_size()),
    ensures
        forall|i: int|
            0 <= i < spec_scan_upto(data, base, vt, st, target, n).len() ==> (
            #[trigger] spec_scan_upto(data, base, vt, st, target, n)[i]).address < base + n,
        forall|i: int, j: int|
            0 <= i < j < spec_scan_upto(data, base, vt, st, target, n).len() ==> spec_scan_upto(
                data,
                base,
                vt,
                st,
                target,
                n,
            )[i].address < spec_scan_upto(data, base, vt, st, target, n)[j].address,
    decreases n,
{
    if n <= 0 {
    } else {
        lemma_scan_upto_sorted(data, base, vt, st, target, n - 1);
        if match_at(data, vt, st, target, n - 1) {
            assert(spec_scan_upto(data, base, vt, st, target, n) =~= spec_scan_upto(
                data,
                base,
                vt,
                st,
                target,
                n - 1,
            ).push(found_at(data, base, vt, n - 1)));
        } else {
            assert(spec_scan_upto(data, base, vt, st, target, n) =~= spec_scan_upto(
                data,
                base,
                vt,
                st,
                target,
                n - 1,
            ));
        }
    }
}

/// Within one region the scan's matches come out in strictly increasing
/// address order: offsets are walked in increasing order, so a batch cut
/// from one region's output is ordered. Ordering across regions is not
/// promised — regions finish in arbitrary parallel order.
pub proof fn lemma_scan_ordered(
    data: Seq<u8>,
    base: usize,
    vt: ValueType,
    st: ScanType,
    target: Option<Value>,
)
    requires
        base + data.len() <= usize::MAX,
    ensures
        forall|i: int, j: int|
            0 <= i < j < spec_scan(data, base, vt, st, target).len() ==> spec_scan(
                data,
                base,
                vt,
                st,
                target,
            )[i].address < spec_scan(data, base, vt, st, target)[j].address,
{
    lemma_scan_upto_sorted(data, base, vt, st, target, num_offsets(data.len(), vt.spec_size()));
}

// --- Batching for streamed delivery ---

/// The output split into delivery batches: full batches of `bsize`
/// matches, then the trailing partial batch, in order. No batch is empty.
pub open spec fn spec_batches(s: Seq<FoundAddress>, bsize: int) -> Seq<Seq<FoundAddress>>
    recommends
        bsize >= 1,
    decreases s.len(),
    when bsize >= 1
{
    if s.len() == 0 {
        Seq::empty()
    } else if s.len() <= bsize {
        seq![s]
    } else {
        seq![s.take(bsize)] + spec_batches(s.skip(bsize), bsize)
    }
}

/// All the sequences of `ss` laid end to end, in order.
pub open spec fn spec_concat_all(ss: Seq<Seq<FoundAddress>>) -> Seq<FoundAddress>
    decreases ss.len(),
{
    if ss.len() == 0 {
        Seq::empty()
    } else {
        spec_concat_all(ss.drop_last()) + ss.last()
    }
}

proof fn lemma_concat_all_prepend(x: Seq<FoundAddress>, ys: Seq<Seq<FoundAddress>>)
    ensures
        spec_concat_all(seq![x] + ys) == x + spec_concat_all(ys),
    decreases ys.len(),
{
    if ys.len() == 0 {
        assert(seq![x] + ys =~= seq![x]);
        assert(seq![x].drop_last() =~= Seq::<Seq<FoundAddress>>::empty());
        assert(seq![x].last() == x);
        assert(spec_concat_all(seq![x]) == spec_concat_all(Seq::<Seq<FoundAddress>>::empty())
            + x);
        assert(x + spec_concat_all(ys) =~= x);
        assert(Seq::<FoundAddress>::empty() + x =~= x);
    } else {
        let zs = seq![x] + ys;
        assert(zs.drop_last() =~= seq![x] + ys.drop_last());
        assert(zs.last() == ys.last());
        lemma_concat_all_prepend(x, ys.drop_last());
        assert((x + spec_concat_all(ys.drop_last())) + ys.last() =~= x + (spec_concat_all(
            ys.drop_last(),
        ) + ys.last()));
    }
}

/// Batching loses and reorders nothing: the batches laid end to end are
/// exactly the matches that were split up.
pub proof fn lemma_batches_concat(s: Seq<FoundAddress>, bsize: int)
    requires
        bsize >= 1,
    ensures
        spec_concat_all(spec_batches(s, bsize)) == s,
    decreases s.len(),
{
    if s.len() == 0 {
    } else if s.len() <= bsize {
        assert(spec_batches(s, bsize) =~= seq![s]);
        assert(seq![s].drop_last() =~= Seq::<Seq<FoundAddress>>::empty());
        assert(seq![s].last() == s);
        assert(spec_concat_all(Seq::<Seq<FoundAddress>>::empty()) =~= Seq::<
            FoundAddress,
        >::empty());
        assert(spec_concat_all(seq![s]) =~= Seq::<FoundAddress>::empty() + s);
        assert(Seq::<FoundAddress>::empty() + s =~= s);
    } else {
        lemma_batches_concat(s.skip(bsize), bsize);
        lemma_concat_all_prepend(s.take(bsize), spec_batches(s.skip(bsize), bsize));
        assert(s.take(bsize) + s.skip(bsize) =~= s);
    }
}

/// Split matches into batches of `batch_size`, the trailing partial batch
/// last, preserving order.
pub fn make_batches(v: &Vec<FoundAddress>, batch_size: usize) -> (r: Vec<Vec<FoundAddress>>)
    requires
        batch_size >= 1,
    ensures
        r@.map_values(|b: Vec<FoundAddress>| b@) == spec_batches(v@, batch_size as int),
{
    let n = v.len();
    let mut out: Vec<Vec<FoundAddress>> = Vec::new();
    let mut i: usize = 0;
    proof {
        assert(v@.skip(0) =~= v@);
        assert(out@.map_values(|b: Vec<FoundAddress>| b@) =~= Seq::<Seq<FoundAddress>>::empty());
    }
    while i < n
        invariant
            i <= n,
            n == v@.len(),
            batch_size >= 1,
            spec_batches(v@, batch_size as int) == out@.map_values(|b: Vec<FoundAddress>| b@)
                + spec_batches(v@.skip(i as int), batch_size as int),
        decreases n - i,
    {
        let remaining = n - i;
        let take: usize = if remaining <= batch_size {
            remaining
        } else {
            batch_size
        };
        let mut chunk: Vec<FoundAddress> = Vec::new();
        let mut k: usize = i;
        while k < i + take
            invariant
                i <= k <= i + take,
                i + take <= n,
                n == v@.len(),
                chunk@ == v@.subrange(i as int, k as int),
            decreases i + take - k,
        {
            proof {
                assert(v@.subrange(i as int, k as int + 1) =~= v@.subrange(
                    i as int,
                    k as int,
                ).push(v@[k as int]));
            }
            chunk.push(v[k]);
            k = k + 1;
        }
        proof {
            let suffix = v@.skip(i as int);
            let f = |b: Vec<FoundAddress>| b@;
            assert(chunk@ =~= suffix.take(take as int));
            if remaining <= batch_size {
                assert(chunk@ =~= suffix);
                assert(spec_batches(suffix, batch_size as int) =~= seq![chunk@]);
            } else {
                assert(suffix.skip(batch_size as int) =~= v@.skip(i as int + batch_size));
                assert(spec_batches(suffix, batch_size as int) =~= seq![chunk@] + spec_batches(
                    v@.skip(i as int + batch_size),
                    batch_size as int,
                ));
            }
            assert(out@.push(chunk).map_values(f) =~= out@.map_values(f) + seq![chunk@]);
            assert(out@.map_values(f) + (seq![chunk@] + spec_batches(
                v@.skip(i as int + take as int),
                batch_size as int,
            )) =~= (out@.map_values(f) + seq![chunk@]) + spec_batches(
                v@.skip(i as int + take as int),
                batch_size as int,
            ));
        }
        out.push(chunk);
        i = i + take;
    }
    proof {
        assert(v@.skip(n as int) =~= Seq::<FoundAddress>::empty());
        assert(spec_batches(v@.skip(n as int), batch_size as int) =~= Seq::<
            Seq<FoundAddress>,
        >::empty());
    }
    out
}

// --- Refinement of a watched address set ---

/// Whether a freshly re-read value keeps its address in the watched set:
/// literal criteria compare against the target, delta criteria against the
/// address's previously recorded value, and an unknown initial value keeps
/// everything.
pub open spec fn spec_refine_match(
    cur: Value,
    prev: Value,
    st: ScanType,
    target: Option<Value>,
) -> bool {
    match st {
        ScanType::ExactValue | ScanType::GreaterThan | ScanType::LessThan => match target {
            Some(t) => spec_compare(cur, t, st),
            None => false,
        },
        ScanType::IncreasedValue
        | ScanType::DecreasedValue
        | ScanType::ChangedValue
        | ScanType::UnchangedValue => spec_compare(cur, prev, st),
        ScanType::UnknownInitial => true,
    }
}

/// What one watched address becomes under a refinement, given what its
/// re-read returned: a failed read drops the entry, bytes that do not
/// decode drop it, and otherwise it stays exactly when the criterion
/// holds, carrying the freshly read value as the next baseline.
pub open spec fn spec_refine_one(
    prev: FoundAddress,
    read: Option<Seq<u8>>,
    vt: ValueType,
    st: ScanType,
    target: Option<Value>,
) -> Option<FoundAddress> {
    match read {
        None => None,
        Some(bytes) => match spec_decode(bytes, vt) {
            None => None,
            Some(cur) => if spec_refine_match(cur, prev.value, st, target) {
                Some(FoundAddress { address: prev.address, value: cur })
            } else {
                None
            },
        },
    }
}

/// What a read outcome contributes to a refinement: the bytes when it
/// succeeded, nothing when it failed.
pub open spec fn read_outcome(r: Result<Vec<u8>, MemoryError>) -> Option<Seq<u8>> {
    match r {
        Ok(v) => Some(v@),
        Err(_) => None,
    }
}

/// Decide one watched address from its read outcome. Pure: the whole
/// refinement criterion semantics, separated from the read itself.
pub fn refine_decision(
    prev: &FoundAddress,
    read: &Result<Vec<u8>, MemoryError>,
    value_type: ValueType,
    scan_type: ScanType,
    target: &Option<Value>,
) -> (r: Option<FoundAddress>)
    ensures
        r == spec_refine_one(*prev, read_outcome(*read), value_type, scan_type, *target),
{
    let data = match read {
        Ok(data) => data,
        Err(_) => {
            return None;
        },
    };
    let cur = match Value::from_bytes(data.as_slice(), value_type) {
        Some(cur) => cur,
        None => {
            return None;
        },
    };
    let matched = match scan_type {
        ScanType::ExactValue | ScanType::GreaterThan | ScanType::LessThan => match target {
            Some(t) => cur.compare(t, scan_type),
            None => false,
        },
        ScanType::IncreasedValue
        | ScanType::DecreasedValue
        | ScanType::ChangedValue
        | ScanType::UnchangedValue => cur.compare(&prev.value, scan_type),
        ScanType::UnknownInitial => true,
    };
    if matched {
        Some(FoundAddress { address: prev.address, value: cur })
    } else {
        None
    }
}

/// An increased-value refinement keeps exactly the addresses whose freshly
/// read value exceeds the recorded one — the target plays no part — and a
/// kept entry carries the fresh value.
pub proof fn lemma_refine_increased(
    prev: FoundAddress,
    bytes: Seq<u8>,
    vt: ValueType,
    target: Option<Value>,
)
    ensures
        spec_refine_one(prev, Some(bytes), vt, ScanType::IncreasedValue, target) == match
            spec_decode(bytes, vt) {
            Some(cur) => if crate::types::spec_gt_value(cur, prev.value) {
                Some(FoundAddress { address: prev.address, value: cur })
            } else {
                None
            },
            None => None,
        },
        spec_refine_one(prev, None, vt, ScanType::IncreasedValue, target) is None,
{
}

// --- One region's scan task ---

/// What scanning one region yields, whatever its bulk read returned: the
/// matches of a pure scan over some prefix of the region's bytes (the
/// whole region on a full read, the read prefix on a short one, no bytes
/// at all on a failed one — a failed region contributes zero matches).
pub open spec fn scan_task_post(
    region: RegionData,
    vt: ValueType,
    st: ScanType,
    target: Option<Value>,
    out: Seq<FoundAddress>,
) -> bool {
    exists|data: Seq<u8>|
        data.len() <= region.spec_size() && out == #[trigger] spec_scan(
            data,
            region.start,
            vt,
            st,
            target,
        )
}

/// Scan one region: one bulk read, then the byte-offset walk over what it
/// returned. A failed read skips the region — never fatal to the scan.
pub(crate) fn scan_region_task(
    reader: &MemoryReader,
    region: &MemoryRegion,
    value_type: ValueType,
    scan_type: ScanType,
    target: &Option<Value>,
) -> (r: Vec<FoundAddress>)
    requires
        region.wf(),
    ensures
        scan_task_post(region@, value_type, scan_type, *target, r@),
{
    match reader.read_region(region) {
        Ok(data) => {
            let out = scan_bytes(data.as_slice(), region.start, value_type, scan_type, target);
            proof {
                assert(data@.len() <= region@.spec_size());
                assert(out@ == spec_scan(data@, region@.start, value_type, scan_type, *target));
            }
            out
        },
        Err(_) => {
            let out: Vec<FoundAddress> = Vec::new();
            proof {
                let data = Seq::<u8>::empty();
                assert(data.len() <= region@.spec_size());
                assert(out@ == spec_scan(data, region@.start, value_type, scan_type, *target));
            }
            out
        },
    }
}

/// What refining one watched address yields, whatever its re-read
/// returned: the pure decision over some read outcome of at most the
/// kind's width.
pub open spec fn refine_task_post(
    prev: FoundAddress,
    vt: ValueType,
    st: ScanType,
    target: Option<Value>,
    out: Option<FoundAddress>,
) -> bool {
    exists|read: Option<Seq<u8>>|
        (read matches Some(b) ==> b.len() <= vt.spec_size()) && out == #[trigger] spec_refine_one(
            prev,
            read,
            vt,
            st,
            target,
        )
}

/// Re-read one watched address and decide whether it stays.
pub(crate) fn refine_entry(
    reader: &MemoryReader,
    prev: &FoundAddress,
    value_type: ValueType,
    scan_type: ScanType,
    target: &Option<Value>,
) -> (r: Option<FoundAddress>)
    ensures
        refine_task_post(*prev, value_type, scan_type, *target, r),
{
    let width = value_type.size();
    let read = reader.read_value(prev.address, width);
    let out = refine_decision(prev, &read, value_type, scan_type, target);
    proof {
        assert(out == spec_refine_one(
            *prev,
            read_outcome(read),
            value_type,
            scan_type,
            *target,
        ));
    }
    out
}

// --- Trusted fan-out across the worker pool and streamed delivery ---

#[verifier::external_type_specification]
#[verifier::external_body]
#[verifier::reject_recursive_types(T)]
pub struct ExSender<T>(std::sync::mpsc::Sender<T>);

/// Relies on `std::sync::mpsc::Sender::send`: hands the batch to the
/// channel's receiving side; when the receiver is gone the batch is simply
/// dropped, reported by the result — delivery must never stall the scan.
#[verifier::external_body]
fn send_batch(sender: &std::sync::mpsc::Sender<Vec<FoundAddress>>, batch: Vec<FoundAddress>) -> (r:
    bool)
{
    sender.send(batch).is_ok()
}

/// Relies on `std::sync::mpsc::Sender::send`: hands a progress tuple —
/// bytes of the region that just finished, and the total scannable bytes —
/// to the receiving side; dropped when the receiver is gone.
#[verifier::external_body]
fn send_progress(sender: &std::sync::mpsc::Sender<(usize, usize)>, scanned: usize, total: usize) -> (r:
    bool)
{
    sender.send((scanned, total)).is_ok()
}

/// Relies on rayon's parallel iterators (`par_iter().map(..).collect()`):
/// the closure — one call of the verified region task — runs once per
/// region on the worker pool, and the collected output has exactly one
/// result per region, in the regions' order.
#[verifier::external_body]
fn par_scan_regions(
    reader: &MemoryReader,
    regions: &Vec<MemoryRegion>,
    value_type: ValueType,
    scan_type: ScanType,
    target: &Option<Value>,
) -> (r: Vec<Vec<FoundAddress>>)
    requires
        forall|i: int| 0 <= i < regions@.len() ==> (#[trigger] regions@[i]).wf(),
    ensures
        r@.len() == regions@.len(),
        forall|i: int|
            0 <= i < regions@.len() ==> scan_task_post(
                regions@[i]@,
                value_type,
                scan_type,
                *target,
                (#[trigger] r@[i])@,
            ),
{
    regions
        .par_iter()
        .map(|region| scan_region_task(reader, region, value_type, scan_type, target))
        .collect()
}

/// Relies on rayon's parallel iterators (`par_iter().for_each(..)`): the
/// closure — one call of the verified streaming region task — runs once
/// per region on the worker pool; each task sends its own batches.
#[verifier::external_body]
fn par_stream_regions(
    reader: &MemoryReader,
    regions: &Vec<MemoryRegion>,
    value_type: ValueType,
    scan_type: ScanType,
    target: &Option<Value>,
    batch_size: usize,
    sender: &std::sync::mpsc::Sender<Vec<FoundAddress>>,
    progress: Option<&std::sync::mpsc::Sender<(usize, usize)>>,
    total: usize,
)
    requires
        forall|i: int| 0 <= i < regions@.len() ==> (#[trigger] regions@[i]).wf(),
        batch_size >= 1,
{
    regions.par_iter().for_each(|region| {
        stream_region_task(
            reader, region, value_type, scan_type, target, batch_size, sender, progress, total,
        )
    });
}

/// Relies on rayon's parallel iterators (`par_iter().map(..).collect()`):
/// the closure — one call of the verified refinement task — runs once per
/// watched address, one output per address, in order.
#[verifier::external_body]
fn par_refine_addresses(
    reader: &MemoryReader,
    addresses: &Vec<FoundAddress>,
    value_type: ValueType,
    scan_type: ScanType,
    target: &Option<Value>,
) -> (r: Vec<Option<FoundAddress>>)
    ensures
        r@.len() == addresses@.len(),
        forall|i: int|
            0 <= i < addresses@.len() ==> refine_task_post(
                addresses@[i],
                value_type,
                scan_type,
                *target,
                #[trigger] r@[i],
            ),
{
    addresses
        .par_iter()
        .map(|found| refine_entry(reader, found, value_type, scan_type, target))
        .collect()
}

/// Scan one region and stream its matches out as they are batched: full
/// batches of `batch_size`, then the trailing partial batch, in offset
/// order; afterwards one progress tuple for the region, if a progress
/// channel is given. Delivery never applies backpressure: a send to an
/// abandoned consumer is dropped.
pub(crate) fn stream_region_task(
    reader: &MemoryReader,
    region: &MemoryRegion,
    value_type: ValueType,
    scan_type: ScanType,
    target: &Option<Value>,
    batch_size: usize,
    sender: &std::sync::mpsc::Sender<Vec<FoundAddress>>,
    progress: Option<&std::sync::mpsc::Sender<(usize, usize)>>,
    total: usize,
)
    requires
        region.wf(),
        batch_size >= 1,
{
    let matches = scan_region_task(reader, region, value_type, scan_type, target);
    let mut batches = make_batches(&matches, batch_size);
    while batches.len() > 0
        decreases batches@.len(),
    {
        let batch = batches.remove(0);
        send_batch(sender, batch);
    }
    match progress {
        Some(p) => {
            send_progress(p, region.size(), total);
        },
        None => {},
    }
}

// --- Region retention and assembly ---

/// The regions a scan retains: exactly those both readable and writable,
/// in their original order. Read-only and exec-only regions are excluded —
/// writable regions hold the mutable program state worth scanning.
pub open spec fn spec_retained(rs: Seq<RegionData>) -> Seq<RegionData>
    decreases rs.len(),
{
    if rs.len() == 0 {
        Seq::empty()
    } else {
        spec_retained(rs.drop_last()) + if rs.last().readable && rs.last().writable {
            seq![rs.last()]
        } else {
            Seq::empty()
        }
    }
}

fn copy_bytes(src: &Vec<u8>) -> (r: Vec<u8>)
    ensures
        r@ == src@,
{
    let mut out: Vec<u8> = Vec::new();
    let mut i: usize = 0;
    while i < src.len()
        invariant
            i <= src@.len(),
            out@ == src@.take(i as int),
        decreases src@.len() - i,
    {
        proof {
            assert(src@.take(i as int + 1) =~= src@.take(i as int).push(src@[i as int]));
        }
        out.push(src[i]);
        i = i + 1;
    }
    proof {
        assert(src@.take(src@.len() as int) =~= src@);
    }
    out
}

fn region_dup(r: &MemoryRegion) -> (c: MemoryRegion)
    ensures
        c@ == r@,
{
    MemoryRegion {
        start: r.start,
        end: r.end,
        readable: r.readable,
        writable: r.writable,
        executable: r.executable,
        offset: r.offset,
        pathname: copy_bytes(&r.pathname),
    }
}

/// Keep exactly the readable-and-writable regions, in order.
fn filter_scannable(regions: &Vec<MemoryRegion>) -> (r: Vec<MemoryRegion>)
    requires
        forall|i: int| 0 <= i < regions@.len() ==> (#[trigger] regions@[i]).wf(),
    ensures
        r@.map_values(|reg: MemoryRegion| reg@) == spec_retained(
            regions@.map_values(|reg: MemoryRegion| reg@),
        ),
        forall|i: int| 0 <= i < r@.len() ==> (#[trigger] r@[i]).wf(),
{
    let ghost f = |reg: MemoryRegion| reg@;
    let ghost all = regions@.map_values(f);
    let n = regions.len();
    let mut out: Vec<MemoryRegion> = Vec::new();
    let mut i: usize = 0;
    proof {
        assert(all.take(0) =~= Seq::<RegionData>::empty());
        assert(out@.map_values(f) =~= Seq::<RegionData>::empty());
    }
    while i < n
        invariant
            i <= n,
            n == regions@.len(),
            all == regions@.map_values(f),
            f == (|reg: MemoryRegion| reg@),
            out@.map_values(f) == spec_retained(all.take(i as int)),
            forall|k: int| 0 <= k < regions@.len() ==> (#[trigger] regions@[k]).wf(),
            forall|k: int| 0 <= k < out@.len() ==> (#[trigger] out@[k]).wf(),
        decreases n - i,
    {
        proof {
            assert(all.take(i as int + 1).drop_last() =~= all.take(i as int));
            assert(all.take(i as int + 1).last() == all[i as int]);
            assert(all[i as int] == regions@[i as int]@);
        }
        let region = &regions[i];
        if region.readable && region.writable {
            let c = region_dup(region);
            proof {
                assert(out@.push(c).map_values(f) =~= out@.map_values(f) + seq![c@]);
            }
            out.push(c);
        } else {
            proof {
                assert(spec_retained(all.take(i as int + 1)) =~= spec_retained(
                    all.take(i as int),
                ));
            }
        }
        i = i + 1;
    }
    proof {
        assert(all.take(n as int) =~= all);
    }
    out
}

/// Lay the per-region outputs end to end, in region order.
fn concat_results(parts: &Vec<Vec<FoundAddress>>) -> (r: Vec<FoundAddress>)
    ensures
        r@ == spec_concat_all(parts@.map_values(|p: Vec<FoundAddress>| p@)),
{
    let ghost f = |p: Vec<FoundAddress>| p@;
    let ghost all = parts@.map_values(f);
    let n = parts.len();
    let mut out: Vec<FoundAddress> = Vec::new();
    let mut i: usize = 0;
    proof {
        assert(all.take(0) =~= Seq::<Seq<FoundAddress>>::empty());
    }
    while i < n
        invariant
            i <= n,
            n == parts@.len(),
            f == (|p: Vec<FoundAddress>| p@),
            all == parts@.map_values(f),
            out@ == spec_concat_all(all.take(i as int)),
        decreases n - i,
    {
        proof {
            assert(all.take(i as int + 1).drop_last() =~= all.take(i as int));
            assert(all.take(i as int + 1).last() == all[i as int]);
            assert(all[i as int] == parts@[i as int]@);
        }
        let part = &parts[i];
        let mut k: usize = 0;
        let ghost base = out@;
        while k < part.len()
            invariant
                k <= part@.len(),
                out@ == base + part@.take(k as int),
            decreases part@.len() - k,
        {
            proof {
                assert(part@.take(k as int + 1) =~= part@.take(k as int).push(part@[k as int]));
            }
            out.push(part[k]);
            k = k + 1;
        }
        proof {
            assert(part@.take(part@.len() as int) =~= part@);
        }
        i = i + 1;
    }
    proof {
        assert(all.take(n as int) =~= all);
    }
    out
}


proof fn lemma_concat_all_membership(ss: Seq<Seq<FoundAddress>>, fa: FoundAddress)
    requires
        spec_concat_all(ss).contains(fa),
    ensures
        exists|i: int| 0 <= i < ss.len() && (#[trigger] ss[i]).contains(fa),
    decreases ss.len(),
{
    if ss.len() == 0 {
    } else {
        let head = spec_concat_all(ss.drop_last());
        let whole = spec_concat_all(ss);
        let j = choose|j: int| 0 <= j < whole.len() && whole[j] == fa;
        if j < head.len() {
            assert(head[j] == fa);
            assert(head.contains(fa));
            lemma_concat_all_membership(ss.drop_last(), fa);
            let i = choose|i: int|
                0 <= i < ss.drop_last().len() && (#[trigger] ss.drop_last()[i]).contains(fa);
            assert(ss[i].contains(fa));
        } else {
            assert(ss.last()[j - head.len()] == fa);
            assert(ss[ss.len() - 1].contains(fa));
        }
    }
}

/// Whether an address lies inside one of the given regions.
pub open spec fn within_some_region(regions: Seq<RegionData>, address: usize) -> bool {
    exists|i: int|
        0 <= i < regions.len() && ((#[trigger] regions[i]).start <= address < regions[i].end)
}

// --- Refinement over a whole watched set ---

/// What one refinement outcome contributes to the narrowed set.
pub open spec fn opt_seq(o: Option<FoundAddress>) -> Seq<FoundAddress> {
    match o {
        Some(fa) => seq![fa],
        None => Seq::empty(),
    }
}

/// The refinement of a whole watched set, given each address's read
/// outcome: only matching addresses remain, in their original order, each
/// carrying its freshly read value.
pub open spec fn spec_refine_all(
    prevs: Seq<FoundAddress>,
    reads: Seq<Option<Seq<u8>>>,
    vt: ValueType,
    st: ScanType,
    target: Option<Value>,
) -> Seq<FoundAddress>
    recommends
        reads.len() == prevs.len(),
    decreases prevs.len(),
{
    if prevs.len() == 0 {
        Seq::empty()
    } else {
        spec_refine_all(prevs.drop_last(), reads.drop_last(), vt, st, target) + opt_seq(
            spec_refine_one(prevs.last(), reads.last(), vt, st, target),
        )
    }
}


/// A refinement only narrows: every address it returns was already in the
/// watched set it was given.
pub proof fn lemma_refinement_narrows(
    prevs: Seq<FoundAddress>,
    reads: Seq<Option<Seq<u8>>>,
    vt: ValueType,
    st: ScanType,
    target: Option<Value>,
)
    requires
        reads.len() == prevs.len(),
    ensures
        forall|fa: FoundAddress|
            #[trigger] spec_refine_all(prevs, reads, vt, st, target).contains(fa) ==> exists|i: int|
                0 <= i < prevs.len() && (#[trigger] prevs[i]).address == fa.address,
    decreases prevs.len(),
{
    if prevs.len() == 0 {
    } else {
        lemma_refinement_narrows(prevs.drop_last(), reads.drop_last(), vt, st, target);
        let head = spec_refine_all(prevs.drop_last(), reads.drop_last(), vt, st, target);
        let whole = spec_refine_all(prevs, reads, vt, st, target);
        let tail = opt_seq(spec_refine_one(prevs.last(), reads.last(), vt, st, target));
        assert forall|fa: FoundAddress| #[trigger] whole.contains(fa) implies exists|i: int|
            0 <= i < prevs.len() && (#[trigger] prevs[i]).address == fa.address by {
            let j = choose|j: int| 0 <= j < whole.len() && whole[j] == fa;
            if j < head.len() {
                assert(head[j] == fa);
                assert(head.contains(fa));
                let i = choose|i: int|
                    0 <= i < prevs.drop_last().len() && (#[trigger] prevs.drop_last()[i]).address
                        == fa.address;
                assert(prevs[i].address == fa.address);
            } else {
                assert(tail[j - head.len()] == fa);
                assert(fa.address == prevs.last().address);
                assert(prevs[prevs.len() - 1].address == fa.address);
            }
        }
    }
}

// --- Scan size estimation ---

/// The bytes a scan would cover: the sizes of exactly the regions that are
/// both readable and writable, summed; other regions contribute nothing.
pub open spec fn spec_scannable_total(rs: Seq<RegionData>) -> int
    decreases rs.len(),
{
    if rs.len() == 0 {
        0
    } else {
        spec_scannable_total(rs.drop_last()) + if rs.last().readable && rs.last().writable {
            rs.last().spec_size() as int
        } else {
            0
        }
    }
}

proof fn lemma_scannable_total_nonneg(rs: Seq<RegionData>)
    ensures
        spec_scannable_total(rs) >= 0,
    decreases rs.len(),
{
    if rs.len() > 0 {
        lemma_scannable_total_nonneg(rs.drop_last());
    }
}

/// Total scannable memory: the sum of the sizes of exactly the regions
/// that are both readable and writable, saturating at the machine word.
/// Best-effort: the map may go stale before the scan that follows it.
pub fn estimate_scan_size(regions: &Vec<MemoryRegion>) -> (r: usize)
    requires
        forall|i: int| 0 <= i < regions@.len() ==> (#[trigger] regions@[i]).wf(),
    ensures
        ({
            let total = spec_scannable_total(regions@.map_values(|reg: MemoryRegion| reg@));
            if total <= usize::MAX {
                r == total
            } else {
                r == usize::MAX
            }
        }),
{
    let ghost f = |reg: MemoryRegion| reg@;
    let ghost all = regions@.map_values(f);
    let n = regions.len();
    let mut acc: usize = 0;
    let mut i: usize = 0;
    proof {
        assert(all.take(0) =~= Seq::<RegionData>::empty());
    }
    while i < n
        invariant
            i <= n,
            n == regions@.len(),
            f == (|reg: MemoryRegion| reg@),
            all == regions@.map_values(f),
            forall|k: int| 0 <= k < regions@.len() ==> (#[trigger] regions@[k]).wf(),
            ({
                let total = spec_scannable_total(all.take(i as int));
                if total <= usize::MAX {
                    acc == total
                } else {
                    acc == usize::MAX
                }
            }),
        decreases n - i,
    {
        proof {
            assert(all.take(i as int + 1).drop_last() =~= all.take(i as int));
            assert(all.take(i as int + 1).last() == all[i as int]);
            assert(all[i as int] == regions@[i as int]@);
            lemma_scannable_total_nonneg(all.take(i as int));
        }
        let region = &regions[i];
        if region.readable && region.writable {
            let size = region.size();
            acc = match acc.checked_add(size) {
                Some(next) => next,
                None => usize::MAX,
            };
        }
        i = i + 1;
    }
    proof {
        assert(all.take(n as int) =~= all);
    }
    acc
}

// --- The engine ---

/// One scan engine bound to a target process and a selected value kind.
pub struct Scanner {
    pub pid: i32,
    pub reader: MemoryReader,
    pub value_type: ValueType,
}

impl Scanner {
    pub fn new(pid: i32, value_type: ValueType) -> (r: Self)
        ensures
            r.pid == pid,
            r.reader.pid == pid,
            r.value_type == value_type,
    {
        Self { pid, reader: MemoryReader::new(pid), value_type }
    }

    /// A first scan over the given regions: retain exactly the
    /// readable-and-writable ones, scan each retained region's bytes at
    /// every byte offset — one task per region across the worker pool —
    /// and return the matches, region by region in retention order,
    /// increasing offsets within a region. A region whose read failed
    /// contributes zero matches and never aborts the scan.
    pub fn initial_scan(
        &self,
        regions: &Vec<MemoryRegion>,
        scan_type: ScanType,
        target_value: &Option<Value>,
    ) -> (r: Vec<FoundAddress>)
        requires
            forall|i: int| 0 <= i < regions@.len() ==> (#[trigger] regions@[i]).wf(),
        ensures
            exists|outs: Seq<Seq<FoundAddress>>|
                {
                    let retained = spec_retained(
                        regions@.map_values(|reg: MemoryRegion| reg@),
                    );
                    &&& outs.len() == retained.len()
                    &&& (forall|i: int|
                        0 <= i < retained.len() ==> scan_task_post(
                            retained[i],
                            self.value_type,
                            scan_type,
                            *target_value,
                            #[trigger] outs[i],
                        ))
                    &&& r@ == #[trigger] spec_concat_all(outs)
                },
            forall|k: int|
                0 <= k < r@.len() ==> within_some_region(
                    spec_retained(regions@.map_values(|reg: MemoryRegion| reg@)),
                    (#[trigger] r@[k]).address,
                ),
    {
        let retained = filter_scannable(regions);
        let parts = par_scan_regions(
            &self.reader,
            &retained,
            self.value_type,
            scan_type,
            target_value,
        );
        let out = concat_results(&parts);
        proof {
            let ghost outs = parts@.map_values(|p: Vec<FoundAddress>| p@);
            let retained_data = spec_retained(regions@.map_values(|reg: MemoryRegion| reg@));
            assert(outs.len() == retained_data.len());
            assert(forall|i: int|
                0 <= i < retained_data.len() ==> scan_task_post(
                    retained_data[i],
                    self.value_type,
                    scan_type,
                    *target_value,
                    #[trigger] outs[i],
                ));
            assert(out@ == spec_concat_all(outs));
            let vt = self.value_type;
            let st = scan_type;
            let tv = *target_value;
            assert forall|k: int| 0 <= k < out@.len() implies within_some_region(
                retained_data,
                (#[trigger] out@[k]).address,
            ) by {
                let fa = out@[k];
                assert(spec_concat_all(outs)[k] == fa);
                assert(spec_concat_all(outs).contains(fa));
                lemma_concat_all_membership(outs, fa);
                let i = choose|i: int| 0 <= i < outs.len() && (#[trigger] outs[i]).contains(fa);
                assert(scan_task_post(retained_data[i], vt, st, tv, outs[i]));
                let data = choose|data: Seq<u8>|
                    data.len() <= retained_data[i].spec_size() && outs[i] == #[trigger] spec_scan(
                        data,
                        retained_data[i].start,
                        vt,
                        st,
                        tv,
                    );
                assert(retained_data[i] == retained@[i]@);
                assert(retained@[i].wf());
                let width = vt.spec_size();
                if data.len() < width {
                    assert(spec_scan(data, retained_data[i].start, vt, st, tv)
                        == Seq::<FoundAddress>::empty());
                    assert(false);
                } else {
                    lemma_scan_addresses_in_region(data, retained_data[i].start, vt, st, tv);
                    assert(retained_data[i].start <= fa.address < retained_data[i].end);
                }
            }
        }
        out
    }

    /// A first scan that streams its matches: per retained region, full
    /// batches of `batch_size` matches and a trailing partial batch go
    /// through `sender` as they are ready. Batches of one region arrive in
    /// increasing offset order; regions finish in arbitrary parallel
    /// order. A batch size of zero is raised to one. The call blocks until
    /// every region task has finished; callers that must not block run it
    /// on a worker of their own.
    pub fn initial_scan_streaming(
        &self,
        regions: &Vec<MemoryRegion>,
        scan_type: ScanType,
        target_value: &Option<Value>,
        batch_size: usize,
        sender: &std::sync::mpsc::Sender<Vec<FoundAddress>>,
    )
        requires
            forall|i: int| 0 <= i < regions@.len() ==> (#[trigger] regions@[i]).wf(),
    {
        let retained = filter_scannable(regions);
        let bs: usize = if batch_size == 0 {
            1
        } else {
            batch_size
        };
        par_stream_regions(
            &self.reader,
            &retained,
            self.value_type,
            scan_type,
            target_value,
            bs,
            sender,
            None,
            0,
        );
    }

    /// The streaming first scan, with progress: before the fan-out one
    /// `(0, total)` tuple reports the total scannable bytes, and as each
    /// region finishes a `(regionBytes, total)` tuple follows — the
    /// consumer accumulates the first components into bytes-scanned-so-far
    /// (see `ScanSession::absorb_progress`).
    pub fn initial_scan_streaming_with_progress(
        &self,
        regions: &Vec<MemoryRegion>,
        scan_type: ScanType,
        target_value: &Option<Value>,
        batch_size: usize,
        sender: &std::sync::mpsc::Sender<Vec<FoundAddress>>,
        progress: &std::sync::mpsc::Sender<(usize, usize)>,
    )
        requires
            forall|i: int| 0 <= i < regions@.len() ==> (#[trigger] regions@[i]).wf(),
    {
        let retained = filter_scannable(regions);
        let bs: usize = if batch_size == 0 {
            1
        } else {
            batch_size
        };
        let total = estimate_scan_size(regions);
        send_progress(progress, 0, total);
        par_stream_regions(
            &self.reader,
            &retained,
            self.value_type,
            scan_type,
            target_value,
            bs,
            sender,
            Some(progress),
            total,
        );
    }

    /// Re-scan the watched addresses under a new criterion, one task per
    /// address across the worker pool: each address is re-read at exactly
    /// the kind's width and kept only if the criterion holds of the fresh
    /// value — literal criteria against `target_value`, delta criteria
    /// against the address's previously recorded value. A kept entry
    /// carries the fresh value as the next refinement's baseline; a failed
    /// read drops its entry, never aborts the pass.
    pub fn next_scan(
        &self,
        addresses: &Vec<FoundAddress>,
        scan_type: ScanType,
        target_value: &Option<Value>,
    ) -> (r: Vec<FoundAddress>)
        ensures
            exists|reads: Seq<Option<Seq<u8>>>|
                {
                    &&& reads.len() == addresses@.len()
                    &&& (forall|i: int|
                        0 <= i < reads.len() ==> ((#[trigger] reads[i]) matches Some(b)
                            ==> b.len() <= self.value_type.spec_size()))
                    &&& r@ == spec_refine_all(
                        addresses@,
                        reads,
                        self.value_type,
                        scan_type,
                        *target_value,
                    )
                },
            r@.len() <= addresses@.len(),
            forall|k: int|
                0 <= k < r@.len() ==> exists|i: int|
                    0 <= i < addresses@.len() && (#[trigger] addresses@[i]).address == (
                    #[trigger] r@[k]).address,
    {
        let outs = par_refine_addresses(
            &self.reader,
            addresses,
            self.value_type,
            scan_type,
            target_value,
        );
        let n = outs.len();
        let mut r: Vec<FoundAddress> = Vec::new();
        let ghost mut reads: Seq<Option<Seq<u8>>> = Seq::empty();
        let mut i: usize = 0;
        proof {
            assert(addresses@.take(0) =~= Seq::<FoundAddress>::empty());
        }
        while i < n
            invariant
                i <= n,
                n == outs@.len(),
                n == addresses@.len(),
                reads.len() == i,
                forall|k: int|
                    0 <= k < addresses@.len() ==> refine_task_post(
                        addresses@[k],
                        self.value_type,
                        scan_type,
                        *target_value,
                        #[trigger] outs@[k],
                    ),
                forall|k: int|
                    0 <= k < i ==> ((#[trigger] reads[k]) matches Some(b) ==> b.len()
                        <= self.value_type.spec_size()),
                r@ == spec_refine_all(
                    addresses@.take(i as int),
                    reads,
                    self.value_type,
                    scan_type,
                    *target_value,
                ),
                r@.len() <= i,
            decreases n - i,
        {
            let ghost read_i = choose|read: Option<Seq<u8>>|
                (read matches Some(b) ==> b.len() <= self.value_type.spec_size()) && outs@[
                    i as int
                ] == spec_refine_one(
                    addresses@[i as int],
                    read,
                    self.value_type,
                    scan_type,
                    *target_value,
                );
            proof {
                assert(refine_task_post(
                    addresses@[i as int],
                    self.value_type,
                    scan_type,
                    *target_value,
                    outs@[i as int],
                ));
                assert(addresses@.take(i as int + 1).drop_last() =~= addresses@.take(i as int));
                assert(addresses@.take(i as int + 1).last() == addresses@[i as int]);
                assert(reads.push(read_i).drop_last() =~= reads);
                assert(reads.push(read_i).last() == read_i);
            }
            let out_i = outs[i];
            proof {
                reads = reads.push(read_i);
            }
            match out_i {
                Some(fa) => {
                    proof {
                        assert(r@.push(fa) =~= r@ + opt_seq(Some(fa)));
                    }
                    r.push(fa);
                },
                None => {
                    proof {
                        assert(r@ =~= r@ + opt_seq(None));
                    }
                },
            }
            i = i + 1;
        }
        proof {
            assert(addresses@.take(n as int) =~= addresses@);
            lemma_refinement_narrows(addresses@, reads, self.value_type, scan_type, *target_value);
            assert(forall|k: int|
                0 <= k < r@.len() ==> (#[trigger] r@[k]) == r@[k] && r@.contains(r@[k]));
        }
        r
    }

    /// Read the current value at one address, at the engine's kind.
    /// Successful reads that do not yield a full-width value are an
    /// invalid address.
    pub fn read_address(&self, address: usize) -> (r: Result<Value, MemoryError>)
        ensures
            r matches Ok(v) ==> v.spec_kind() == self.value_type && exists|b: Seq<u8>|
                b.len() == self.value_type.spec_size() && Some(v) == #[trigger] spec_decode(
                    b,
                    self.value_type,
                ),
    {
        let width = self.value_type.size();
        let data = match self.reader.read_value(address, width) {
            Ok(data) => data,
            Err(e) => {
                return Err(e);
            },
        };
        match Value::from_bytes(data.as_slice(), self.value_type) {
            Some(v) => {
                proof {
                    assert(Some(v) == spec_decode(data@, self.value_type));
                }
                Ok(v)
            },
            None => Err(MemoryError::InvalidAddress),
        }
    }

    /// Write one value's encoding at an address: exactly the kind's width
    /// of bytes. An explicit, user-driven write: what lands in the target
    /// is the operating system's outcome, so nothing is promised of it; a
    /// failure surfaces to the caller as it came.
    pub fn write_address(&self, address: usize, value: &Value) -> (r: Result<(), MemoryError>) {
        let bytes = value.to_bytes();
        match self.reader.write_memory(address, bytes.as_slice()) {
            Ok(_) => Ok(()),
            Err(e) => Err(e),
        }
    }
}

} // verus!
