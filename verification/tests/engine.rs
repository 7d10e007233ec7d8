use memscan::estimate_scan_size;
use memscan::get_memory_regions;
use memscan::make_batches;
use memscan::parse_maps_line;
use memscan::refine_decision;
use memscan::scan_bytes;
use memscan::FoundAddress;
use memscan::MemoryError;
use memscan::MemoryRegion;
use memscan::ScanType;
use memscan::Value;
use memscan::ValueType;

fn region(start: usize, end: usize, r: bool, w: bool, x: bool) -> MemoryRegion {
    MemoryRegion {
        start,
        end,
        readable: r,
        writable: w,
        executable: x,
        offset: 0,
        pathname: Vec::new(),
    }
}

#[test]
fn scan_finds_unaligned_pattern_exactly_once() {
    // a target pattern embedded at an unaligned offset is found at exactly
    // region.start + offset
    let base: usize = 0x1000;
    let n = 256;
    let o = 0x21;
    let mut data = vec![0u8; n];
    data[o..o + 4].copy_from_slice(&1234i32.to_le_bytes());
    let hits = scan_bytes(&data, base, ValueType::I32, ScanType::ExactValue, &Some(Value::I32(1234)));
    assert_eq!(hits.len(), 1);
    assert_eq!(hits[0].address, base + o);
    assert_eq!(hits[0].value, Value::I32(1234));
}

#[test]
fn scan_walks_every_byte_offset() {
    // unknown initial value matches every single-byte offset
    let data = vec![0u8; 16];
    let hits = scan_bytes(&data, 0, ValueType::I32, ScanType::UnknownInitial, &None);
    assert_eq!(hits.len(), 16 - 4 + 1);
    for (i, h) in hits.iter().enumerate() {
        assert_eq!(h.address, i);
        assert_eq!(h.value, Value::I32(0));
    }
}

#[test]
fn scan_orders_matches_by_offset_and_sees_overlaps() {
    let data: Vec<u8> = vec![7, 7, 7, 1, 7];
    let hits = scan_bytes(&data, 100, ValueType::U8, ScanType::ExactValue, &Some(Value::U8(7)));
    let addrs: Vec<usize> = hits.iter().map(|h| h.address).collect();
    assert_eq!(addrs, vec![100, 101, 102, 104]);
}

#[test]
fn scan_without_target_matches_nothing() {
    let data = vec![0u8; 32];
    let hits = scan_bytes(&data, 0, ValueType::I32, ScanType::ExactValue, &None);
    assert!(hits.is_empty());
    // refinement criteria have no baseline on a first scan
    let hits = scan_bytes(&data, 0, ValueType::I32, ScanType::IncreasedValue, &None);
    assert!(hits.is_empty());
}

#[test]
fn scan_short_buffer_has_no_offsets() {
    let data = vec![1u8, 2, 3];
    let hits = scan_bytes(&data, 0, ValueType::I32, ScanType::UnknownInitial, &None);
    assert!(hits.is_empty());
}

#[test]
fn batches_carry_everything_in_order() {
    let matches: Vec<FoundAddress> = (0..1100)
        .map(|i| FoundAddress { address: i, value: Value::U8(0) })
        .collect();
    let batches = make_batches(&matches, 512);
    assert_eq!(batches.len(), 3);
    assert_eq!(batches[0].len(), 512);
    assert_eq!(batches[1].len(), 512);
    assert_eq!(batches[2].len(), 76);
    let union: Vec<FoundAddress> = batches.concat();
    assert_eq!(union, matches);
}

#[test]
fn refine_keeps_exactly_increased_values() {
    let prev = FoundAddress { address: 0x1020, value: Value::I32(1234) };
    let bigger: Result<Vec<u8>, MemoryError> = Ok(1235i32.to_le_bytes().to_vec());
    let kept = refine_decision(&prev, &bigger, ValueType::I32, ScanType::IncreasedValue, &None);
    assert_eq!(kept, Some(FoundAddress { address: 0x1020, value: Value::I32(1235) }));
    let same: Result<Vec<u8>, MemoryError> = Ok(1234i32.to_le_bytes().to_vec());
    assert_eq!(refine_decision(&prev, &same, ValueType::I32, ScanType::IncreasedValue, &None), None);
    let smaller: Result<Vec<u8>, MemoryError> = Ok(1233i32.to_le_bytes().to_vec());
    assert_eq!(
        refine_decision(&prev, &smaller, ValueType::I32, ScanType::IncreasedValue, &None),
        None
    );
}

#[test]
fn refine_drops_failed_and_short_reads() {
    let prev = FoundAddress { address: 64, value: Value::I32(5) };
    let failed: Result<Vec<u8>, MemoryError> = Err(MemoryError::PermissionDenied);
    assert_eq!(refine_decision(&prev, &failed, ValueType::I32, ScanType::UnchangedValue, &None), None);
    let short: Result<Vec<u8>, MemoryError> = Ok(vec![5, 0]);
    assert_eq!(refine_decision(&prev, &short, ValueType::I32, ScanType::UnchangedValue, &None), None);
}

#[test]
fn refine_literal_criteria_use_target() {
    let prev = FoundAddress { address: 8, value: Value::I32(50) };
    let read: Result<Vec<u8>, MemoryError> = Ok(60i32.to_le_bytes().to_vec());
    let kept = refine_decision(&prev, &read, ValueType::I32, ScanType::ExactValue, &Some(Value::I32(60)));
    assert_eq!(kept, Some(FoundAddress { address: 8, value: Value::I32(60) }));
    assert_eq!(
        refine_decision(&prev, &read, ValueType::I32, ScanType::ExactValue, &Some(Value::I32(50))),
        None
    );
}

#[test]
fn maps_row_parses_fields() {
    let line = b"00400000-00452000 r-xp 00010000 08:02 173521 /usr/bin/daemon";
    let reg = parse_maps_line(line).unwrap();
    assert_eq!(reg.start, 0x0040_0000);
    assert_eq!(reg.end, 0x0045_2000);
    assert!(reg.readable);
    assert!(!reg.writable);
    assert!(reg.executable);
    assert_eq!(reg.offset, 0x0001_0000);
    assert_eq!(reg.pathname, b"/usr/bin/daemon".to_vec());
    assert_eq!(reg.size(), 0x52000);
}

#[test]
fn maps_row_without_path_has_empty_pathname() {
    let reg = parse_maps_line(b"7ffc1000-7ffc2000 rw-p 00000000 00:00 0").unwrap();
    assert!(reg.readable && reg.writable && !reg.executable);
    assert_eq!(reg.pathname, Vec::<u8>::new());
}

#[test]
fn maps_row_path_with_spaces_is_joined() {
    let reg =
        parse_maps_line(b"1000-2000 rw-p 00000000 00:00 0 /tmp/with space").unwrap();
    assert_eq!(reg.pathname, b"/tmp/with space".to_vec());
}

#[test]
fn malformed_maps_rows_are_skipped() {
    assert!(parse_maps_line(b"").is_none());
    assert!(parse_maps_line(b"not a maps row").is_none());
    assert!(parse_maps_line(b"1000-2000 rw-p").is_none()); // too few columns
    assert!(parse_maps_line(b"10zz-2000 rw-p 00000000 00:00 0").is_none()); // bad hex
    assert!(parse_maps_line(b"1000 rw-p 00000000 00:00 0").is_none()); // no range
    assert!(parse_maps_line(b"1000-2000-3000 rw-p 00000000 00:00 0").is_none());
    assert!(parse_maps_line(b"2000-1000 rw-p 00000000 00:00 0").is_none()); // backwards
    assert!(parse_maps_line(b"1000-2000 rw 00000000 00:00 0").is_none()); // short perms
}

#[test]
fn listing_keeps_only_readable_writable_rows() {
    let maps = b"00400000-00452000 r-xp 00000000 08:02 17 /usr/bin/daemon\n\
7f0000000000-7f0000021000 rw-p 00000000 00:00 0\n\
garbage line\n\
7f0000021000-7f0000022000 ---p 00000000 00:00 0\n\
7ffc00000000-7ffc00004000 rw-p 00000000 00:00 0 [stack]\n";
    let regions = get_memory_regions(maps);
    assert_eq!(regions.len(), 2);
    assert_eq!(regions[0].start, 0x7f00_0000_0000);
    assert_eq!(regions[0].end, 0x7f00_0002_1000);
    assert_eq!(regions[1].pathname, b"[stack]".to_vec());
}

#[test]
fn estimate_sums_exactly_readable_writable_regions() {
    let regions = vec![
        region(0x1000, 0x2000, true, true, false), // counted: 0x1000
        region(0x2000, 0x5000, true, false, false), // read-only: excluded
        region(0x5000, 0x6000, false, false, true), // exec-only: excluded
        region(0x6000, 0x6000, false, false, false), // no access: excluded
        region(0x8000, 0x8400, true, true, true), // counted: 0x400
    ];
    assert_eq!(estimate_scan_size(&regions), 0x1000 + 0x400);
    assert_eq!(estimate_scan_size(&Vec::new()), 0);
}
