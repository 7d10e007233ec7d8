use memscan::FoundAddress;
use memscan::MemoryReader;
use memscan::MemoryRegion;
use memscan::ScanSession;
use memscan::ScanType;
use memscan::Scanner;
use memscan::Value;
use memscan::ValueType;

fn own_pid() -> i32 {
    nix::unistd::getpid().as_raw()
}

fn buffer_region(buf: &Vec<u8>) -> MemoryRegion {
    let start = buf.as_ptr() as usize;
    MemoryRegion {
        start,
        end: start + buf.len(),
        readable: true,
        writable: true,
        executable: false,
        offset: 0,
        pathname: Vec::new(),
    }
}

#[test]
fn scan_then_refine_scenario() {
    // one writable region, all zero except an i32 1234 at offset 0x20
    let mut buf = vec![0u8; 0x100];
    buf[0x20..0x24].copy_from_slice(&1234i32.to_le_bytes());
    let base = buf.as_ptr() as usize;
    let scanner = Scanner::new(own_pid(), ValueType::I32);
    let regions = vec![buffer_region(&buf)];

    let hits = scanner.initial_scan(&regions, ScanType::ExactValue, &Some(Value::I32(1234)));
    assert_eq!(hits.len(), 1);
    assert_eq!(hits[0].address, base + 0x20);
    assert_eq!(hits[0].value, Value::I32(1234));

    // an external write bumps the value; an increased-value refinement
    // keeps the address, carrying the fresh value
    buf[0x20..0x24].copy_from_slice(&1235i32.to_le_bytes());
    let refined = scanner.next_scan(&hits, ScanType::IncreasedValue, &None);
    assert_eq!(refined.len(), 1);
    assert_eq!(refined[0].address, base + 0x20);
    assert_eq!(refined[0].value, Value::I32(1235));

    // repeating it over unchanged memory yields an empty set
    let again = scanner.next_scan(&refined, ScanType::IncreasedValue, &None);
    assert!(again.is_empty());
}

#[test]
fn refinement_keeps_exactly_externally_increased_addresses() {
    let mut buf = vec![10u8, 20, 30, 40];
    let base = buf.as_ptr() as usize;
    let scanner = Scanner::new(own_pid(), ValueType::U8);
    let regions = vec![buffer_region(&buf)];

    let watched = scanner.initial_scan(&regions, ScanType::UnknownInitial, &None);
    assert_eq!(watched.len(), 4);

    buf[1] += 1;
    buf[3] += 1;
    let refined = scanner.next_scan(&watched, ScanType::IncreasedValue, &None);
    let addrs: Vec<usize> = refined.iter().map(|f| f.address).collect();
    assert_eq!(addrs, vec![base + 1, base + 3]);
    assert_eq!(refined[0].value, Value::U8(21));
    assert_eq!(refined[1].value, Value::U8(41));
}

#[test]
fn streamed_batches_union_equals_plain_scan() {
    let mut buf = vec![0u8; 0x200];
    for off in [0x00usize, 0x33, 0x80, 0xa1, 0x1f0] {
        buf[off..off + 4].copy_from_slice(&42i32.to_le_bytes());
    }
    let scanner = Scanner::new(own_pid(), ValueType::I32);
    let regions = vec![buffer_region(&buf)];
    let target = Some(Value::I32(42));

    let direct = scanner.initial_scan(&regions, ScanType::ExactValue, &target);
    assert_eq!(direct.len(), 5);

    let (tx, rx) = std::sync::mpsc::channel();
    scanner.initial_scan_streaming(&regions, ScanType::ExactValue, &target, 2, &tx);
    drop(tx);
    let mut streamed: Vec<FoundAddress> = Vec::new();
    let mut batches = 0;
    for batch in rx.iter() {
        assert!(!batch.is_empty());
        assert!(batch.len() <= 2);
        streamed.extend(batch);
        batches += 1;
    }
    assert_eq!(batches, 3);
    assert_eq!(streamed, direct);
}

#[test]
fn streaming_reports_progress_up_to_total() {
    let buf = vec![0u8; 0x180];
    let scanner = Scanner::new(own_pid(), ValueType::I32);
    let regions = vec![buffer_region(&buf)];

    let (tx, rx) = std::sync::mpsc::channel();
    let (ptx, prx) = std::sync::mpsc::channel();
    scanner.initial_scan_streaming_with_progress(
        &regions,
        ScanType::ExactValue,
        &Some(Value::I32(7)),
        64,
        &tx,
        &ptx,
    );
    drop(tx);
    drop(ptx);
    let tuples: Vec<(usize, usize)> = prx.iter().collect();
    assert!(tuples.len() >= 2);
    assert_eq!(tuples[0], (0, 0x180));
    let scanned: usize = tuples.iter().map(|t| t.0).sum();
    assert_eq!(scanned, 0x180);
    for t in &tuples {
        assert_eq!(t.1, 0x180);
    }
}

#[test]
fn failed_region_contributes_nothing_and_blocks_nothing() {
    let mut buf = vec![0u8; 0x100];
    buf[0x40..0x44].copy_from_slice(&555i32.to_le_bytes());
    let base = buf.as_ptr() as usize;
    let scanner = Scanner::new(own_pid(), ValueType::I32);
    // the first region is not mapped: its bulk read fails entirely
    let bogus = MemoryRegion {
        start: 0x10,
        end: 0x1010,
        readable: true,
        writable: true,
        executable: false,
        offset: 0,
        pathname: Vec::new(),
    };
    let regions = vec![bogus, buffer_region(&buf)];
    let hits = scanner.initial_scan(&regions, ScanType::ExactValue, &Some(Value::I32(555)));
    assert_eq!(hits.len(), 1);
    assert_eq!(hits[0].address, base + 0x40);
}

#[test]
fn read_only_regions_are_not_scanned() {
    let mut buf = vec![0u8; 0x40];
    buf[0..4].copy_from_slice(&9i32.to_le_bytes());
    let mut region = buffer_region(&buf);
    region.writable = false;
    let scanner = Scanner::new(own_pid(), ValueType::I32);
    let hits = scanner.initial_scan(&vec![region], ScanType::ExactValue, &Some(Value::I32(9)));
    assert!(hits.is_empty());
}

#[test]
fn write_then_read_address_round_trips() {
    let buf = vec![0u8; 0x20];
    let addr = buf.as_ptr() as usize + 8;
    let scanner = Scanner::new(own_pid(), ValueType::I32);
    scanner.write_address(addr, &Value::I32(777)).unwrap();
    assert_eq!(&buf[8..12], &777i32.to_le_bytes());
    assert_eq!(scanner.read_address(addr).unwrap(), Value::I32(777));
}

#[test]
fn session_phases_and_progress() {
    let mut s = ScanSession::new();
    assert!(s.first_scan);
    assert!(s.criterion_valid());
    s.scan_type = ScanType::IncreasedValue;
    // delta criteria are not admissible on a first scan
    assert!(!s.criterion_valid());
    s.scan_type = ScanType::ExactValue;
    assert!(s.scan_type_needs_value());

    s.begin_scan();
    assert!(s.is_scanning);
    s.absorb_progress(0, 100);
    s.absorb_progress(40, 100);
    assert_eq!((s.progress_current, s.progress_total), (40, 100));
    s.absorb_batch(vec![FoundAddress { address: 1, value: Value::I32(5) }]);
    s.absorb_batch(vec![FoundAddress { address: 9, value: Value::I32(5) }]);
    assert_eq!(s.scan_results.len(), 2);

    // exactly one completion signal ends the pass and flips the phase
    s.finish_scan(true);
    assert!(!s.is_scanning);
    assert!(!s.first_scan);
    assert_eq!(s.progress_current, 100);
    s.scan_type = ScanType::IncreasedValue;
    assert!(s.criterion_valid());

    // an explicit new scan starts over
    s.new_scan();
    assert!(s.first_scan);
    assert!(s.scan_results.is_empty());
    assert_eq!((s.progress_current, s.progress_total), (0, 0));
}

#[test]
fn live_refresh_updates_watched_values_but_not_edited_entry() {
    let mut buf = vec![0u8; 0x10];
    buf[0..4].copy_from_slice(&100i32.to_le_bytes());
    let base = buf.as_ptr() as usize;
    let reader = MemoryReader::new(own_pid());

    let mut s = ScanSession::new();
    s.begin_scan();
    s.absorb_batch(vec![FoundAddress { address: base, value: Value::I32(100) }]);
    s.finish_scan(true);
    s.save_result(0);
    assert_eq!(s.saved_addresses.len(), 1);
    assert_eq!(s.saved_addresses[0].value, Value::I32(100));

    buf[0..4].copy_from_slice(&222i32.to_le_bytes());
    s.refresh_live_values(&reader, None);
    assert_eq!(s.saved_addresses[0].value, Value::I32(222));
    assert_eq!(s.scan_results[0].value, Value::I32(222));

    // the entry being edited is skipped that cycle
    buf[0..4].copy_from_slice(&333i32.to_le_bytes());
    s.refresh_live_values(&reader, Some(0));
    assert_eq!(s.saved_addresses[0].value, Value::I32(222));
    assert_eq!(s.scan_results[0].value, Value::I32(333));
}

#[test]
fn write_saved_value_writes_memory_and_records() {
    let buf = vec![0u8; 8];
    let base = buf.as_ptr() as usize;
    let reader = MemoryReader::new(own_pid());
    let mut s = ScanSession::new();
    s.begin_scan();
    s.absorb_batch(vec![FoundAddress { address: base, value: Value::I32(0) }]);
    s.finish_scan(true);
    s.save_result(0);

    s.write_saved_value(&reader, 0, Value::I32(4321)).unwrap();
    assert_eq!(&buf[0..4], &4321i32.to_le_bytes());
    assert_eq!(s.saved_addresses[0].value, Value::I32(4321));
}
