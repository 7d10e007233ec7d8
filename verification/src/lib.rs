//! Verified core of a live-memory scanner: typed value codec, memory-map
//! parsing, remote reads and writes, and the scan engine that searches a
//! process's writable regions for values matching a criterion and narrows
//! the match set across repeated scans.

pub mod memory;
pub mod process;
pub mod scanner;
pub mod session;
pub mod types;

pub use memory::MemoryError;
pub use memory::MemoryReader;
pub use process::get_memory_regions;
pub use process::parse_maps_line;
pub use process::MemoryRegion;
pub use process::Process;
pub use process::RegionData;
pub use process::ProcessError;
pub use scanner::estimate_scan_size;
pub use scanner::make_batches;
pub use scanner::refine_decision;
pub use scanner::scan_bytes;
pub use scanner::Scanner;
pub use session::parse_value_for_type;
pub use session::ParseError;
pub use session::SavedAddress;
pub use session::ScanSession;
pub use session::MAX_LIVE_REFRESH;
pub use types::FoundAddress;
pub use types::ScanType;
pub use types::Value;
pub use types::ValueType;
