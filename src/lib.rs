//! Analysis core of a memory scanner for a foreign process: a protection
//! filter for regions, a typed value scanner, a wildcard byte-pattern scanner
//! and a disassembly-assisted cross-reference scanner.
//!
//! All scanners work on byte buffers that the caller has read from the
//! process; reading and region enumeration stay with the caller. Results
//! follow ascending offset within a buffer; across regions they follow the
//! order in which the caller hands the regions over.
pub mod decoder;
pub mod listing;
pub mod pattern;
pub mod protection_filter;
pub mod value_scan;
pub mod xref_scanner;

pub use decoder::{init_capstone, Arch, DecodedInsn, Disassembler, InsnDetail, InsnOperand};
pub use pattern::{parse_pattern, scan_pattern, PatternElement, PatternError};
pub use protection_filter::{
    page_type_to_rwx, protection_filter_matches, region_selected, MemoryRegion, Protection,
};
pub use value_scan::{
    aligned_offsets, first_pass, incremental_pass, scan_buffer, CompareType, FoundValue, ScanResult,
    ScanValue, ValueKind,
};
pub use xref_scanner::{
    find_potential_call_offsets, get_instruction_context, is_reference_to, scan_region_for_xrefs,
    scan_region_with, XrefResult, XrefType,
};
