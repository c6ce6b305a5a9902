use memscan::{page_type_to_rwx, protection_filter_matches, region_selected, MemoryRegion, Protection};

fn prot(writable: bool, executable: bool) -> Protection {
    Protection { writable, executable }
}

#[test]
fn rwx_strings_for_each_flag_combination() {
    assert_eq!(page_type_to_rwx(prot(false, false)), "r--");
    assert_eq!(page_type_to_rwx(prot(true, false)), "rw-");
    assert_eq!(page_type_to_rwx(prot(false, true)), "r-x");
    assert_eq!(page_type_to_rwx(prot(true, true)), "rwx");
}

#[test]
fn filter_r_x_matches_only_derived_r_x() {
    assert!(protection_filter_matches(prot(false, true), "r-x"));
    assert!(!protection_filter_matches(prot(true, true), "r-x"));
    assert!(!protection_filter_matches(prot(false, false), "r-x"));
    assert!(!protection_filter_matches(prot(true, false), "r-x"));
}

#[test]
fn filter_uses_substring_semantics() {
    assert!(protection_filter_matches(prot(true, true), "rw"));
    assert!(protection_filter_matches(prot(true, true), "wx"));
    assert!(protection_filter_matches(prot(false, false), "r"));
    assert!(protection_filter_matches(prot(false, false), ""));
    assert!(!protection_filter_matches(prot(false, true), "rx"));
    assert!(!protection_filter_matches(prot(true, true), "rwxr"));
}

#[test]
fn region_selection_applies_bounds_and_filter() {
    let region = MemoryRegion { base: 0x1000, size: 0x2000, protection: prot(false, true) };
    assert!(region_selected(&region, 4096, None, None));
    assert!(!region_selected(&region, 0x2001, None, None));
    assert!(region_selected(&region, 0, Some(0x2000), Some("r-x")));
    assert!(!region_selected(&region, 0, Some(0x1fff), None));
    assert!(!region_selected(&region, 0, None, Some("rw")));
}
