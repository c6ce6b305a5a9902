use memscan::{
    aligned_offsets, first_pass, incremental_pass, scan_buffer, CompareType, FoundValue, ScanResult, ScanValue,
    ValueKind,
};

fn addresses(r: &[ScanResult]) -> Vec<u64> {
    r.iter().map(|x| x.address).collect()
}

fn int_at(addr: u64, v: i64) -> ScanResult {
    ScanResult { address: addr, value: FoundValue::Integer(v) }
}

#[test]
fn all_zero_region_integer_zero_hits_every_fitting_offset() {
    let buf = vec![0u8; 4096];
    let r = scan_buffer(&buf, &ScanValue::Integer(0), 1, 0x10000, None, None);
    assert_eq!(r.len(), 4089);
    assert_eq!(r[0].address, 0x10000);
    assert_eq!(r[4088].address, 0x10000 + 4088);
}

#[test]
fn integer_read_little_endian() {
    let mut buf = vec![0u8; 32];
    buf[8..16].copy_from_slice(&0x1122_3344_5566_7788i64.to_le_bytes());
    buf[20..28].copy_from_slice(&(-2i64).to_le_bytes());
    let r = first_pass(&buf, &ScanValue::Integer(0x1122_3344_5566_7788), 1, 0x1000);
    assert_eq!(addresses(&r), vec![0x1008]);
    match r[0].value {
        FoundValue::Integer(v) => assert_eq!(v, 0x1122_3344_5566_7788),
        _ => panic!("wrong kind"),
    }
    let r = first_pass(&buf, &ScanValue::Integer(-2), 1, 0x1000);
    assert_eq!(addresses(&r), vec![0x1014]);
}

#[test]
fn alignment_keeps_hits_congruent_to_base() {
    let buf = vec![7u8; 64];
    let mut target = [0u8; 8];
    target.copy_from_slice(&buf[0..8]);
    let t = i64::from_le_bytes(target);
    let r = first_pass(&buf, &ScanValue::Integer(t), 4, 0x3002);
    assert_eq!(r.len(), 15);
    for hit in &r {
        assert_eq!((hit.address - 0x3002) % 4, 0);
        match hit.value {
            FoundValue::Integer(v) => assert_eq!(v, t),
            _ => panic!("wrong kind"),
        }
    }
}

#[test]
fn alignment_larger_than_buffer_checks_offset_zero_only() {
    let buf = vec![0u8; 16];
    let r = first_pass(&buf, &ScanValue::Integer(0), 100, 0);
    assert_eq!(addresses(&r), vec![0]);
}

#[test]
fn string_and_bytes_targets_match_exact_slices() {
    let buf = b"xxhelloyyhello".to_vec();
    let r = first_pass(&buf, &ScanValue::String("hello".to_string()), 1, 0x500);
    assert_eq!(addresses(&r), vec![0x502, 0x509]);
    match &r[1].value {
        FoundValue::String(b) => assert_eq!(b, b"hello"),
        _ => panic!("wrong kind"),
    }
    let r = first_pass(&buf, &ScanValue::Bytes(vec![b'y', b'h']), 1, 0);
    assert_eq!(addresses(&r), vec![8]);
}

#[test]
fn target_wider_than_buffer_finds_nothing() {
    let buf = vec![0u8; 4];
    assert!(first_pass(&buf, &ScanValue::Integer(0), 1, 0).is_empty());
}

#[test]
fn value_sizes() {
    assert_eq!(ScanValue::Integer(5).size(), 8);
    assert_eq!(ScanValue::String("héllo".to_string()).size(), 6);
    assert_eq!(ScanValue::Bytes(vec![1, 2, 3]).size(), 3);
}

#[test]
fn incremental_only_reexamines_previous_addresses() {
    let buf = vec![0u8; 64];
    let prev = vec![int_at(0x1010, 0), int_at(0x1020, 5)];
    let r = incremental_pass(&buf, &ScanValue::Integer(0), 0x1000, &prev, CompareType::Equal);
    assert_eq!(addresses(&r), vec![0x1010, 0x1020]);
    for hit in &r {
        assert!(prev.iter().any(|p| p.address == hit.address));
    }
}

#[test]
fn incremental_skips_addresses_outside_the_buffer() {
    let buf = vec![0u8; 16];
    let prev = vec![int_at(0x0ff0, 0), int_at(0x1008, 0), int_at(0x1009, 0), int_at(0x2000, 0)];
    let r = incremental_pass(&buf, &ScanValue::Integer(0), 0x1000, &prev, CompareType::Equal);
    assert_eq!(addresses(&r), vec![0x1008]);
}

#[test]
fn incremental_integer_comparisons() {
    let mut buf = vec![0u8; 24];
    buf[0..8].copy_from_slice(&10i64.to_le_bytes());
    buf[8..16].copy_from_slice(&20i64.to_le_bytes());
    buf[16..24].copy_from_slice(&30i64.to_le_bytes());
    let prev = vec![int_at(0, 10), int_at(8, 99), int_at(16, 30)];
    let run = |c: CompareType| addresses(&incremental_pass(&buf, &ScanValue::Integer(20), 0, &prev, c));
    assert_eq!(run(CompareType::Equal), vec![8]);
    assert_eq!(run(CompareType::NotEqual), vec![0, 16]);
    assert_eq!(run(CompareType::Greater), vec![16]);
    assert_eq!(run(CompareType::Less), vec![0]);
    assert_eq!(run(CompareType::Changed), vec![8]);
    assert_eq!(run(CompareType::Unchanged), vec![0, 16]);
}

#[test]
fn changed_and_unchanged_partition_previous_results() {
    let mut buf = vec![0u8; 40];
    buf[3] = 1;
    buf[17] = 9;
    let prev: Vec<ScanResult> = (0..5).map(|i| int_at(i * 8, 0)).collect();
    let changed = addresses(&incremental_pass(&buf, &ScanValue::Integer(0), 0, &prev, CompareType::Changed));
    let unchanged = addresses(&incremental_pass(&buf, &ScanValue::Integer(0), 0, &prev, CompareType::Unchanged));
    assert_eq!(changed, vec![0, 16]);
    assert_eq!(unchanged, vec![8, 24, 32]);
}

#[test]
fn incremental_bytes_comparisons() {
    let buf = b"abcabd".to_vec();
    let prev = vec![
        ScanResult { address: 0, value: FoundValue::Bytes(b"abc".to_vec()) },
        ScanResult { address: 3, value: FoundValue::Bytes(b"abc".to_vec()) },
        ScanResult { address: 1, value: FoundValue::Integer(0) },
    ];
    let t = ScanValue::Bytes(b"abc".to_vec());
    let run = |c: CompareType| addresses(&incremental_pass(&buf, &t, 0, &prev, c));
    assert_eq!(run(CompareType::Equal), vec![0]);
    assert_eq!(run(CompareType::Greater), vec![3]);
    assert_eq!(run(CompareType::Less), Vec::<u64>::new());
    assert_eq!(run(CompareType::Changed), vec![3]);
    assert_eq!(run(CompareType::Unchanged), vec![0]);
}

#[test]
fn scan_buffer_without_compare_type_is_a_first_pass() {
    let buf = vec![0u8; 16];
    let prev = vec![int_at(0, 0)];
    let r = scan_buffer(&buf, &ScanValue::Integer(0), 1, 0, Some(&prev), None);
    assert_eq!(r.len(), 9);
    let r = scan_buffer(&buf, &ScanValue::Integer(0), 1, 0, Some(&prev), Some(CompareType::Unchanged));
    assert_eq!(addresses(&r), vec![0]);
}

#[test]
fn value_and_compare_names() {
    assert_eq!(ValueKind::from_name("int"), Some(ValueKind::Int));
    assert_eq!(ValueKind::from_name("double"), Some(ValueKind::Double));
    assert_eq!(ValueKind::from_name("long"), None);
    assert_eq!(CompareType::from_name("notequal"), Some(CompareType::NotEqual));
    assert_eq!(CompareType::from_name("unchanged"), Some(CompareType::Unchanged));
    assert_eq!(CompareType::from_name("Equal"), None);
}

#[test]
fn aligned_offsets_leave_room_for_the_value() {
    assert_eq!(aligned_offsets(10, 4, 3), vec![0, 3, 6]);
    assert_eq!(aligned_offsets(8, 4, 4), vec![0, 4]);
    assert_eq!(aligned_offsets(3, 4, 1), Vec::<usize>::new());
}
