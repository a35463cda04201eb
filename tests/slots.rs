use efdstream::slots::{parse_child_args, parse_numeral, SlotError, SlotTable};

#[test]
fn conventional_slots_follow_the_standard_streams() {
    assert_eq!(SlotTable::conventional().slots(), [3, 4, 5, 6, 7, 8]);
}

#[test]
fn child_arguments_name_every_slot_and_the_size() {
    let args = SlotTable::conventional().child_args(1024);
    let expected = [
        "-mode", "child", "-fd-p2c-send", "3", "-fd-p2c-ack", "4", "-fd-p2c-shm", "5",
        "-fd-c2p-send", "6", "-fd-c2p-ack", "7", "-fd-c2p-shm", "8", "-shm-size", "1024",
    ];
    assert_eq!(args, expected.iter().map(|s| s.to_string()).collect::<Vec<_>>());
}

#[test]
fn custom_table_keeps_its_order() {
    let t = SlotTable::new(10, 11, 12, 20, 21, 22).unwrap();
    assert_eq!(t.slots(), [10, 11, 12, 20, 21, 22]);
    let args = t.child_args(0);
    assert_eq!(args[3], "10");
    assert_eq!(args[13], "22");
    assert_eq!(args[15], "0");
}

#[test]
fn standard_stream_slot_is_refused() {
    assert_eq!(SlotTable::new(3, 4, 2, 6, 7, 8).err(), Some(SlotError::Reserved(2)));
    assert_eq!(SlotTable::new(-1, 4, 5, 6, 7, 8).err(), Some(SlotError::Reserved(-1)));
}

#[test]
fn repeated_slot_is_refused() {
    assert_eq!(SlotTable::new(3, 4, 5, 6, 4, 8).err(), Some(SlotError::Duplicate(4)));
}

#[test]
fn placement_pairs_each_source_with_its_slot() {
    let t = SlotTable::conventional();
    let steps = t.placement([3, 4, 5, 6, 7, 8]).unwrap();
    assert_eq!(steps, vec![(3, 3), (4, 4), (5, 5), (6, 6), (7, 7), (8, 8)]);
    let steps = t.placement([20, 21, 22, 23, 24, 25]).unwrap();
    assert_eq!(steps, vec![(20, 3), (21, 4), (22, 5), (23, 6), (24, 7), (25, 8)]);
}

#[test]
fn placement_refuses_to_read_an_overwritten_slot() {
    let t = SlotTable::conventional();
    // The first step overwrites slot 3, which the second step would read.
    assert_eq!(t.placement([10, 3, 11, 12, 13, 14]), None);
    // Reading a slot that a step duplicated onto itself is fine.
    assert!(t.placement([3, 9, 3, 12, 13, 14]).is_some());
}

#[test]
fn child_reads_back_the_table_and_size() {
    let t = SlotTable::new(10, 11, 12, 20, 21, 22).unwrap();
    let (read, size) = parse_child_args(&t.child_args(65536)).unwrap();
    assert_eq!(read.slots(), [10, 11, 12, 20, 21, 22]);
    assert_eq!(size, 65536);
    let (read, size) = parse_child_args(&SlotTable::conventional().child_args(1024)).unwrap();
    assert_eq!(read.slots(), [3, 4, 5, 6, 7, 8]);
    assert_eq!(size, 1024);
}

#[test]
fn child_arguments_that_name_no_table_are_refused() {
    let good = SlotTable::conventional().child_args(16);
    let mut wrong_flag = good.clone();
    wrong_flag[4] = "-fd-p2c-send".to_string();
    assert!(parse_child_args(&wrong_flag).is_none());
    let mut not_a_number = good.clone();
    not_a_number[3] = "3x".to_string();
    assert!(parse_child_args(&not_a_number).is_none());
    let mut stdio = good.clone();
    stdio[5] = "1".to_string();
    assert!(parse_child_args(&stdio).is_none());
    let mut repeated = good.clone();
    repeated[7] = "3".to_string();
    assert!(parse_child_args(&repeated).is_none());
    let mut too_big = good.clone();
    too_big[9] = "2147483648".to_string();
    assert!(parse_child_args(&too_big).is_none());
    assert!(parse_child_args(&good[..15]).is_none());
    assert!(parse_child_args(&[]).is_none());
}

#[test]
fn numerals_are_read_up_to_the_bound() {
    assert_eq!(parse_numeral("0", 10), Some(0));
    assert_eq!(parse_numeral("1024", u64::MAX), Some(1024));
    assert_eq!(parse_numeral("007", 10), Some(7));
    assert_eq!(parse_numeral("11", 10), None);
    assert_eq!(parse_numeral("18446744073709551615", u64::MAX), Some(u64::MAX));
    assert_eq!(parse_numeral("18446744073709551616", u64::MAX), None);
    assert_eq!(parse_numeral("", 10), None);
    assert_eq!(parse_numeral("-1", 10), None);
    assert_eq!(parse_numeral("1 ", 10), None);
    assert_eq!(parse_numeral("٣", 10), None);
}
