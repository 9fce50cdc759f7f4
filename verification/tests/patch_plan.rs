use o4core::patch::{complete_offsets, slot_writes};
use o4core::slots::{dedup_index, first_values};

fn apply(file: &mut Vec<u8>, plan: &[(u64, [u8; 4])]) {
    for (o, b) in plan {
        let o = *o as usize;
        file[o..o + 4].copy_from_slice(b);
    }
}

fn read(file: &[u8], o: u64) -> u32 {
    let o = o as usize;
    u32::from_le_bytes(file[o..o + 4].try_into().unwrap())
}

#[test]
fn plan_is_sorted_by_offset_and_little_endian() {
    let offs = [[40, 44, 48, 52], [4, 8, 12, 16]];
    let vals = [[1, 2, 3, 0x0a0b0c0d], [5, 6, 7, 8]];
    let plan = slot_writes(&offs, &vals);
    let got: Vec<u64> = plan.iter().map(|w| w.0).collect();
    assert_eq!(got, vec![4, 8, 12, 16, 40, 44, 48, 52]);
    assert_eq!(plan[7], (52, [0x0d, 0x0c, 0x0b, 0x0a]));
    assert_eq!(plan[0], (4, [5, 0, 0, 0]));
}

#[test]
fn plan_keeps_slot_order_at_equal_offsets_and_truncates_to_shorter_table() {
    let offs = [[8, 0, 0, 0], [8, 4, 4, 4], [100, 100, 100, 100]];
    let vals = [[1, 2, 3, 4], [5, 6, 7, 8]];
    let plan = slot_writes(&offs, &vals);
    assert_eq!(plan.len(), 8);
    let at0: Vec<u8> = plan.iter().filter(|w| w.0 == 0).map(|w| w.1[0]).collect();
    assert_eq!(at0, vec![2, 3, 4]);
    let at8: Vec<u8> = plan.iter().filter(|w| w.0 == 8).map(|w| w.1[0]).collect();
    assert_eq!(at8, vec![1, 5]);
}

#[test]
fn null_patch_is_byte_identical() {
    let mut file: Vec<u8> = (0..64u32).map(|i| (i * 37 % 251) as u8).collect();
    let before = file.clone();
    let offs = [[0, 4, 8, 12], [20, 24, 28, 32]];
    let vals: Vec<[u32; 4]> = offs.iter().map(|o| [read(&file, o[0]), read(&file, o[1]), read(&file, o[2]), read(&file, o[3])]).collect();
    let plan = slot_writes(&offs, &vals);
    apply(&mut file, &plan);
    assert_eq!(file, before);
}

#[test]
fn injected_values_read_back_exactly() {
    let mut file = vec![0xee_u8; 64];
    let offs = [[36, 40, 44, 48], [0, 4, 8, 12]];
    let vals = [[0x3f80_0000, 1, 2, 3], [0xdead_beef, 0, u32::MAX, 7]];
    let plan = slot_writes(&offs, &vals);
    apply(&mut file, &plan);
    for i in 0..2 {
        for k in 0..4 {
            assert_eq!(read(&file, offs[i][k]), vals[i][k]);
        }
    }
    // bytes outside the slots are untouched
    assert!(file[16..36].iter().all(|&b| b == 0xee));
    assert!(file[52..].iter().all(|&b| b == 0xee));
}

#[test]
fn complete_offsets_of_full_quaternion() {
    let e = ([Some(1), Some(5), Some(9), Some(13)], [0, 0, 0, 0]);
    assert_eq!(complete_offsets(&e), Ok([1, 5, 9, 13]));
}

#[test]
fn dedup_rows_follow_time_order() {
    // slots in file order 0..5; time order 2,0,1,4,3
    let order = [2usize, 0, 1, 4, 3];
    // in time order: row changes at positions 1 and 3
    let changed = [false, true, false, true, false];
    let (d_file, n) = dedup_index(&order, &changed);
    assert_eq!(n, 3);
    assert_eq!(d_file, vec![1, 1, 0, 2, 2]);
}

#[test]
fn first_slot_value_per_row() {
    let rows = [1usize, 0, 1, 3, 0];
    let vals = ['a', 'b', 'c', 'd', 'e'];
    assert_eq!(first_values(&rows, &vals, '-', 4), vec!['b', 'a', '-', 'd']);
}
