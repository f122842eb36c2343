use std::cell::Cell;

use tinyrlibc::{heapsort, qsort, qsort_r};

/// Ascending order of native-endian `i32` elements, by subtraction.
fn int_compare(a: &[u8], b: &[u8]) -> i32 {
    let x = i32::from_ne_bytes([a[0], a[1], a[2], a[3]]);
    let y = i32::from_ne_bytes([b[0], b[1], b[2], b[3]]);
    x - y
}

/// Ascending order of native-endian `i32` elements, counting calls in the context.
fn int_compare_r(a: &[u8], b: &[u8], calls: &Cell<usize>) -> i32 {
    calls.set(calls.get() + 1);
    let x = i32::from_ne_bytes([a[0], a[1], a[2], a[3]]);
    let y = i32::from_ne_bytes([b[0], b[1], b[2], b[3]]);
    x.cmp(&y) as i32
}

/// Ascending order on the first byte of each element.
fn lead_byte(a: &[u8], b: &[u8]) -> i32 {
    a[0] as i32 - b[0] as i32
}

/// A comparator that claims every element ranks after every other.
fn always_greater(_a: &[u8], _b: &[u8]) -> i32 {
    1
}

fn to_bytes(values: &[i32]) -> Vec<u8> {
    values.iter().flat_map(|v| v.to_ne_bytes()).collect()
}

fn to_ints(bytes: &[u8]) -> Vec<i32> {
    bytes
        .chunks(4)
        .map(|c| i32::from_ne_bytes([c[0], c[1], c[2], c[3]]))
        .collect()
}

const RAND_ARRAY: [i32; 100] = [
    92, 61, 28, 96, 79, 90, 72, 99, 42, 71, 95, 4, 12, 59, 73, 19, 30, 29, 2, 9, 43, 44, 58, 81,
    17, 84, 10, 46, 64, 11, 50, 55, 87, 15, 20, 14, 94, 66, 86, 63, 65, 41, 38, 70, 22, 74, 23, 49,
    97, 67, 57, 26, 32, 40, 76, 7, 48, 0, 68, 52, 16, 5, 85, 36, 60, 80, 34, 21, 27, 8, 93, 18, 53,
    77, 39, 24, 54, 75, 31, 69, 88, 51, 82, 33, 3, 78, 45, 56, 37, 35, 47, 91, 13, 6, 1, 62, 98, 89,
    25, 83,
];

#[test]
fn identity() {
    let array: Vec<i32> = (0..1000).collect();
    let orig = array.clone();
    let mut bytes = to_bytes(&array);
    qsort(&mut bytes, array.len(), std::mem::size_of::<i32>(), Some(int_compare));
    assert_eq!(to_ints(&bytes), orig);
}

#[test]
fn identity_heapsort() {
    let array: Vec<i32> = (0..1000).collect();
    let orig = array.clone();
    let mut bytes = to_bytes(&array);
    heapsort(&mut bytes, array.len(), std::mem::size_of::<i32>(), int_compare);
    assert_eq!(to_ints(&bytes), orig);
}

#[test]
fn reverse() {
    let mut array: Vec<i32> = (0..1000).collect();
    array.reverse();
    let orig: Vec<i32> = (0..1000).collect();
    let mut bytes = to_bytes(&array);
    qsort(&mut bytes, array.len(), std::mem::size_of::<i32>(), Some(int_compare));
    assert_eq!(to_ints(&bytes), orig);
}

#[test]
fn reverse_heapsort() {
    let mut array: Vec<i32> = (0..1000).collect();
    array.reverse();
    let orig: Vec<i32> = (0..1000).collect();
    let mut bytes = to_bytes(&array);
    heapsort(&mut bytes, array.len(), std::mem::size_of::<i32>(), int_compare);
    assert_eq!(to_ints(&bytes), orig);
}

#[test]
fn random() {
    let array = RAND_ARRAY;
    let mut bytes = to_bytes(&array);
    qsort(&mut bytes, array.len(), std::mem::size_of::<i32>(), Some(int_compare));
    assert_eq!(to_ints(&bytes), (0..100).collect::<Vec<_>>());
}

#[test]
fn random_heapsort() {
    let array = RAND_ARRAY;
    let mut bytes = to_bytes(&array);
    heapsort(&mut bytes, array.len(), std::mem::size_of::<i32>(), int_compare);
    assert_eq!(to_ints(&bytes), (0..100).collect::<Vec<_>>());
}

#[test]
fn test_qsort() {
    let data = [5, 4, 3, 2, 1];
    let mut bytes = to_bytes(&data);
    let calls = Cell::new(0usize);
    qsort_r(&mut bytes, data.len(), core::mem::size_of::<i32>(), Some(int_compare_r), &calls);
    assert_eq!(to_ints(&bytes), [1, 2, 3, 4, 5]);
}

#[test]
fn five_to_one_ascending() {
    let mut bytes = to_bytes(&[5, 4, 3, 2, 1]);
    qsort(&mut bytes, 5, 4, Some(int_compare));
    assert_eq!(to_ints(&bytes), [1, 2, 3, 4, 5]);
}

#[test]
fn no_comparator_is_a_no_op() {
    let mut bytes = to_bytes(&[3, 1, 2]);
    let before = bytes.clone();
    qsort::<fn(&[u8], &[u8]) -> i32>(&mut bytes, 3, 4, None);
    assert_eq!(bytes, before);
    let arg = Cell::new(0usize);
    qsort_r::<Cell<usize>, fn(&[u8], &[u8], &Cell<usize>) -> i32>(&mut bytes, 3, 4, None, &arg);
    assert_eq!(bytes, before);
}

#[test]
fn empty_and_single_make_no_calls() {
    let counter = Cell::new(0usize);
    let counting = |a: &[u8], b: &[u8]| -> i32 {
        counter.set(counter.get() + 1);
        a[0] as i32 - b[0] as i32
    };
    let mut empty: Vec<u8> = Vec::new();
    qsort(&mut empty, 0, 4, Some(&counting));
    assert!(empty.is_empty());
    let mut one = vec![9u8, 8, 7, 6];
    qsort(&mut one, 1, 4, Some(&counting));
    assert_eq!(one, vec![9u8, 8, 7, 6]);
    assert_eq!(counter.get(), 0);
    let calls = Cell::new(0usize);
    qsort_r(&mut one, 1, 4, Some(int_compare_r), &calls);
    assert_eq!(calls.get(), 0);
}

#[test]
fn thousand_copies_of_one_value() {
    let array = vec![42i32; 1000];
    let mut bytes = to_bytes(&array);
    let before = bytes.clone();
    qsort(&mut bytes, 1000, 4, Some(int_compare));
    assert_eq!(bytes, before);
}

#[test]
fn always_greater_terminates_with_same_elements() {
    let mut array: Vec<i32> = (0..200).collect();
    array.reverse();
    let mut bytes = to_bytes(&array);
    qsort(&mut bytes, 200, 4, Some(always_greater));
    let mut out = to_ints(&bytes);
    out.sort();
    assert_eq!(out, (0..200).collect::<Vec<_>>());
}

#[test]
fn reverse_thousand_ascending() {
    let array: Vec<i32> = (0..1000).rev().collect();
    let mut bytes = to_bytes(&array);
    qsort(&mut bytes, 1000, 4, Some(int_compare));
    assert_eq!(to_ints(&bytes), (0..1000).collect::<Vec<_>>());
}

fn widened(values: &[u8], width: usize) -> Vec<u8> {
    let mut out = Vec::new();
    for &v in values {
        out.push(v);
        for k in 1..width {
            out.push(v ^ (k as u8));
        }
    }
    out
}

#[test]
fn widths_one_four_sixteen_agree() {
    let values: Vec<u8> = vec![
        40, 7, 19, 3, 88, 61, 25, 14, 99, 0, 52, 36, 71, 8, 45, 90, 12, 67, 33, 5,
    ];
    let mut expected = values.clone();
    expected.sort();
    for width in [1usize, 4, 16] {
        let mut bytes = widened(&values, width);
        qsort(&mut bytes, values.len(), width, Some(lead_byte));
        assert_eq!(bytes, widened(&expected, width));
    }
}

#[test]
fn elements_wider_than_scratch_buffer() {
    let width = 300usize;
    let keys: Vec<u8> = (0..40u8).rev().collect();
    let mut bytes = widened(&keys, width);
    qsort(&mut bytes, keys.len(), width, Some(lead_byte));
    let sorted: Vec<u8> = (0..40u8).collect();
    assert_eq!(bytes, widened(&sorted, width));
}

#[test]
fn sorted_input_stays_byte_identical() {
    let values: Vec<i32> = (0..500).map(|v| v * 3).collect();
    let mut bytes = to_bytes(&values);
    let before = bytes.clone();
    qsort(&mut bytes, values.len(), 4, Some(int_compare));
    assert_eq!(bytes, before);
}

#[test]
fn bytes_after_the_elements_stay() {
    let mut bytes = to_bytes(&[9, 8, 7, 6, 5, 4, 3, 2, 1, 0, 11, 12]);
    qsort(&mut bytes, 10, 4, Some(int_compare));
    assert_eq!(to_ints(&bytes), [0, 1, 2, 3, 4, 5, 6, 7, 8, 9, 11, 12]);
}

#[test]
fn duplicates_keep_their_multiset() {
    let values: Vec<i32> = (0..300).map(|v| (v * 7919) % 13).collect();
    let mut bytes = to_bytes(&values);
    qsort(&mut bytes, values.len(), 4, Some(int_compare));
    let mut expected = values.clone();
    expected.sort();
    assert_eq!(to_ints(&bytes), expected);
}

#[test]
fn context_reaches_every_comparison() {
    let values: Vec<i32> = (0..64).rev().collect();
    let mut bytes = to_bytes(&values);
    let calls = Cell::new(0usize);
    qsort_r(&mut bytes, values.len(), 4, Some(int_compare_r), &calls);
    assert_eq!(to_ints(&bytes), (0..64).collect::<Vec<_>>());
    assert!(calls.get() > 0);
}

#[test]
fn heapsort_small_counts() {
    let mut bytes = to_bytes(&[2, 1]);
    heapsort(&mut bytes, 2, 4, int_compare);
    assert_eq!(to_ints(&bytes), [1, 2]);
    let mut one = to_bytes(&[7]);
    heapsort(&mut one, 1, 4, int_compare);
    assert_eq!(to_ints(&one), [7]);
}

#[test]
fn zero_width_elements() {
    let mut bytes: Vec<u8> = vec![1, 2, 3];
    let calls = Cell::new(0usize);
    let counting = |_a: &[u8], _b: &[u8]| -> i32 {
        calls.set(calls.get() + 1);
        0
    };
    qsort(&mut bytes, 40, 0, Some(&counting));
    assert_eq!(bytes, vec![1, 2, 3]);
    assert!(calls.get() > 0);
}

#[test]
fn heapsort_wide_elements() {
    let width = 200usize;
    let keys: Vec<u8> = vec![9, 3, 7, 1, 8, 2, 6, 0, 5, 4];
    let mut bytes = widened(&keys, width);
    heapsort(&mut bytes, keys.len(), width, lead_byte);
    let sorted: Vec<u8> = (0..10u8).collect();
    assert_eq!(bytes, widened(&sorted, width));
}

#[test]
fn descending_comparator() {
    let mut bytes = to_bytes(&[4, 9, 1, 7, 3, 8, 2, 6, 5, 0, 15, 11, 13, 10, 14, 12, 16, 19, 17, 18]);
    qsort(&mut bytes, 20, 4, Some(|a: &[u8], b: &[u8]| int_compare(b, a)));
    assert_eq!(to_ints(&bytes), (0..20).rev().collect::<Vec<_>>());
}
