use xtask_engine::util::SliceReplace;

#[test]
fn slice_replace_works() {
    let input = vec![1, 2, 3, 4, 5];
    let output = input.replace_slices(&[2, 3], &[6, 7, 8]);
    assert_eq!(output, &[1, 6, 7, 8, 4, 5])
}

#[test]
fn slice_replace_non_overlapping_from_left() {
    let input: Vec<u8> = vec![1, 1, 1, 2];
    let output = input.replace_slices(&[1, 1], &[9]);
    assert_eq!(output, vec![9, 1, 2]);
}

#[test]
fn slice_replace_pattern_longer_than_input() {
    let input: Vec<u8> = vec![1, 2];
    let output = input.replace_slices(&[1, 2, 3], &[9]);
    assert_eq!(output, vec![1, 2]);
}

#[test]
fn slice_replace_on_slice_with_empty_replacement() {
    let input: &[u8] = &[4, 5, 4, 5, 6];
    let output = input.replace_slices(&[4, 5], &[]);
    assert_eq!(output, vec![6]);
}
