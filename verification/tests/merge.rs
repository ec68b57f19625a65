use sorting::merge::merge_sort;
use sorting::slices::is_array_eq;

#[test]
fn test_base0() {
    // Empty arrays should not change
    assert_eq!(true, is_array_eq(merge_sort(&mut [], 0, 0), &[]));
}

#[test]
fn test_base1() {
    // Arrays containing a single element should not change
    assert_eq!(true, is_array_eq(merge_sort(&mut [42], 0, 1), &[42]));
}

#[test]
fn test_sorted() {
    // Arrays containing sorted elements should not change
    assert_eq!(true, is_array_eq(merge_sort(&mut [1, 2], 0, 2), &[1, 2]));
}

#[test]
fn test_sorted_equal() {
    // Arrays containing sorted elements should not change
    assert_eq!(
        true,
        is_array_eq(
            merge_sort(&mut [1, 1, 1, 1, 1, 1, 1], 0, 7),
            &[1, 1, 1, 1, 1, 1, 1]
        )
    );
}

#[test]
fn test_unsorted_smallest() {
    // Arrays of length 2 of unsorted i32 should be sorted
    assert_eq!(true, is_array_eq(merge_sort(&mut [2, 1], 0, 2), &[1, 2]));
}

#[test]
fn test_simple() {
    assert_eq!(
        true,
        is_array_eq(
            merge_sort(&mut [3, 6, 5, 7, 9, 4, 8, 1, 2], 0, 9),
            &[1, 2, 3, 4, 5, 6, 7, 8, 9]
        )
    );
}

#[test]
fn test_similar() {
    assert_eq!(
        true,
        is_array_eq(
            merge_sort(&mut [100, 100, 100, 100, 99, 100, 100], 0, 7),
            &[99, 100, 100, 100, 100, 100, 100]
        )
    );
}

#[test]
fn test_large() {
    assert_eq!(
        true,
        is_array_eq(
            merge_sort(
                &mut [
                    3, 6, 5, 7, 9, 4, 8, 1, 2, 3, 6, 5, 7, 9, 4, 8, 1, 2, 3, 6, 5, 7, 9, 4, 8, 1,
                    2, 3, 6, 5, 7, 9, 4, 8, 1, 2, 3, 6, 5, 7, 9, 4, 8, 1, 2
                ], 0, 45
            ),
            &[
                1, 1, 1, 1, 1, 2, 2, 2, 2, 2, 3, 3, 3, 3, 3, 4, 4, 4, 4, 4, 5, 5, 5, 5, 5, 6,
                6, 6, 6, 6, 7, 7, 7, 7, 7, 8, 8, 8, 8, 8, 9, 9, 9, 9, 9
            ]
        )
    );
}

#[test]
fn test_3_million() {
    // Generate pseudo-random array
    let mut v: Vec<i32> = vec![0; 3000000];
    let mut c: i32 = 0;
    for i in 0..v.len() {
        c = c + 1;
        v[i] = ((((c + 4) % 340) * 56) % (2 + c + 423)).into();
    }
    // Sort clone using Rust standard library
    let mut sorted = v.clone();
    sorted.sort();
    let l = v.len();
    // Compare the standard sort to this sort
    assert_eq!(
        true,
        is_array_eq(merge_sort(v.as_mut_slice(), 0, l), sorted.as_mut_slice())
    );
}
