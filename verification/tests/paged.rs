//! The paged sparse array.

use pm::paged::PagedArray;

#[test]
fn absent_reads_return_fill() {
    let arr: PagedArray<u32> = PagedArray::new(u32::MAX);
    assert_eq!(arr.get(0), u32::MAX);
    assert_eq!(arr.get(1_000_000), u32::MAX);
}

#[test]
fn set_get_across_pages() {
    let mut arr = PagedArray::new(false);
    arr.set(3, true);
    arr.set(100_000, true);
    assert!(arr.get(3));
    assert!(arr.get(100_000));
    assert!(!arr.get(4));
    arr.set(3, false);
    assert!(!arr.get(3));
}

#[test]
fn writing_fill_to_absent_page_allocates_nothing() {
    let mut arr = PagedArray::new(0u32);
    arr.set(50_000, 0);
    assert_eq!(arr.page_count(), 0);
}

#[test]
fn writing_fill_beside_other_pages_allocates_nothing() {
    let mut arr = PagedArray::new(0u32);
    arr.set(5, 9);
    assert_eq!(arr.page_count(), 1);
    arr.set(50_000, 0);
    assert_eq!(arr.page_count(), 1);
    assert_eq!((arr.get(5), arr.get(50_000)), (9, 0));
    arr.set(50_000, 7);
    assert_eq!(arr.page_count(), 50_000 / 4096 + 1);
    assert_eq!((arr.get(5), arr.get(50_000)), (9, 7));
}
