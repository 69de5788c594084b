use pathtrace::schedule::{pixel_tasks, PixelBuffer, StoreError};

#[test]
fn tasks_are_row_major() {
    let t = pixel_tasks(3, 2);
    assert_eq!(t, vec![(0, 0), (0, 1), (0, 2), (1, 0), (1, 1), (1, 2)]);
}

#[test]
fn tasks_of_empty_image() {
    assert!(pixel_tasks(0, 5).is_empty());
    assert!(pixel_tasks(4, 0).is_empty());
}

#[test]
fn tasks_count_matches_default_image() {
    let t = pixel_tasks(1024, 768);
    assert_eq!(t.len(), 1024 * 768);
    assert_eq!(t[1024], (1, 0));
    assert_eq!(t[1024 * 768 - 1], (767, 1023));
}

#[test]
fn new_buffer_is_empty() {
    let b = PixelBuffer::new(2, 3, 0u32);
    assert_eq!(b.width(), 2);
    assert_eq!(b.height(), 3);
    assert_eq!(b.written_count(), 0);
    assert!(!b.is_complete());
    assert_eq!(b.get(2, 1), None);
}

#[test]
fn store_errors() {
    let mut b = PixelBuffer::new(2, 2, 0u32);
    assert_eq!(b.store(2, 0, 1), Err(StoreError::OutOfBounds));
    assert_eq!(b.store(0, 2, 1), Err(StoreError::OutOfBounds));
    assert_eq!(b.store(1, 0, 5), Ok(()));
    assert_eq!(b.store(1, 0, 6), Err(StoreError::AlreadyWritten));
    assert_eq!(b.get(1, 0), Some(5));
    assert_eq!(b.written_count(), 1);
}

#[test]
fn results_in_any_order_fill_the_image() {
    let mut b = PixelBuffer::new(3, 2, (0u8, 0u8, 0u8));
    let mut tasks = pixel_tasks(3, 2);
    tasks.reverse();
    for (i, j) in tasks {
        assert!(!b.is_complete());
        assert_eq!(b.store(i, j, (i as u8, j as u8, 9)), Ok(()));
    }
    assert!(b.is_complete());
    let img = b.finish().unwrap();
    assert_eq!(img[0], (0, 0, 9));
    assert_eq!(img[4], (1, 1, 9));
    assert_eq!(img.len(), 6);
}

#[test]
fn unfinished_image_is_not_handed_out() {
    let mut b = PixelBuffer::new(2, 1, 0i64);
    assert_eq!(b.store(0, 0, 3), Ok(()));
    assert_eq!(b.finish(), None);
}

#[test]
fn empty_image_is_complete() {
    let b = PixelBuffer::new(0, 0, 0u8);
    assert!(b.is_complete());
    assert_eq!(b.finish(), Some(vec![]));
}
