use efdstream::region::{load_prefix, store_prefix, AttachError, Attachment, Lifecycle};

#[test]
fn store_prefix_keeps_the_tail() {
    let mut region = vec![1u8, 2, 3, 4, 5];
    store_prefix(&mut region, &[9, 8]);
    assert_eq!(region, vec![9, 8, 3, 4, 5]);
}

#[test]
fn load_prefix_copies_exactly_the_length() {
    let region = [5u8, 6, 7, 8];
    assert_eq!(load_prefix(&region, 3), vec![5, 6, 7]);
    assert_eq!(load_prefix(&region, 0), Vec::<u8>::new());
    assert_eq!(load_prefix(&region, 4), vec![5, 6, 7, 8]);
}

#[test]
fn region_is_mapped_once_and_unmapped_once() {
    let mut life = Lifecycle::new();
    assert_eq!(life.state(), Attachment::Unattached);
    assert_eq!(life.attach(), Ok(()));
    assert_eq!(life.attach(), Err(AttachError::AlreadyAttached));
    assert_eq!(life.state(), Attachment::Attached);
    assert!(life.release());
    assert!(!life.release());
    assert_eq!(life.attach(), Err(AttachError::Released));
    assert_eq!(life.state(), Attachment::Released);
}

#[test]
fn unattached_region_owes_no_unmap() {
    let mut life = Lifecycle::new();
    assert!(!life.release());
    assert_eq!(life.attach(), Err(AttachError::Released));
}
