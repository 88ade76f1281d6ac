use layered_vfs::handle::{FileHandle, SeekOrigin};
use layered_vfs::error::VfsError;

#[test]
fn write_then_seek_then_read_returns_the_same_bytes() {
    let mut h = FileHandle::new(Vec::new());
    let payload = vec![10u8, 20, 30, 40, 50];
    h.write_all(&payload).expect("an in-memory write succeeds");
    let pos = h.seek(SeekOrigin::Start(0)).expect("seeking to the start succeeds");
    assert_eq!(pos, 0);
    let back = h.read(5);
    assert_eq!(back, payload);
}

#[test]
fn read_exact_past_the_end_fails_with_unexpected_eof() {
    let mut h = FileHandle::new(vec![1u8, 2, 3]);
    match h.read_exact(4) {
        Err(e) => assert_eq!(e, VfsError::UnexpectedEof),
        Ok(_) => panic!("reading more than remains must fail"),
    }
    // The handle is untouched and a fitting exact read still works.
    assert_eq!(h.position(), 0);
    assert_eq!(h.read_exact(3).unwrap(), vec![1u8, 2, 3]);
}

#[test]
fn short_reads_stop_at_the_end_of_the_stream() {
    let mut h = FileHandle::new(vec![7u8, 8, 9]);
    assert_eq!(h.read(10), vec![7u8, 8, 9]);
    assert_eq!(h.read(10), Vec::<u8>::new());
}

#[test]
fn seek_origins_and_invalid_seeks() {
    let mut h = FileHandle::new(vec![0u8; 10]);
    assert_eq!(h.len(), 10);
    assert_eq!(h.seek(SeekOrigin::End(-2)).unwrap(), 8);
    assert_eq!(h.seek(SeekOrigin::Current(1)).unwrap(), 9);
    assert_eq!(h.seek(SeekOrigin::Current(-9)).unwrap(), 0);
    assert_eq!(h.seek(SeekOrigin::End(-11)), Err(VfsError::InvalidSeek));
    // A failed seek leaves the cursor where it was.
    assert_eq!(h.position(), 0);
    // Seeking beyond the end is allowed; a read there returns nothing.
    assert_eq!(h.seek(SeekOrigin::Start(100)).unwrap(), 100);
    assert_eq!(h.read(4), Vec::<u8>::new());
}

#[test]
fn writing_behind_the_end_zero_fills_the_gap() {
    let mut h = FileHandle::new(Vec::new());
    h.seek(SeekOrigin::Start(4)).unwrap();
    h.write_all(&vec![9u8]).unwrap();
    assert_eq!(h.len(), 5);
    h.seek(SeekOrigin::Start(0)).unwrap();
    assert_eq!(h.read(5), vec![0u8, 0, 0, 0, 9]);
}

#[test]
fn overwriting_in_the_middle_keeps_the_tail() {
    let mut h = FileHandle::new(vec![1u8, 2, 3, 4, 5]);
    h.seek(SeekOrigin::Start(1)).unwrap();
    h.write_all(&vec![8u8, 9]).unwrap();
    assert_eq!(h.position(), 3);
    h.seek(SeekOrigin::Start(0)).unwrap();
    assert_eq!(h.into_bytes(), vec![1u8, 8, 9, 4, 5]);
}
