use stratamoto::files::{File, FileError};

#[test]
fn a_read_gives_back_what_was_written() {
    let mut file = File::new(vec![1, 2, 3, 4], true);
    assert_eq!(file.write_all_at(&[9, 9], 1), Ok(()));
    assert_eq!(file.bytes(), &[1, 9, 9, 4]);
    assert_eq!(file.write_all_at(&[7, 7, 7], 3), Ok(()));
    assert_eq!(file.bytes(), &[1, 9, 9, 7, 7, 7]);
    let mut buf = [0u8; 3];
    assert_eq!(file.read_at(&mut buf, 3), 3);
    assert_eq!(buf, [7, 7, 7]);
}

#[test]
fn a_read_stops_at_the_end() {
    let file = File::new(vec![5, 6], false);
    let mut buf = [1u8; 4];
    assert_eq!(file.read_at(&mut buf, 1), 1);
    assert_eq!(buf, [6, 1, 1, 1]);
    assert_eq!(file.read_at(&mut buf, 2), 0);
}

#[test]
fn a_read_only_file_refuses_writes() {
    let mut file = File::new(vec![1], false);
    assert_eq!(file.write_all_at(&[2], 0), Err(FileError::ReadOnly));
    assert_eq!(file.bytes(), &[1]);
}

#[test]
fn set_len_cuts_or_pads_with_zeros() {
    let mut file = File::new(vec![1, 2, 3], false);
    file.set_len(1);
    assert_eq!(file.bytes(), &[1]);
    file.set_len(4);
    assert_eq!(file.bytes(), &[1, 0, 0, 0]);
    assert_eq!(file.len(), 4);
}
