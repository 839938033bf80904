use stratamoto::corpus_dir::{entry_file, entry_number};

#[test]
fn entry_files_are_numbered_with_six_digits() {
    assert_eq!(entry_file(0), "000000.program");
    assert_eq!(entry_file(42), "000042.program");
    assert_eq!(entry_file(999_999), "999999.program");
    assert_eq!(entry_file(1_234_567), "1234567.program");
}

#[test]
fn a_file_name_gives_back_its_number() {
    for n in [0usize, 7, 10, 99_999, 100_000, 1_000_000, usize::MAX] {
        assert_eq!(entry_number(&entry_file(n)), Some(n));
    }
}

#[test]
fn only_numbered_program_files_are_entries() {
    assert_eq!(entry_number("12.program"), Some(12));
    assert_eq!(entry_number("+12.program"), Some(12));
    assert_eq!(entry_number(".program"), None);
    assert_eq!(entry_number("+.program"), None);
    assert_eq!(entry_number("-1.program"), None);
    assert_eq!(entry_number("1a.program"), None);
    assert_eq!(entry_number("000001.programs"), None);
    assert_eq!(entry_number("000001"), None);
    assert_eq!(entry_number("failure-0.stratamoto"), None);
    assert_eq!(entry_number("99999999999999999999999.program"), None);
}
