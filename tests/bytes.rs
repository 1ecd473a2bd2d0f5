use formatter::bytes::Bytes;

#[test]
fn test_bytes_display() {
    assert_eq!(&Bytes(1000).display_si().to_string(), "1kB");
    assert_eq!(&Bytes(100).display_si().to_string(), "100B");
    assert_eq!(&Bytes(1024).display_bin().to_string(), "1kiB");
    assert_eq!(&Bytes(1).display_bin().to_string(), "1B");
}

#[test]
fn bytes_use_whole_units_and_saturate() {
    assert_eq!(Bytes(1999).display_si(), "1kB");
    assert_eq!(Bytes(1023).display_bin(), "1023B");
    assert_eq!(Bytes(3 * 1024 * 1024).display_bin(), "3MiB");
    assert_eq!(Bytes(u64::MAX).display_si(), "18446PB");
    assert_eq!(Bytes(0).display_si(), "0B");
}
