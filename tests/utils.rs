use ocdscope::utils::{decimal_string, hex_padded_string, human_readable_size};

#[test]
fn sizes_in_binary_units() {
    assert_eq!(human_readable_size(0), "0 B");
    assert_eq!(human_readable_size(2047), "2047 B");
    assert_eq!(human_readable_size(2048), "2 KiB");
    assert_eq!(human_readable_size(2048 * 1024 - 1), "2047 KiB");
    assert_eq!(human_readable_size(2048 * 1024), "2 MiB");
    assert_eq!(human_readable_size(3 * 1024 * 1024 * 1024), "3 GiB");
    assert_eq!(human_readable_size(5 * 1024 * 1024 * 1024 * 1024), "5120 GiB");
}

#[test]
fn digits() {
    assert_eq!(decimal_string(0), "0");
    assert_eq!(decimal_string(1234567890), "1234567890");
    assert_eq!(decimal_string(u64::MAX), u64::MAX.to_string());
    assert_eq!(hex_padded_string(0x2000_0abc, 8), "20000abc");
    assert_eq!(hex_padded_string(0xff, 8), "000000ff");
}
