use bbedit_jump_points::{front_asn_from, pid_from_info};

#[test]
fn front_asn_is_the_first_field() {
    assert_eq!(front_asn_from(b"ASN:0x0-0x1d01d: ASN:0x0-0x1c01c: \n"), b"ASN:0x0-0x1d01d:".to_vec());
    assert_eq!(front_asn_from(b"ASN:0x0-0x1d01d:"), b"ASN:0x0-0x1d01d:".to_vec());
    assert_eq!(front_asn_from(b" leading"), Vec::<u8>::new());
    assert_eq!(front_asn_from(b""), Vec::<u8>::new());
}

#[test]
fn pid_is_read_from_its_line() {
    assert_eq!(pid_from_info(b"\"pid\"=1234\n"), Some(1234));
    assert_eq!(pid_from_info(b"\"pid\"=1234"), Some(1234));
    assert_eq!(pid_from_info(b"\"name\"=\"BBEdit\"\n\"pid\"=42\n"), Some(42));
    assert_eq!(pid_from_info(b"\"pid\"=7=8\n"), Some(7));
}

#[test]
fn pid_missing_or_malformed_is_none() {
    assert_eq!(pid_from_info(b""), None);
    assert_eq!(pid_from_info(b"no such application\n"), None);
    assert_eq!(pid_from_info(b"x\"pid\"=12\n"), None);
    assert_eq!(pid_from_info(b"\"pid\"=\n"), None);
    assert_eq!(pid_from_info(b"\"pid\"=12a\n"), None);
    assert_eq!(pid_from_info(b"\"pid\"=abc\n\"pid\"=5\n"), None);
}

#[test]
fn pid_parses_signs_and_bounds() {
    assert_eq!(pid_from_info(b"\"pid\"=+7"), Some(7));
    assert_eq!(pid_from_info(b"\"pid\"=-7"), Some(-7));
    assert_eq!(pid_from_info(b"\"pid\"=-"), None);
    assert_eq!(pid_from_info(b"\"pid\"=2147483647"), Some(i32::MAX));
    assert_eq!(pid_from_info(b"\"pid\"=2147483648"), None);
    assert_eq!(pid_from_info(b"\"pid\"=-2147483648"), Some(i32::MIN));
    assert_eq!(pid_from_info(b"\"pid\"=-2147483649"), None);
    assert_eq!(pid_from_info(b"\"pid\"=99999999999999999999"), None);
}
