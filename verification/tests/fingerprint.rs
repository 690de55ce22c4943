use smt_log_parser::error::Error;
use smt_log_parser::items::Fingerprint;

#[test]
fn fingerprint_parses_hex_with_prefix() {
    assert_eq!(Fingerprint::parse("0x1f"), Ok(Fingerprint(31)));
    assert_eq!(Fingerprint::parse("ff"), Ok(Fingerprint(255)));
    assert_eq!(Fingerprint::parse("0"), Ok(Fingerprint(0)));
    assert!(Fingerprint::parse("0").unwrap().is_zero());
}

#[test]
fn fingerprint_rejects_bad_text() {
    assert_eq!(Fingerprint::parse(""), Err(Error::InvalidFingerprint));
    assert_eq!(Fingerprint::parse("0x"), Err(Error::InvalidFingerprint));
    assert_eq!(Fingerprint::parse("xyz"), Err(Error::InvalidFingerprint));
    assert_eq!(Fingerprint::parse("10000000000000000"), Err(Error::InvalidFingerprint));
    assert_eq!(Fingerprint::parse("ffffffffffffffff"), Ok(Fingerprint(u64::MAX)));
}
