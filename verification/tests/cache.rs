use acumen::chart::format_thousands;
use acumen::settings::{avatar_file_key, hashed_key, should_refresh, CACHE_EXPIRE_DAYS};

#[test]
fn a_known_user_is_keyed_by_the_number() {
    assert_eq!(avatar_file_key(Some(5), None), "u_5");
    assert_eq!(avatar_file_key(Some(-3), Some("https://x")), "u_-3");
}

#[test]
fn an_address_is_keyed_by_its_digest() {
    assert_eq!(avatar_file_key(None, Some("abc")), "h_900150983cd24fb0d6963f7d28e17f72");
    assert_eq!(avatar_file_key(None, Some("")), "h_d41d8cd98f00b204e9800998ecf8427e");
    assert_eq!(avatar_file_key(None, None), "unknown");
}

#[test]
fn a_digest_is_written_in_lowercase_hex() {
    let mut digest = [0u8; 16];
    digest[0] = 0xab;
    digest[15] = 0x0f;
    assert_eq!(hashed_key(&digest), "h_ab00000000000000000000000000000f");
}

#[test]
fn a_cached_avatar_expires_after_three_days() {
    let limit = CACHE_EXPIRE_DAYS * 86400;
    assert!(should_refresh(None));
    assert!(!should_refresh(Some((0, 0))));
    assert!(!should_refresh(Some((limit, 0))));
    assert!(should_refresh(Some((limit, 1))));
    assert!(should_refresh(Some((limit + 1, 0))));
}

#[test]
fn counts_are_grouped_by_thousands() {
    assert_eq!(format_thousands(0), "0");
    assert_eq!(format_thousands(999), "999");
    assert_eq!(format_thousands(1000), "1,000");
    assert_eq!(format_thousands(1234567), "1,234,567");
    assert_eq!(format_thousands(-1234), "-1,234");
    assert_eq!(format_thousands(-12), "-12");
    assert_eq!(format_thousands(i64::MIN), "-9,223,372,036,854,775,808");
    assert_eq!(format_thousands(i64::MAX), "9,223,372,036,854,775,807");
}
