use redis_rust::dictionary::{Dictionary, ExpireRule, RemoveRule};

#[test]
fn set_then_get() {
    let mut d: Dictionary<String> = Dictionary::new();
    assert_eq!(d.get("test", 0), None);
    let old = d.set(String::from("test"), String::from("value"), None, false, None, 0);
    assert_eq!(old, None);
    assert_eq!(d.get("test", 0), Some(&String::from("value")));
    assert_eq!(d.get("other", 0), None);
}

#[test]
fn nx_writes_only_absent_keys() {
    let mut d: Dictionary<String> = Dictionary::new();
    d.set(String::from("k"), String::from("v1"), None, false, None, 0);
    d.set(
        String::from("k"),
        String::from("v2"),
        Some(RemoveRule::NX),
        false,
        None,
        0,
    );
    assert_eq!(d.get("k", 0), Some(&String::from("v1")));
    d.set(
        String::from("fresh"),
        String::from("v3"),
        Some(RemoveRule::NX),
        false,
        None,
        0,
    );
    assert_eq!(d.get("fresh", 0), Some(&String::from("v3")));
}

#[test]
fn xx_writes_only_present_keys() {
    let mut d: Dictionary<String> = Dictionary::new();
    d.set(String::from("k"), String::from("v1"), None, false, None, 0);
    d.set(
        String::from("k"),
        String::from("v2"),
        Some(RemoveRule::XX),
        false,
        None,
        0,
    );
    assert_eq!(d.get("k", 0), Some(&String::from("v2")));
    d.set(
        String::from("missing"),
        String::from("v"),
        Some(RemoveRule::XX),
        false,
        None,
        0,
    );
    assert_eq!(d.get("missing", 0), None);
}

#[test]
fn keepttl_preserves_expiration() {
    let mut d: Dictionary<String> = Dictionary::new();
    // expires at 1000 + 100 * 1000
    d.set(
        String::from("k"),
        String::from("v1"),
        None,
        false,
        Some(ExpireRule::EX(100)),
        1000,
    );
    d.set(
        String::from("k"),
        String::from("v2"),
        None,
        false,
        Some(ExpireRule::KEEPTTL),
        2000,
    );
    assert_eq!(d.get("k", 100_999), Some(&String::from("v2")));
    assert_eq!(d.get("k", 101_000), None);
}

#[test]
fn px_zero_expires_immediately() {
    let mut d: Dictionary<String> = Dictionary::new();
    d.set(
        String::from("k"),
        String::from("v"),
        None,
        false,
        Some(ExpireRule::PX(0)),
        5000,
    );
    assert_eq!(d.get("k", 5000), None);
    assert_eq!(d.get("k", 5001), None);
}

#[test]
fn past_pxat_is_absent_at_once() {
    let mut d: Dictionary<String> = Dictionary::new();
    d.set(
        String::from("k"),
        String::from("v"),
        None,
        false,
        Some(ExpireRule::PXAT(4000)),
        5000,
    );
    assert_eq!(d.get("k", 5000), None);
    // a future instant keeps the entry visible until then
    d.set(
        String::from("j"),
        String::from("w"),
        None,
        false,
        Some(ExpireRule::PXAT(6000)),
        5000,
    );
    assert_eq!(d.get("j", 5999), Some(&String::from("w")));
    assert_eq!(d.get("j", 6000), None);
}

#[test]
fn get_flag_returns_the_replaced_value() {
    let mut d: Dictionary<String> = Dictionary::new();
    let old = d.set(String::from("k"), String::from("v1"), None, true, None, 0);
    assert_eq!(old, None);
    let old = d.set(String::from("k"), String::from("v2"), None, true, None, 0);
    assert_eq!(old, Some(String::from("v1")));
    // a refused write returns nothing
    let old = d.set(
        String::from("k"),
        String::from("v3"),
        Some(RemoveRule::NX),
        true,
        None,
        0,
    );
    assert_eq!(old, None);
    assert_eq!(d.get("k", 0), Some(&String::from("v2")));
}

#[test]
fn calculate_expire_time_units() {
    assert_eq!(ExpireRule::EX(2).calculate_expire_time(1000), Some(3000));
    assert_eq!(ExpireRule::PX(250).calculate_expire_time(1000), Some(1250));
    assert_eq!(ExpireRule::EXAT(7).calculate_expire_time(99), Some(7000));
    assert_eq!(ExpireRule::PXAT(1234).calculate_expire_time(99), Some(1234));
    assert_eq!(ExpireRule::KEEPTTL.calculate_expire_time(99), None);
    // an instant past the clock's range means no expiration
    assert_eq!(ExpireRule::EX(u64::MAX).calculate_expire_time(0), None);
    assert_eq!(ExpireRule::PX(u64::MAX).calculate_expire_time(1), None);
    assert_eq!(ExpireRule::EXAT(u64::MAX / 2).calculate_expire_time(0), None);
}

#[test]
fn expired_entries_still_gate_nx_until_removed() {
    // lazy expiration: the raw entry lingers, so NX still sees it
    let mut d: Dictionary<String> = Dictionary::new();
    d.set(
        String::from("k"),
        String::from("v1"),
        None,
        false,
        Some(ExpireRule::PX(0)),
        1000,
    );
    assert_eq!(d.get("k", 2000), None);
    d.set(
        String::from("k"),
        String::from("v2"),
        Some(RemoveRule::NX),
        false,
        None,
        2000,
    );
    assert_eq!(d.get("k", 2000), None);
}
