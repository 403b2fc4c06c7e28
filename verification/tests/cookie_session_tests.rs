use webserv::cookie::{Cookie, extract_session_id};
use webserv::session::{Session, SessionStore, SESSION_LIFETIME};

#[test]
fn cookie_builder_renders_attributes() {
    let c = Cookie::new("session_id", "abc123")
        .path("/")
        .http_only(true)
        .max_age(3600);
    let v = c.to_header_value();
    assert_eq!(v, "session_id=abc123; Path=/; Max-Age=3600; HttpOnly");
}

#[test]
fn cookie_value_is_percent_encoded() {
    // Would fail if the encoder handed its argument back unchanged.
    let c = Cookie::new("k", "a b/c");
    let v = c.to_header_value();
    assert_eq!(v, "k=a%20b%2Fc");
}

#[test]
fn cookie_expires_uses_http_date() {
    // 1431696861 seconds after the epoch is 13:34:21 UTC on Friday,
    // 15 May 2015; would fail if the date formatter handed something
    // else back.
    let c = Cookie::new("k", "v").expires(1431696861);
    let v = c.to_header_value();
    assert_eq!(v, "k=v; Expires=Fri, 15 May 2015 13:34:21 GMT");
}

#[test]
fn cookie_round_trip_recovers_name_and_value() {
    let c = Cookie::new("session_id", "abc-123").path("/").http_only(true);
    let header = c.to_header_value();
    let parsed = Cookie::parse(&header);
    assert!(!parsed.is_empty());
    assert_eq!(parsed[0].name(), "session_id");
    assert_eq!(parsed[0].value(), "abc-123");
}

#[test]
fn parse_splits_cookie_header() {
    let parsed = Cookie::parse(" a=1; b = 2 ;; c=x=y ");
    let pairs: Vec<(&str, &str)> = parsed.iter().map(|c| (c.name(), c.value())).collect();
    assert_eq!(pairs, vec![("a", "1"), ("b", "2"), ("c", "x=y")]);
}

#[test]
fn extract_session_id_finds_first() {
    assert_eq!(
        extract_session_id(Some("x=1; session_id=zz; session_id=aa")).unwrap(),
        "zz"
    );
    assert!(extract_session_id(Some("x=1")).is_none());
    assert!(extract_session_id(None).is_none());
}

#[test]
fn delete_cookie_clears() {
    assert_eq!(Cookie::delete_cookie("session_id"), "session_id=; Max-Age=0; Path=/");
}

#[test]
fn cookie_expiry_check() {
    let c = Cookie::new("k", "v").expires(100);
    assert!(!c.is_expired(99));
    assert!(c.is_expired(100));
    assert!(!Cookie::new("k", "v").is_expired(u64::MAX));
}

#[test]
fn session_lifecycle() {
    let s = Session::new(Some("sid-1".to_string()), 1000);
    assert_eq!(s.id, "sid-1");
    assert_eq!(s.created_at, 1000);
    assert_eq!(s.expires_at, 1000 + SESSION_LIFETIME);
    assert!(!s.is_expired(1000));
    assert!(s.is_expired(1000 + SESSION_LIFETIME));
    assert!(!s.is_logged_in(1000));
    let mut s = s.with_user("u1", "alice");
    assert!(s.is_logged_in(1000));
    assert!(!s.is_logged_in(1000 + SESSION_LIFETIME));
    s.renew(5000);
    assert_eq!(s.expires_at, 5000 + SESSION_LIFETIME);
}

#[test]
fn session_data_map() {
    let mut s = Session::new(None, 0);
    assert_eq!(s.id.len(), 36);
    s.set_data("theme", "dark");
    s.set_data("theme", "light");
    assert_eq!(s.get_data("theme").unwrap(), "light");
    assert_eq!(s.remove_data("theme").unwrap(), "light");
    assert!(s.get_data("theme").is_none());
}

#[test]
fn store_create_get_update_destroy() {
    let mut store = SessionStore::new(300);
    let s = store.create_with_user("u1", "alice", 100);
    let got = store.get(&s.id).unwrap();
    assert_eq!(got.username.as_deref(), Some("alice"));
    let mut changed = got;
    changed.set_expiry(100, 50);
    assert!(store.update(&changed));
    assert_eq!(store.get(&s.id).unwrap().expires_at, 150);
    assert!(store.destroy(&s.id));
    assert!(store.get(&s.id).is_none());
    assert!(!store.destroy(&s.id));
}

#[test]
fn update_unknown_session_fails() {
    let mut store = SessionStore::new(300);
    let s = Session::new(Some("ghost".to_string()), 0);
    assert!(!store.update(&s));
    assert!(store.get("ghost").is_none());
}

#[test]
fn cleanup_sweeps_expired_sessions() {
    let mut store = SessionStore::new(300);
    let a = store.create(100);
    let b = store.create(100);
    // a expires at 100 + lifetime; push b further out.
    let mut b2 = store.get(&b.id).unwrap();
    b2.set_expiry(100, 10 * SESSION_LIFETIME);
    assert!(store.update(&b2));
    let removed = store.cleanup(100 + SESSION_LIFETIME);
    assert_eq!(removed, 1);
    assert!(store.get(&a.id).is_none());
    assert!(store.get(&b.id).is_some());
    assert_eq!(store.get_all().len(), 1);
}

#[test]
fn touch_creates_then_bumps() {
    let mut store = SessionStore::new(300);
    let first = store.touch(None, 100);
    assert_eq!(first.get_data("visits").unwrap(), "1");
    assert_eq!(first.expires_at, 100 + SESSION_LIFETIME);

    let second = store.touch(Some(&first.id), 200);
    assert_eq!(second.id, first.id);
    assert_eq!(second.get_data("visits").unwrap(), "2");
    assert_eq!(second.expires_at, 200 + SESSION_LIFETIME);
    assert_eq!(store.get_all().len(), 1);

    let third = store.touch(Some("unknown"), 300);
    assert_ne!(third.id, first.id);
    assert_eq!(third.get_data("visits").unwrap(), "1");
    assert_eq!(store.get_all().len(), 2);
}
