//! Cookies and sessions.

use localhost::cookies::{cookie_value, session_id, SessionStore, SESSION_TTL};
use std::collections::hash_map::RandomState;
use std::hash::{BuildHasher, Hasher};

#[test]
fn parses_cookie_value() {
    let h = "theme=dark; session_id=abc123; lang=en";
    assert_eq!(cookie_value(h, "session_id"), Some("abc123".to_string()));
    assert_eq!(cookie_value(h, "theme"), Some("dark".to_string()));
    assert_eq!(cookie_value(h, "missing"), None);
}

fn random_bits() -> [u8; 16] {
    let mut bits = [0u8; 16];
    bits[..8].copy_from_slice(&RandomState::new().build_hasher().finish().to_ne_bytes());
    bits[8..].copy_from_slice(&RandomState::new().build_hasher().finish().to_ne_bytes());
    bits
}

#[test]
fn random_ids_are_unique_and_long() {
    let a = session_id(&random_bits());
    let b = session_id(&random_bits());
    assert_eq!(a.len(), 32);
    assert_ne!(a, b);
}

#[test]
fn new_then_returning_session() {
    let mut store = SessionStore::new();
    let first = store.touch(None, 0, &[1; 16]);
    assert!(first.is_new);
    assert_eq!(first.visits, 1);

    let cookie = format!("session_id={}", first.id);
    let second = store.touch(Some(&cookie), 1, &[2; 16]);
    assert!(!second.is_new);
    assert_eq!(second.visits, 2);
    assert_eq!(second.id, first.id);
}

#[test]
fn odd_cookies() {
    assert_eq!(cookie_value(" a = b = c ;x", "a"), Some("b = c".to_string()));
    assert_eq!(cookie_value("a; a=1; a=2", "a"), Some("1".to_string()));
    assert_eq!(cookie_value("", "a"), None);
}

#[test]
fn session_ids_are_hexadecimal() {
    let mut bits = [0u8; 16];
    bits[0] = 0xab;
    bits[15] = 0x0f;
    assert_eq!(session_id(&bits), "ab00000000000000000000000000000f");
    assert_eq!(session_id(&bits).len(), 32);
    assert_ne!(session_id(&bits), session_id(&[0; 16]));
}

#[test]
fn sessions_expire_after_half_an_hour() {
    let mut store = SessionStore::new();
    let a = store.touch(None, 0, &[1; 16]);
    let b = store.touch(None, 10, &[2; 16]);
    let cookie_a = format!("session_id={}", a.id);
    let cookie_b = format!("x=y; session_id={}", b.id);
    assert!(!store.needs_session(Some(&cookie_a), SESSION_TTL - 1));
    assert!(store.needs_session(Some(&cookie_a), SESSION_TTL));
    // The first session is gone, the second one is not.
    let again = store.touch(Some(&cookie_a), SESSION_TTL, &[3; 16]);
    assert!(again.is_new);
    assert_eq!(again.id, session_id(&[3; 16]));
    let still = store.touch(Some(&cookie_b), SESSION_TTL + 5, &[4; 16]);
    assert_eq!((still.is_new, still.visits), (false, 2));
    assert_eq!(SESSION_TTL, 30 * 60 * 1_000_000_000);
}

#[test]
fn unknown_sessions_are_replaced() {
    let mut store = SessionStore::new();
    assert!(store.needs_session(Some("session_id=forged"), 0));
    let info = store.touch(Some("session_id=forged"), 0, &[9; 16]);
    assert!(info.is_new);
    assert_eq!(info.id, "09090909090909090909090909090909");
    // A clock that goes back expires nothing.
    let cookie = format!("session_id={}", info.id);
    assert!(!store.touch(Some(&cookie), 0, &[8; 16]).is_new);
    store.evict_expired(SESSION_TTL);
    assert!(store.needs_session(Some(&cookie), SESSION_TTL));
}

#[test]
fn the_cookie_that_is_set() {
    let header = SessionStore::set_cookie_header("abc");
    assert_eq!(header, "session_id=abc; Path=/; HttpOnly; SameSite=Lax");
    assert_eq!(cookie_value(&header, "session_id"), Some("abc".to_string()));
}
