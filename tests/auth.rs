use termcastd::auth::{constant_time_eq, CasterAuth, SALT_LEN};

#[test]
fn register() {
    let mut ca = CasterAuth::new();
    let name = "foo";
    let pass = "";
    assert!(ca.login(&name, &pass).is_ok(), "Can register new name.");
    assert_eq!(ca.len(), 1);
}

#[test]
fn register_three() {
    let mut ca = CasterAuth::new();
    let name = "foo1";
    let pass = "pass1";
    assert!(ca.login(&name, &pass).is_ok(), "Can register new name.");

    let name = "foo2";
    let pass = "pass2";
    assert!(ca.login(&name, &pass).is_ok(), "Can register new name.");

    let name = "foo3";
    let pass = "pass3";
    assert!(ca.login(&name, &pass).is_ok(), "Can register new name.");

    assert_eq!(ca.len(), 3);
}

#[test]
fn login() {
    let mut ca = CasterAuth::new();
    let name = "foo";
    let pass = "";
    let _ = ca.login(&name, &pass);

    assert!(ca.login(&name, &pass).is_ok(), "Logging in works.");
    assert_eq!(ca.len(), 1);
}

#[test]
fn login_fail() {
    let mut ca = CasterAuth::new();
    let name = "foo";
    let pass = "";
    let _ = ca.login(&name, &pass);

    let new_pass = "x";
    assert!(ca.login(&name, &new_pass).is_err(), "Login fail with wrong password.");
    assert_eq!(ca.len(), 1);
}

#[test]
fn registered_key_is_derived_from_password() {
    let mut ca = CasterAuth::new();
    assert!(ca.login("alice", "secret").is_ok());
    let salt = ca.salt_of("alice").unwrap();
    assert_eq!(salt.len(), SALT_LEN);
    assert!(ca.salt_of("bob").is_none());
    // The stored key is not the password itself.
    assert!(!ca.check_key("alice", b"secret"));
    assert!(ca.login("alice", "secret").is_ok());
    assert!(ca.login("alice", "secreT").is_err());
}

#[test]
fn register_and_check_key() {
    let mut ca = CasterAuth::new();
    ca.register("bob", vec![7u8; SALT_LEN], vec![1, 2, 3]);
    assert_eq!(ca.len(), 1);
    assert!(ca.check_key("bob", &[1, 2, 3]));
    assert!(!ca.check_key("bob", &[1, 2, 4]));
    assert!(!ca.check_key("bob", &[1, 2]));
    assert!(!ca.check_key("carol", &[1, 2, 3]));
    assert_eq!(ca.salt_of("bob").unwrap(), vec![7u8; SALT_LEN]);
}

#[test]
fn constant_time_eq_compares_bytes() {
    assert!(constant_time_eq(b"", b""));
    assert!(constant_time_eq(b"abc", b"abc"));
    assert!(!constant_time_eq(b"abc", b"abd"));
    assert!(!constant_time_eq(b"xbc", b"abc"));
    assert!(!constant_time_eq(b"abc", b"abcd"));
}
