use hkask_templates::user_store::{dedup_replicant_name, next_replicant_name, passphrase_expiry, sanitize_replicant_name, UserStoreError};

fn is_hex(s: &str) -> bool {
    s.chars().all(|c| c.is_ascii_digit() || ('a'..='f').contains(&c))
}

#[test]
fn display_names_sanitize() {
    assert_eq!(sanitize_replicant_name("Jane Doe"), "Jane_Doe");
    assert_eq!(sanitize_replicant_name("  --hi!!--  "), "hi");
    assert_eq!(sanitize_replicant_name("José Ñ"), "José_Ñ");
    assert_eq!(sanitize_replicant_name("a.b@c"), "a-b-c");
    assert_eq!(sanitize_replicant_name(&"a".repeat(70)), "a".repeat(64));
}

#[test]
fn empty_names_fall_back_to_uuid() {
    for input in ["", "!!!", " _- "] {
        let n = sanitize_replicant_name(input);
        assert_eq!(n.len(), 13);
        assert!(n.starts_with("user-"));
        assert!(is_hex(&n[5..]));
    }
}

#[test]
fn taken_names_count_up_then_fall_back() {
    let n = next_replicant_name("bob", 1);
    assert_eq!((n.suffix, n.name.as_str(), n.last), (2, "bob_2", false));
    let n = next_replicant_name("bob", 99);
    assert_eq!((n.suffix, n.name.as_str(), n.last), (100, "bob_100", false));
    let n = next_replicant_name("bob", 100);
    assert_eq!(n.suffix, 101);
    assert!(n.last);
    assert!(n.name.starts_with("bob_"));
    assert_eq!(n.name.len(), 12);
    assert!(is_hex(&n.name[4..]));
}

#[test]
fn passphrase_age() {
    let day = 86_400;
    assert_eq!(passphrase_expiry(10 * day + 5, Some(0), 9), Some(10));
    assert_eq!(passphrase_expiry(10 * day + 5, Some(0), 10), None);
    assert_eq!(passphrase_expiry(10 * day, None, 0), None);
    // Ages round toward zero, also before the time it was set.
    assert_eq!(passphrase_expiry(0, Some(2 * day + 1), -3), Some(-2));
}

#[test]
fn user_store_error_texts() {
    assert_eq!(UserStoreError::NotFound("bob".into()).message(), "User not found: bob");
    assert_eq!(UserStoreError::ReplicantNameTaken("bob".into()).message(), "Replicant name already registered: bob");
    assert_eq!(UserStoreError::InvalidCredentials.message(), "Invalid credentials");
    assert_eq!(UserStoreError::PassphraseExpired(3).message(), "Passphrase expired 3 days ago — must change");
    assert_eq!(UserStoreError::PassphraseExpired(-2).message(), "Passphrase expired -2 days ago — must change");
    assert_eq!(UserStoreError::Infra("disk full".into()).message(), "disk full");
}

#[test]
fn oauth_names_dedup_against_taken_names() {
    assert_eq!(dedup_replicant_name("Bob Smith", &vec![]), "Bob_Smith");
    let taken = vec!["bob".to_string(), "bob_2".to_string(), "alice".to_string()];
    assert_eq!(dedup_replicant_name("bob", &taken), "bob_3");
    let mut all: Vec<String> = vec!["bob".to_string()];
    for k in 2..=100 {
        all.push(format!("bob_{}", k));
    }
    let n = dedup_replicant_name("bob", &all);
    assert_eq!(n.len(), 12);
    assert!(n.starts_with("bob_"));
    assert!(is_hex(&n[4..]));
}

#[test]
fn sanitized_names_stay_within_range_and_class() {
    for input in ["  Jane Doe! ", "", "!!!", "a\u{00e9}b c", &"x y".repeat(40), "--_--", "ok"] {
        let n = sanitize_replicant_name(input);
        let len = n.chars().count();
        assert!((1..=64).contains(&len), "{input:?} gave {n:?}");
        assert!(n.chars().all(|c| c.is_alphanumeric() || c == '-' || c == '_'), "{input:?} gave {n:?}");
    }
    assert_eq!(sanitize_replicant_name("  Jane Doe! "), "Jane_Doe");
}
