use liro::challenge::is_valid_verifier;
use liro::{decimal, parse_decimal, Challenge, ChallengeError, ChallengeRecord, Lookup};

const SAMPLE_VERIFIER: &str = "dBjftJeZ4CVP-mJ92K27uhbUJU1p1r_wW1gFWFOEjXk";
const SAMPLE_CHALLENGE: &str = "ngF5GsXcbwljx6u133FFr3Xht9xooA_DuaX_3QwODtc";

fn sample(id: u64, discord_id: u64) -> Challenge {
    Challenge::from_parts(id, discord_id, SAMPLE_VERIFIER.as_bytes().to_vec()).unwrap()
}

#[test]
fn decimal_edges() {
    assert_eq!(decimal(0), "0");
    assert_eq!(decimal(7), "7");
    assert_eq!(decimal(10), "10");
    assert_eq!(decimal(1234567890), "1234567890");
    assert_eq!(decimal(u64::MAX), "18446744073709551615");
}

#[test]
fn key_uses_decimal_id() {
    assert_eq!(Challenge::key(42), "challenges:42");
    assert_eq!(Challenge::key(0), "challenges:0");
}

#[test]
fn new_challenge_has_fresh_verifier() {
    let c = Challenge::new(42);
    assert_eq!(c.discord_id(), 42);
    let v = c.code_verifier();
    assert_eq!(v.len(), 128);
    assert!(v
        .bytes()
        .all(|b| b.is_ascii_alphanumeric() || b == b'-' || b == b'.' || b == b'_' || b == b'~'));
}

#[test]
fn round_trip_through_record() {
    let c = Challenge::new(42);
    let found = Challenge::find(c.id(), Lookup::Present(c.record())).unwrap().unwrap();
    assert_eq!(found.id(), c.id());
    assert_eq!(found.discord_id(), 42);
    assert_eq!(found.code_verifier(), c.code_verifier());
}

#[test]
fn code_challenge_matches_sha256_base64url() {
    let c = sample(1, 2);
    assert_eq!(c.code_challenge(), SAMPLE_CHALLENGE);
    assert_eq!(c.code_verifier(), SAMPLE_VERIFIER);
}

#[test]
fn code_challenge_is_deterministic_and_sensitive() {
    let a = sample(1, 2);
    let b = sample(3, 4);
    assert_eq!(a.code_challenge(), b.code_challenge());
    let mut changed = SAMPLE_VERIFIER.as_bytes().to_vec();
    changed[0] = b'e';
    let c = Challenge::from_parts(1, 2, changed).unwrap();
    assert_ne!(c.code_challenge(), a.code_challenge());
}

#[test]
fn authorization_url_shape() {
    let c = sample(987654321, 42);
    let url = c.lichess_url();
    assert_eq!(
        url,
        format!(
            "https://lichess.org/oauth?response_type=code\
             &redirect_uri=http://localhost:8000/oauth/callback\
             &client_id=liro-bot-test&code_challenge_method=S256\
             &code_challenge={}&state=987654321",
            SAMPLE_CHALLENGE
        )
    );
    let query = url.split_once('?').unwrap().1;
    let states: Vec<&str> = query.split('&').filter(|p| p.starts_with("state=")).collect();
    assert_eq!(states, vec!["state=987654321"]);
    assert!(!url.contains(SAMPLE_VERIFIER));
    let fresh = Challenge::new(5);
    assert!(!fresh.lichess_url().contains(&fresh.code_verifier()));
}

#[test]
fn state_is_decimal_id() {
    assert_eq!(sample(31337, 1).state(), "31337");
}

#[test]
fn link_for_account_42_resolves_back() {
    let c = Challenge::new(42);
    assert_eq!(c.link(), format!("http://localhost:8000/connect/lichess/{}", c.id()));
    let state = parse_decimal(&c.state()).unwrap();
    assert_eq!(state, c.id());
    let found = Challenge::find(state, Lookup::Present(c.record())).unwrap().unwrap();
    assert_eq!(found.discord_id(), 42);
}

#[test]
fn find_absent_is_none() {
    assert!(Challenge::find(5, Lookup::Absent).unwrap().is_none());
}

#[test]
fn find_unreadable_is_corrupt() {
    assert_eq!(Challenge::find(5, Lookup::Unreadable).unwrap_err(), ChallengeError::Corrupt);
}

#[test]
fn find_other_id_is_corrupt() {
    let rec = sample(6, 1).record();
    assert_eq!(Challenge::find(5, Lookup::Present(rec)).unwrap_err(), ChallengeError::Corrupt);
}

#[test]
fn find_bad_verifier_is_corrupt() {
    let short = ChallengeRecord { id: 5, discord_id: 1, code_verifier: b"abc".to_vec() };
    assert_eq!(Challenge::find(5, Lookup::Present(short)).unwrap_err(), ChallengeError::Corrupt);
    let mut bad = SAMPLE_VERIFIER.as_bytes().to_vec();
    bad[3] = b'&';
    let rec = ChallengeRecord { id: 5, discord_id: 1, code_verifier: bad };
    assert_eq!(Challenge::find(5, Lookup::Present(rec)).unwrap_err(), ChallengeError::Corrupt);
}

#[test]
fn verifier_grammar_bounds() {
    assert!(!is_valid_verifier(&vec![b'a'; 42]));
    assert!(is_valid_verifier(&vec![b'a'; 43]));
    assert!(is_valid_verifier(&vec![b'~'; 128]));
    assert!(!is_valid_verifier(&vec![b'a'; 129]));
    assert!(!is_valid_verifier(&vec![0xC3; 64]));
}

#[test]
fn describe_names_both_ids() {
    assert_eq!(sample(12, 34).describe(), "Challenge<id=12, user_id=34>");
}

#[test]
fn parse_decimal_accepts_canonical_only() {
    assert_eq!(parse_decimal("0"), Some(0));
    assert_eq!(parse_decimal("42"), Some(42));
    assert_eq!(parse_decimal("18446744073709551615"), Some(u64::MAX));
    assert_eq!(parse_decimal("18446744073709551616"), None);
    assert_eq!(parse_decimal("99999999999999999999"), None);
    assert_eq!(parse_decimal("123456789012345678901"), None);
    assert_eq!(parse_decimal(""), None);
    assert_eq!(parse_decimal("007"), None);
    assert_eq!(parse_decimal("+7"), None);
    assert_eq!(parse_decimal("4a"), None);
    assert_eq!(parse_decimal(&decimal(987654321)), Some(987654321));
}
