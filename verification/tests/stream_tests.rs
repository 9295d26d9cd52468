use sparknode::gateway::auth::token_claims;
use sparknode::gateway::generate::provider_frames;

#[test]
fn token_claims_expire_after_the_given_hours() {
    let c = token_claims(7, "ada".to_string(), 1_700_000_000, 72);
    assert_eq!(c.sub, 7);
    assert_eq!(c.username, "ada");
    assert_eq!(c.iat, 1_700_000_000);
    assert_eq!(c.exp, 1_700_000_000 + 72 * 3600);
    assert_eq!(token_claims(1, String::new(), 100, -1).exp, 100 - 3600);
}

#[test]
fn frames_of_a_provider_that_answered() {
    let v = provider_frames("openai".to_string(), Ok(vec!["Hel".to_string(), "lo".to_string()]));
    assert_eq!(v.len(), 3);
    assert_eq!(v[0].text.as_deref(), Some("Hel"));
    assert_eq!(v[1].text.as_deref(), Some("lo"));
    assert!(!v[0].is_final && !v[1].is_final);
    assert_eq!(v[2].text.as_deref(), Some(""));
    assert!(v[2].is_final);
    assert!(v.iter().all(|f| f.provider == "openai" && f.error.is_none()));
}

#[test]
fn frames_of_a_provider_that_failed() {
    let v = provider_frames("local".to_string(), Err("connection refused".to_string()));
    assert_eq!(v.len(), 1);
    assert_eq!(v[0].provider, "local");
    assert_eq!(v[0].error.as_deref(), Some("connection refused"));
    assert!(v[0].text.is_none());
    assert!(v[0].is_final);
}
