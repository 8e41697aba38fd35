use starkeeper::pages::{apikey_page, error_page, DONE_HTML};
use starkeeper::setup::{browser_command, check_callback, CallbackFailure, HostOs, SetupFlow, SETUP_PORT};

fn pairs(items: &[(&str, &str)]) -> Vec<(String, String)> {
    items.iter().map(|(k, v)| (k.to_string(), v.to_string())).collect()
}

const CLAIMED: &str = "https://steamcommunity.com/openid/id/76561197960287930";

fn signed_in_flow() -> SetupFlow {
    let mut flow = SetupFlow::new();
    let id = check_callback(&pairs(&[("openid.mode", "id_res"), ("openid.claimed_id", CLAIMED)])).unwrap();
    flow.on_verification(id, true);
    flow
}

#[test]
fn setup_port_value() {
    assert_eq!(SETUP_PORT, 7357);
}

#[test]
fn callback_refusals() {
    assert_eq!(check_callback(&pairs(&[])).err(), Some(CallbackFailure::Cancelled));
    assert_eq!(
        check_callback(&pairs(&[("openid.mode", "cancel"), ("openid.claimed_id", CLAIMED)])).err(),
        Some(CallbackFailure::Cancelled)
    );
    assert_eq!(
        check_callback(&pairs(&[("openid.mode", "id_res")])).err(),
        Some(CallbackFailure::MissingSteamId)
    );
    assert_eq!(
        check_callback(&pairs(&[("openid.mode", "id_res"), ("openid.claimed_id", "https://x/id/123")])).err(),
        Some(CallbackFailure::MalformedSteamId)
    );
}

#[test]
fn callback_accepts_steam_id() {
    let id = check_callback(&pairs(&[("openid.claimed_id", CLAIMED), ("openid.mode", "id_res")])).unwrap();
    assert_eq!(id.as_str(), "76561197960287930");
}

#[test]
fn unverified_sign_in_changes_nothing() {
    let mut flow = SetupFlow::new();
    let id = check_callback(&pairs(&[("openid.mode", "id_res"), ("openid.claimed_id", CLAIMED)])).unwrap();
    let page = flow.on_verification(id, false);
    assert_eq!(page, CallbackFailure::NotVerified.page());
    let reply = flow.on_api_key("KEY");
    assert_eq!(reply.page, error_page("Session expired.", "/", "Start over"));
    assert!(reply.save.is_none());
    assert!(!reply.complete);
}

#[test]
fn verified_sign_in_shows_key_form() {
    let mut flow = SetupFlow::new();
    let id = check_callback(&pairs(&[("openid.mode", "id_res"), ("openid.claimed_id", CLAIMED)])).unwrap();
    let page = flow.on_verification(id, true);
    assert_eq!(page, apikey_page("76561197960287930"));
}

#[test]
fn key_before_sign_in_is_expired() {
    let mut flow = SetupFlow::new();
    let reply = flow.on_api_key("ABCDEF");
    assert_eq!(reply.page, error_page("Session expired.", "/", "Start over"));
    assert!(reply.save.is_none());
}

#[test]
fn empty_key_is_refused() {
    let mut flow = signed_in_flow();
    for raw in ["", "   ", "\t\n\u{a0}"] {
        let reply = flow.on_api_key(raw);
        assert_eq!(reply.page, error_page("API key cannot be empty.", "javascript:history.back()", "Go back"));
        assert!(reply.save.is_none());
        assert!(!reply.complete);
    }
}

#[test]
fn key_is_trimmed_and_completes_once() {
    let mut flow = signed_in_flow();
    let first = flow.on_api_key("  0123456789ABCDEF0123456789ABCDEF \n");
    assert_eq!(first.page, DONE_HTML);
    assert!(first.complete);
    let saved = first.save.unwrap();
    assert_eq!(saved.steam_id, "76561197960287930");
    assert_eq!(saved.api_key, "0123456789ABCDEF0123456789ABCDEF");
    let second = flow.on_api_key("OTHER");
    assert!(!second.complete);
    assert_eq!(second.save.unwrap().api_key, "OTHER");
    assert_eq!(second.page, DONE_HTML);
}

#[test]
fn browser_commands() {
    let (p, a) = browser_command(HostOs::Windows, "http://localhost:7357");
    assert_eq!(p, "cmd");
    assert_eq!(a, vec!["/c", "start", "http://localhost:7357"]);
    let (p, a) = browser_command(HostOs::MacOs, "u");
    assert_eq!(p, "open");
    assert_eq!(a, vec!["u"]);
    let (p, a) = browser_command(HostOs::Other, "u");
    assert_eq!(p, "xdg-open");
    assert_eq!(a, vec!["u"]);
}
