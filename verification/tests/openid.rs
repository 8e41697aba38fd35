use starkeeper::openid::{
    check_authentication_body, openid_reply_valid, param, pct_encode, steam_id_from_claimed,
    steam_login_url,
};

fn pairs(items: &[(&str, &str)]) -> Vec<(String, String)> {
    items.iter().map(|(k, v)| (k.to_string(), v.to_string())).collect()
}

fn pct_decode(s: &str) -> Vec<u8> {
    let b = s.as_bytes();
    let mut out = Vec::new();
    let mut i = 0;
    while i < b.len() {
        if b[i] == b'%' {
            out.push(u8::from_str_radix(&s[i + 1..i + 3], 16).unwrap());
            i += 3;
        } else {
            out.push(b[i]);
            i += 1;
        }
    }
    out
}

#[test]
fn pct_encode_keeps_unreserved() {
    assert_eq!(pct_encode("AZaz09-_.~"), "AZaz09-_.~");
}

#[test]
fn pct_encode_escapes_bytes_in_upper_case_hex() {
    assert_eq!(pct_encode("a b/c"), "a%20b%2Fc");
    assert_eq!(pct_encode("http://x"), "http%3A%2F%2Fx");
    assert_eq!(pct_encode("é"), "%C3%A9");
    assert_eq!(pct_encode("+=&%"), "%2B%3D%26%25");
    assert_eq!(pct_encode(""), "");
}

#[test]
fn pct_encode_round_trips() {
    for s in ["", "plain", "a b+c=d&e%f", "ünïcödé ✓", "\u{0}\u{7f}\n"] {
        assert_eq!(pct_decode(&pct_encode(s)), s.as_bytes());
    }
}

#[test]
fn login_url_for_setup_port() {
    let port = 7357u16;
    let return_to = format!("http%3A%2F%2Flocalhost%3A{port}%2Fauth%2Fcallback");
    let realm = format!("http%3A%2F%2Flocalhost%3A{port}%2F");
    let expected = format!(
        "https://steamcommunity.com/openid/login\
        ?openid.ns=http%3A%2F%2Fspecs.openid.net%2Fauth%2F2.0\
        &openid.mode=checkid_setup\
        &openid.return_to={return_to}\
        &openid.realm={realm}\
        &openid.identity=http%3A%2F%2Fspecs.openid.net%2Fauth%2F2.0%2Fidentifier_select\
        &openid.claimed_id=http%3A%2F%2Fspecs.openid.net%2Fauth%2F2.0%2Fidentifier_select"
    );
    assert_eq!(steam_login_url(port), expected);
}

#[test]
fn login_url_renders_any_port() {
    assert!(steam_login_url(0).contains("localhost%3A0%2Fauth%2Fcallback"));
    assert!(steam_login_url(65535).contains("localhost%3A65535%2F&"));
}

#[test]
fn param_finds_first_match() {
    let ps = pairs(&[("a", "1"), ("b", "2"), ("a", "3")]);
    assert_eq!(param(&ps, "a").map(|s| s.as_str()), Some("1"));
    assert_eq!(param(&ps, "b").map(|s| s.as_str()), Some("2"));
    assert_eq!(param(&ps, "c"), None);
}

#[test]
fn steam_id_from_claimed_id() {
    assert_eq!(
        steam_id_from_claimed("https://steamcommunity.com/openid/id/76561197960287930").as_deref(),
        Some("76561197960287930")
    );
    assert_eq!(steam_id_from_claimed("76561197960287930").as_deref(), Some("76561197960287930"));
    assert_eq!(steam_id_from_claimed("https://steamcommunity.com/openid/id/7656119796028793"), None);
    assert_eq!(steam_id_from_claimed("https://steamcommunity.com/openid/id/765611979602879300"), None);
    assert_eq!(steam_id_from_claimed("https://steamcommunity.com/openid/id/76561197960287930/"), None);
    assert_eq!(steam_id_from_claimed("https://steamcommunity.com/openid/id/7656119796028793x"), None);
    assert_eq!(steam_id_from_claimed(""), None);
}

#[test]
fn check_authentication_body_replaces_mode() {
    let ps = pairs(&[
        ("openid.ns", "http://specs.openid.net/auth/2.0"),
        ("openid.mode", "id_res"),
        ("openid.sig", "a+b="),
    ]);
    assert_eq!(
        check_authentication_body(&ps),
        "openid.ns=http%3A%2F%2Fspecs.openid.net%2Fauth%2F2.0&openid.mode=check_authentication&openid.sig=a%2Bb%3D"
    );
}

#[test]
fn check_authentication_body_adds_missing_mode() {
    let ps = pairs(&[("openid.sig", "xyz")]);
    assert_eq!(check_authentication_body(&ps), "openid.sig=xyz&openid.mode=check_authentication");
    assert_eq!(check_authentication_body(&Vec::new()), "openid.mode=check_authentication");
}

#[test]
fn check_authentication_body_always_asks_check() {
    for ps in [pairs(&[]), pairs(&[("openid.mode", "cancel")]), pairs(&[("k", "v"), ("x", "y")])] {
        let body = check_authentication_body(&ps);
        assert!(body.split('&').any(|f| f == "openid.mode=check_authentication"));
    }
}

#[test]
fn reply_confirmation() {
    assert!(openid_reply_valid(Some("ns:http://specs.openid.net/auth/2.0\nis_valid:true\n")));
    assert!(!openid_reply_valid(Some("ns:http://specs.openid.net/auth/2.0\nis_valid:false\n")));
    assert!(!openid_reply_valid(Some("")));
    assert!(!openid_reply_valid(None));
}

#[test]
fn pct_encode_distributes_over_concatenation() {
    for (a, b) in [("", ""), ("a b", "c/d"), ("é", "✓"), ("x", "")] {
        assert_eq!(pct_encode(&format!("{a}{b}")), pct_encode(a) + &pct_encode(b));
    }
}
