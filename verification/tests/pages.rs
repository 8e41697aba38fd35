use starkeeper::pages::{apikey_page, error_page, DONE_HTML, LOGIN_HTML, STYLE};
use starkeeper::setup::CallbackFailure;

const EXPECTED_STYLE: &str = r##"<style>
*{box-sizing:border-box;margin:0;padding:0}
body{font:15px/1.6 system-ui,monospace;background:#0e0e16;color:#ccc;
     display:flex;align-items:center;justify-content:center;min-height:100vh}
.card{background:#161622;border:1px solid #2a2a40;border-radius:12px;
      padding:40px 48px;max-width:520px;width:100%}
.logo{font-size:2.8em;margin-bottom:8px}
h1{color:#e8c040;font-size:1.4em;margin-bottom:4px}
.step{color:#7a9;font-size:0.88em;margin-bottom:24px}
.info{background:#1e1e2e;border-left:3px solid #4a7a5a;padding:14px 16px;
      border-radius:0 6px 6px 0;margin-bottom:24px;font-size:0.88em;line-height:1.8}
.info strong{color:#afa}
.info code{background:#252535;padding:1px 5px;border-radius:3px;font-size:0.92em}
.info a{color:#66c0f4}
input{display:block;width:100%;background:#1e1e2e;border:1px solid #3a3a5a;
      color:#fff;padding:10px 14px;border-radius:4px;font:inherit;margin-bottom:4px}
input:focus{outline:none;border-color:#66c0f4}
.btn{display:inline-flex;align-items:center;gap:10px;
     background:#1b2838;border:1px solid #4c6b8a;color:#c6d4df;
     text-decoration:none;padding:12px 22px;border-radius:4px;
     font-size:0.95em;cursor:pointer;transition:background 0.15s;font-family:inherit}
.btn:hover{background:#2a475e;border-color:#66c0f4;color:#fff}
.privacy{color:#555;font-size:0.82em;margin-top:18px;line-height:1.5}
.privacy code{background:#1a1a2a;padding:1px 4px;border-radius:2px}
</style>"##;

fn expected_error_page(msg: &str, href: &str, link_text: &str) -> String {
    format!(
        r##"<!DOCTYPE html><html lang="en"><head><meta charset="utf-8">
<title>Setup — Starkeeper Media</title>{style}</head><body>
<div class="card">
  <div class="logo">⭐</div>
  <h1>Starkeeper Media</h1>
  <p class="step">Setup</p>
  <div class="info" style="border-color:#c05050;background:#2a1818;">
    <strong style="color:#f88">Error:</strong> {msg}
  </div>
  <a class="btn" href="{href}">{link_text}</a>
</div></body></html>"##,
        style = EXPECTED_STYLE,
        msg = msg,
        href = href,
        link_text = link_text
    )
}

fn expected_apikey_page(steam_id: &str) -> String {
    format!(
        r##"<!DOCTYPE html><html lang="en"><head><meta charset="utf-8">
<title>API Key — Starkeeper Media</title>{style}</head><body>
<div class="card">
  <div class="logo">⭐</div>
  <h1>Starkeeper Media</h1>
  <p class="step">Step 2 of 2 — Steam API Key</p>
  <div class="info">
    <strong style="color:#afa">✓ Signed in &nbsp;</strong>
    Steam ID: <code>{steam_id}</code><br><br>
    Now you need a <strong>Steam Web API key</strong>. Get one free at:<br>
    <a href="https://steamcommunity.com/dev/apikey" target="_blank"
       style="color:#66c0f4">steamcommunity.com/dev/apikey</a><br><br>
    Register any domain (e.g. <code>localhost</code>) and paste the key below.
  </div>
  <form method="POST" action="/auth/apikey">
    <input name="api_key" type="text"
           placeholder="Steam Web API Key (32 hex characters)"
           autocomplete="off" spellcheck="false">
    <button type="submit" class="btn" style="display:block;width:100%;margin-top:10px">
      Save &amp; Start Scanner
    </button>
  </form>
  <p class="privacy">Your API key is written only to a local <code>.env</code> file.
  It is never sent anywhere except Steam's official API endpoint.</p>
</div></body></html>"##,
        style = EXPECTED_STYLE,
        steam_id = steam_id
    )
}

#[test]
fn style_sheet_is_the_shared_one() {
    assert_eq!(STYLE, EXPECTED_STYLE);
}

#[test]
fn error_page_renders_message_link_and_label() {
    let page = error_page("API key cannot be empty.", "javascript:history.back()", "Go back");
    assert_eq!(page, expected_error_page("API key cannot be empty.", "javascript:history.back()", "Go back"));
    assert!(page.contains("<strong style=\"color:#f88\">Error:</strong> API key cannot be empty."));
    assert!(page.contains("<a class=\"btn\" href=\"javascript:history.back()\">Go back</a>"));
}

#[test]
fn error_page_inserts_text_verbatim() {
    let page = error_page("<b>&</b>", "", "");
    assert_eq!(page, expected_error_page("<b>&</b>", "", ""));
}

#[test]
fn apikey_page_shows_steam_id() {
    let page = apikey_page("76561197960287930");
    assert_eq!(page, expected_apikey_page("76561197960287930"));
    assert!(page.contains("Steam ID: <code>76561197960287930</code>"));
    assert!(page.contains("<form method=\"POST\" action=\"/auth/apikey\">"));
}

#[test]
fn callback_failure_pages() {
    let cases = [
        (CallbackFailure::Cancelled, "Steam login was cancelled or failed."),
        (CallbackFailure::MissingSteamId, "No Steam ID in response."),
        (CallbackFailure::MalformedSteamId, "Could not parse Steam ID from response."),
        (CallbackFailure::NotVerified, "Steam could not verify the login."),
    ];
    for (f, msg) in cases {
        assert_eq!(f.page(), expected_error_page(msg, "/", "Try again"));
    }
}

#[test]
fn static_pages() {
    assert!(LOGIN_HTML.starts_with("<!DOCTYPE html>"));
    assert!(LOGIN_HTML.contains("<a class=\"btn\" href=\"/auth/steam\">"));
    assert!(DONE_HTML.contains("Setup complete!"));
    assert!(DONE_HTML.contains("https://localhost:8086"));
}
