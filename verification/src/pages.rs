//! The HTML pages of the setup server.

use vstd::prelude::*;

verus! {

/// The style sheet shared by the error and API-key pages.
pub const STYLE: &'static str = r##"<style>
*{box-sizing:border-box;margin:0;padding:0}
body{font:15px/1.6 system-ui,monospace;background:#0e0e16;color:#ccc;
     display:flex;align-items:center;justify-content:center;min-height:100vh}
.card{background:#161622;border:1px solid #2a2a40;border-radius:12px;
      padding:40px 48px;max-width:520px;width:100%}
.logo{font-size:2.8em;margin-bottom:8px}
h1{color:#e8c040;font-size:1.4em;margin-bottom:4px}
.step{color:#7a9;font-size:0.88em;margin-bottom:24px}
.info{background:#1e1e2e;border-left:3px solid #4a7a5a;padding:14px 16px;
      border-radius:0 6px 6px 0;margin-bottom:24px;font-size:0.88em;line-height:1.8}
.info strong{color:#afa}
.info code{background:#252535;padding:1px 5px;border-radius:3px;font-size:0.92em}
.info a{color:#66c0f4}
input{display:block;width:100%;background:#1e1e2e;border:1px solid #3a3a5a;
      color:#fff;padding:10px 14px;border-radius:4px;font:inherit;margin-bottom:4px}
input:focus{outline:none;border-color:#66c0f4}
.btn{display:inline-flex;align-items:center;gap:10px;
     background:#1b2838;border:1px solid #4c6b8a;color:#c6d4df;
     text-decoration:none;padding:12px 22px;border-radius:4px;
     font-size:0.95em;cursor:pointer;transition:background 0.15s;font-family:inherit}
.btn:hover{background:#2a475e;border-color:#66c0f4;color:#fff}
.privacy{color:#555;font-size:0.82em;margin-top:18px;line-height:1.5}
.privacy code{background:#1a1a2a;padding:1px 4px;border-radius:2px}
</style>"##;

/// The first page: what setup does, and the Steam sign-in button.
pub const LOGIN_HTML: &'static str = r##"<!DOCTYPE html><html lang="en"><head><meta charset="utf-8">
<title>Setup — Starkeeper Media</title>
<style>
*{box-sizing:border-box;margin:0;padding:0}
body{font:15px/1.6 system-ui,monospace;background:#0e0e16;color:#ccc;
     display:flex;align-items:center;justify-content:center;min-height:100vh}
.card{background:#161622;border:1px solid #2a2a40;border-radius:12px;
      padding:40px 48px;max-width:520px;width:100%}
.logo{font-size:2.8em;margin-bottom:8px}
h1{color:#e8c040;font-size:1.4em;margin-bottom:4px}
.step{color:#7a9;font-size:0.88em;margin-bottom:24px}
.info{background:#1e1e2e;border-left:3px solid #4a7a5a;padding:14px 16px;
      border-radius:0 6px 6px 0;margin-bottom:24px;font-size:0.88em;line-height:1.8}
.info strong{color:#afa}
.info code{background:#252535;padding:1px 5px;border-radius:3px;font-size:0.92em}
.btn{display:inline-flex;align-items:center;gap:10px;
     background:#1b2838;border:1px solid #4c6b8a;color:#c6d4df;
     text-decoration:none;padding:12px 22px;border-radius:4px;
     font-size:0.95em;cursor:pointer;transition:background 0.15s;font-family:inherit}
.btn:hover{background:#2a475e;border-color:#66c0f4;color:#fff}
.privacy{color:#555;font-size:0.82em;margin-top:18px;line-height:1.5}
.privacy code{background:#1a1a2a;padding:1px 4px;border-radius:2px}
</style>
</head><body>
<div class="card">
  <div class="logo">⭐</div>
  <h1>Starkeeper Media</h1>
  <p class="step">First-time Setup — Step 1 of 2</p>
  <div class="info">
    <strong>What's about to happen:</strong><br>
    1. You'll sign in with Steam to identify your account<br>
    2. You'll provide a Steam Web API key (we'll walk you through it)<br>
    3. Both are saved to a local <code>.env</code> file on this machine
  </div>
  <a class="btn" href="/auth/steam">
    <svg width="20" height="20" viewBox="0 0 233 233" fill="#66c0f4">
      <path d="M116.5 0C52.1 0 0 52.1 0 116.5c0 55.4 38.7 101.8 90.6 113.5
               l30.8-73.5c-2.2.3-4.5.5-6.8.5-26.5 0-48-21.5-48-48s21.5-48
               48-48 48 21.5 48 48c0 22.5-15.5 41.4-36.4 46.7L97.4 228
               c6.2 1.6 12.7 2.5 19.3 2.5 64.4 0 116.5-52.1
               116.5-116.5S180.9 0 116.5 0z"/>
    </svg>
    Sign in with Steam
  </a>
  <p class="privacy">Nothing is transmitted to any server other than Steam's official
  authentication service. Your credentials are stored only in a local
  <code>.env</code> file and are never uploaded anywhere.</p>
</div></body></html>"##;

/// The page shown once the credentials are saved.
pub const DONE_HTML: &'static str = r##"<!DOCTYPE html><html lang="en"><head><meta charset="utf-8">
<title>Setup Complete — Starkeeper Media</title>
<style>
*{box-sizing:border-box;margin:0;padding:0}
body{font:15px/1.6 system-ui,monospace;background:#0e0e16;color:#ccc;
     display:flex;align-items:center;justify-content:center;min-height:100vh}
.card{background:#161622;border:1px solid #2a2a40;border-radius:12px;
      padding:40px 48px;max-width:520px;width:100%;text-align:center}
.logo{font-size:3em;margin-bottom:8px}
h1{color:#e8c040;font-size:1.4em;margin-bottom:6px}
p{color:#aaa;margin-bottom:12px}
a{color:#66c0f4}
.ok{color:#afa;font-size:1.1em;margin:20px 0}
</style>
</head><body>
<div class="card">
  <div class="logo">⭐</div>
  <h1>Starkeeper Media</h1>
  <p class="ok">✓ Setup complete!</p>
  <p>Your credentials have been saved to <code>.env</code>.<br>
  The scanner is now starting — this may take a moment.</p>
  <p style="margin-top:20px">Once ready, the app will be at<br>
  <a href="https://localhost:8086" target="_blank">https://localhost:8086</a></p>
</div></body></html>"##;

/// The error page up to its style sheet.
pub const ERROR_PAGE_HEAD: &'static str = r##"<!DOCTYPE html><html lang="en"><head><meta charset="utf-8">
<title>Setup — Starkeeper Media</title>"##;

/// The error page between the style sheet and the message.
pub const ERROR_PAGE_BEFORE_MESSAGE: &'static str = r##"</head><body>
<div class="card">
  <div class="logo">⭐</div>
  <h1>Starkeeper Media</h1>
  <p class="step">Setup</p>
  <div class="info" style="border-color:#c05050;background:#2a1818;">
    <strong style="color:#f88">Error:</strong> "##;

/// The error page between the message and the link target.
pub const ERROR_PAGE_BEFORE_HREF: &'static str = r##"
  </div>
  <a class="btn" href=""##;

/// The error page between the link target and the link text.
pub const ERROR_PAGE_BEFORE_LINK_TEXT: &'static str = r##"">"##;

/// The error page after the link text.
pub const ERROR_PAGE_TAIL: &'static str = r##"</a>
</div></body></html>"##;

/// The API-key page up to its style sheet.
pub const APIKEY_PAGE_HEAD: &'static str = r##"<!DOCTYPE html><html lang="en"><head><meta charset="utf-8">
<title>API Key — Starkeeper Media</title>"##;

/// The API-key page between the style sheet and the Steam ID.
pub const APIKEY_PAGE_BEFORE_STEAM_ID: &'static str = r##"</head><body>
<div class="card">
  <div class="logo">⭐</div>
  <h1>Starkeeper Media</h1>
  <p class="step">Step 2 of 2 — Steam API Key</p>
  <div class="info">
    <strong style="color:#afa">✓ Signed in &nbsp;</strong>
    Steam ID: <code>"##;

/// The API-key page after the Steam ID.
pub const APIKEY_PAGE_TAIL: &'static str = r##"</code><br><br>
    Now you need a <strong>Steam Web API key</strong>. Get one free at:<br>
    <a href="https://steamcommunity.com/dev/apikey" target="_blank"
       style="color:#66c0f4">steamcommunity.com/dev/apikey</a><br><br>
    Register any domain (e.g. <code>localhost</code>) and paste the key below.
  </div>
  <form method="POST" action="/auth/apikey">
    <input name="api_key" type="text"
           placeholder="Steam Web API Key (32 hex characters)"
           autocomplete="off" spellcheck="false">
    <button type="submit" class="btn" style="display:block;width:100%;margin-top:10px">
      Save &amp; Start Scanner
    </button>
  </form>
  <p class="privacy">Your API key is written only to a local <code>.env</code> file.
  It is never sent anywhere except Steam's official API endpoint.</p>
</div></body></html>"##;

/// The error page: `msg` after "Error:", and a button labelled
/// `link_text` that leads to `href`.
pub open spec fn error_page_text(msg: Seq<char>, href: Seq<char>, link_text: Seq<char>) -> Seq<char> {
    ERROR_PAGE_HEAD@ + STYLE@ + ERROR_PAGE_BEFORE_MESSAGE@ + msg + ERROR_PAGE_BEFORE_HREF@ + href
        + ERROR_PAGE_BEFORE_LINK_TEXT@ + link_text + ERROR_PAGE_TAIL@
}

/// The second step: the signed-in Steam ID and the form for the API key.
pub open spec fn apikey_page_text(steam_id: Seq<char>) -> Seq<char> {
    APIKEY_PAGE_HEAD@ + STYLE@ + APIKEY_PAGE_BEFORE_STEAM_ID@ + steam_id + APIKEY_PAGE_TAIL@
}

/// Renders the setup error page. The arguments are inserted as they are.
pub fn error_page(msg: &str, href: &str, link_text: &str) -> (page: String)
    ensures
        page@ == error_page_text(msg@, href@, link_text@),
{
    let mut page = String::from_str(ERROR_PAGE_HEAD);
    page.append(STYLE);
    page.append(ERROR_PAGE_BEFORE_MESSAGE);
    page.append(msg);
    page.append(ERROR_PAGE_BEFORE_HREF);
    page.append(href);
    page.append(ERROR_PAGE_BEFORE_LINK_TEXT);
    page.append(link_text);
    page.append(ERROR_PAGE_TAIL);
    page
}

/// Renders the API-key page for a signed-in Steam ID.
pub fn apikey_page(steam_id: &str) -> (page: String)
    ensures
        page@ == apikey_page_text(steam_id@),
{
    let mut page = String::from_str(APIKEY_PAGE_HEAD);
    page.append(STYLE);
    page.append(APIKEY_PAGE_BEFORE_STEAM_ID);
    page.append(steam_id);
    page.append(APIKEY_PAGE_TAIL);
    page
}

} // verus!
