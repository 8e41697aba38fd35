//! The first-run setup flow: Steam sign-in, then the Web API key. The
//! server around it answers what these steps decide.

use vstd::prelude::*;
use crate::openid::{is_steam_id, last_segment, lookup, param, steam_id_from_claimed, MODE_KEY};
use crate::pages::{apikey_page, apikey_page_text, error_page, error_page_text, DONE_HTML};
use crate::dotenv::{
    env_entries, first_value, lemma_saved_credentials_load_back, plain_value, saved_dotenv,
    STEAM_API_KEY_VAR, STEAM_ID_VAR,
};
use crate::text::{chars_of, lemma_strip_fixed, str_eq, string_of, trim, trim_range};

verus! {

/// The port of the local setup server.
pub const SETUP_PORT: u16 = 7357;

/// The mode of a positive OpenID assertion.
pub const ID_RES: &'static str = "id_res";

/// The parameter that names the signed-in account.
pub const CLAIMED_ID_KEY: &'static str = "openid.claimed_id";

/// The credentials that setup hands to the rest of the application.
pub struct SetupResult {
    pub steam_id: String,
    pub api_key: String,
}

/// A Steam ID read from a sign-in callback: always 17 ASCII digits.
pub struct SteamId {
    digits: String,
}

impl View for SteamId {
    type V = Seq<char>;

    closed spec fn view(&self) -> Seq<char> {
        self.digits@
    }
}

impl SteamId {
    #[verifier::type_invariant]
    spec fn well_formed(self) -> bool {
        is_steam_id(self.digits@)
    }

    /// The digits of the ID.
    pub fn as_str(&self) -> (s: &str)
        ensures
            s@ == self@,
            is_steam_id(s@),
    {
        proof {
            use_type_invariant(self);
        }
        self.digits.as_str()
    }
}

/// Why a sign-in callback is refused.
#[derive(Debug, Clone, Copy, PartialEq, Eq, Structural)]
pub enum CallbackFailure {
    /// The mode is not `id_res`: the user cancelled or Steam failed.
    Cancelled,
    /// No `openid.claimed_id` parameter.
    MissingSteamId,
    /// The claimed ID does not end in a Steam ID.
    MalformedSteamId,
    /// Steam did not confirm the assertion.
    NotVerified,
}

/// The message shown for each refusal.
pub open spec fn failure_message(f: CallbackFailure) -> Seq<char> {
    match f {
        CallbackFailure::Cancelled => "Steam login was cancelled or failed."@,
        CallbackFailure::MissingSteamId => "No Steam ID in response."@,
        CallbackFailure::MalformedSteamId => "Could not parse Steam ID from response."@,
        CallbackFailure::NotVerified => "Steam could not verify the login."@,
    }
}

/// The page for a refused callback, which leads back to the start.
pub open spec fn failure_page_text(f: CallbackFailure) -> Seq<char> {
    error_page_text(failure_message(f), "/"@, "Try again"@)
}

impl CallbackFailure {
    /// The page that answers this refusal.
    pub fn page(&self) -> (page: String)
        ensures
            page@ == failure_page_text(*self),
    {
        let msg = match self {
            CallbackFailure::Cancelled => "Steam login was cancelled or failed.",
            CallbackFailure::MissingSteamId => "No Steam ID in response.",
            CallbackFailure::MalformedSteamId => "Could not parse Steam ID from response.",
            CallbackFailure::NotVerified => "Steam could not verify the login.",
        };
        error_page(msg, "/", "Try again")
    }
}

/// What the callback parameters say before Steam is asked to confirm them:
/// the Steam ID, or why the callback is refused.
pub open spec fn callback_check(params: Seq<(String, String)>) -> Result<Seq<char>, CallbackFailure> {
    let mode = match lookup(params, MODE_KEY@) {
        Some(m) => m,
        None => Seq::empty(),
    };
    if mode != ID_RES@ {
        Err(CallbackFailure::Cancelled)
    } else {
        match lookup(params, CLAIMED_ID_KEY@) {
            None => Err(CallbackFailure::MissingSteamId),
            Some(claimed) => if is_steam_id(last_segment(claimed)) {
                Ok(last_segment(claimed))
            } else {
                Err(CallbackFailure::MalformedSteamId)
            },
        }
    }
}

/// Reads the Steam ID from the parameters of `/auth/callback`: the mode
/// must be `id_res` and the last segment of `openid.claimed_id` a Steam ID.
pub fn check_callback(params: &Vec<(String, String)>) -> (r: Result<SteamId, CallbackFailure>)
    ensures
        match r {
            Ok(id) => callback_check(params@) == Ok::<Seq<char>, CallbackFailure>(id@),
            Err(f) => callback_check(params@) == Err::<Seq<char>, CallbackFailure>(f),
        },
{
    let mode_ok = match param(params, MODE_KEY) {
        Some(m) => str_eq(m.as_str(), ID_RES),
        None => {
            // a missing mode reads as ""
            proof {
                reveal_strlit("");
            }
            assert(""@ =~= Seq::<char>::empty());
            str_eq("", ID_RES)
        },
    };
    if !mode_ok {
        return Err(CallbackFailure::Cancelled);
    }
    match param(params, CLAIMED_ID_KEY) {
        None => Err(CallbackFailure::MissingSteamId),
        Some(claimed) => match steam_id_from_claimed(claimed.as_str()) {
            Some(digits) => Ok(SteamId { digits }),
            None => Err(CallbackFailure::MalformedSteamId),
        },
    }
}

/// What `/auth/apikey` answers: the page, the credentials to save when the
/// key is accepted, and whether they also complete the setup (only the
/// first accepted key does).
pub struct ApiKeyReply {
    pub page: String,
    pub save: Option<SetupResult>,
    pub complete: bool,
}

/// The state of one setup session: the Steam ID of the last confirmed
/// sign-in, and whether the credentials were already handed over.
pub struct SetupFlow {
    pending: Option<SteamId>,
    completed: bool,
}

/// The abstract state of a setup session.
pub struct SetupState {
    pub pending: Option<Seq<char>>,
    pub completed: bool,
}

impl View for SetupFlow {
    type V = SetupState;

    closed spec fn view(&self) -> SetupState {
        SetupState {
            pending: match self.pending {
                Some(id) => Some(id@),
                None => None,
            },
            completed: self.completed,
        }
    }
}

/// The page for an empty API key, which leads back to the form.
pub open spec fn empty_key_page() -> Seq<char> {
    error_page_text("API key cannot be empty."@, "javascript:history.back()"@, "Go back"@)
}

/// The page for a key submitted before any confirmed sign-in.
pub open spec fn expired_page() -> Seq<char> {
    error_page_text("Session expired."@, "/"@, "Start over"@)
}

impl SetupFlow {
    /// A session with no sign-in yet.
    pub fn new() -> (flow: SetupFlow)
        ensures
            flow@.pending is None,
            !flow@.completed,
    {
        SetupFlow { pending: None, completed: false }
    }

    /// Answers the callback once Steam has said whether it confirms the
    /// sign-in of `id`: if it does, `id` becomes the pending Steam ID and
    /// the API-key page is shown; otherwise nothing changes.
    pub fn on_verification(&mut self, id: SteamId, verified: bool) -> (page: String)
        ensures
            verified ==> final(self)@.pending == Some(id@),
            verified ==> page@ == apikey_page_text(id@),
            !verified ==> final(self)@.pending == old(self)@.pending,
            !verified ==> page@ == failure_page_text(CallbackFailure::NotVerified),
            final(self)@.completed == old(self)@.completed,
            old(self)@.pending matches Some(p) ==> is_steam_id(p),
            final(self)@.pending matches Some(p) ==> is_steam_id(p),
    {
        proof {
            use_type_invariant(&id);
            if let Some(p) = &self.pending {
                use_type_invariant(p);
            }
        }
        if !verified {
            let f = CallbackFailure::NotVerified;
            return f.page();
        }
        let page = apikey_page(id.as_str());
        self.pending = Some(id);
        page
    }

    /// Answers a submitted API key. The key is trimmed; an empty key, or a
    /// key before any confirmed sign-in, is refused with a page and no
    /// change. Otherwise the credentials are to be saved, and the first
    /// accepted key completes the setup.
    pub fn on_api_key(&mut self, raw_key: &str) -> (reply: ApiKeyReply)
        ensures
            trim(raw_key@).len() == 0 ==> reply.page@ == empty_key_page() && reply.save is None,
            trim(raw_key@).len() != 0 && old(self)@.pending is None ==> reply.page@
                == expired_page() && reply.save is None,
            trim(raw_key@).len() != 0 && old(self)@.pending is Some ==> {
                &&& reply.page@ == DONE_HTML@
                &&& reply.save matches Some(c)
                &&& c.steam_id@ == old(self)@.pending->0
                &&& c.api_key@ == trim(raw_key@)
            },
            reply.complete <==> reply.save is Some && !old(self)@.completed,
            final(self)@.completed == (old(self)@.completed || reply.complete),
            final(self)@.pending == old(self)@.pending,
            reply.save matches Some(c) ==> is_steam_id(c.steam_id@),
    {
        proof {
            if let Some(p) = &self.pending {
                use_type_invariant(p);
            }
        }
        let chars = chars_of(raw_key);
        let (a, b) = trim_range(chars.as_slice(), 0, chars.len());
        assert(chars@.subrange(0, chars@.len() as int) =~= raw_key@);
        if a == b {
            return ApiKeyReply {
                page: error_page("API key cannot be empty.", "javascript:history.back()", "Go back"),
                save: None,
                complete: false,
            };
        }
        let api_key = string_of(chars.as_slice(), a, b);
        match &self.pending {
            None => ApiKeyReply {
                page: error_page("Session expired.", "/", "Start over"),
                save: None,
                complete: false,
            },
            Some(id) => {
                let steam_id = String::from_str(id.as_str());
                let complete = !self.completed;
                self.completed = true;
                ApiKeyReply {
                    page: String::from_str(DONE_HTML),
                    save: Some(SetupResult { steam_id, api_key }),
                    complete,
                }
            },
        }
    }
}


/// The family of system that the setup server runs on.
#[derive(Debug, Clone, Copy, PartialEq, Eq, Structural)]
pub enum HostOs {
    Windows,
    MacOs,
    Other,
}

/// The command that opens `url` in the default browser, as program and
/// arguments: `cmd /c start` on Windows, `open` on macOS, else `xdg-open`.
pub fn browser_command(os: HostOs, url: &str) -> (cmd: (String, Vec<String>))
    ensures
        os == HostOs::Windows ==> cmd.0@ == "cmd"@ && cmd.1@.len() == 3 && cmd.1@[0]@ == "/c"@
            && cmd.1@[1]@ == "start"@ && cmd.1@[2]@ == url@,
        os == HostOs::MacOs ==> cmd.0@ == "open"@ && cmd.1@.len() == 1 && cmd.1@[0]@ == url@,
        os == HostOs::Other ==> cmd.0@ == "xdg-open"@ && cmd.1@.len() == 1 && cmd.1@[0]@ == url@,
{
    let mut args: Vec<String> = Vec::new();
    match os {
        HostOs::Windows => {
            args.push(String::from_str("/c"));
            args.push(String::from_str("start"));
            args.push(String::from_str(url));
            (String::from_str("cmd"), args)
        },
        HostOs::MacOs => {
            args.push(String::from_str(url));
            (String::from_str("open"), args)
        },
        HostOs::Other => {
            args.push(String::from_str(url));
            (String::from_str("xdg-open"), args)
        },
    }
}


/// The text after a final `/` is the last segment.
proof fn lemma_last_segment_after(prefix: Seq<char>, seg: Seq<char>)
    requires
        forall|i: int| 0 <= i < seg.len() ==> #[trigger] seg[i] != '/',
    ensures
        last_segment(prefix + seq!['/'] + seg) == seg,
    decreases seg.len(),
{
    let s = prefix + seq!['/'] + seg;
    if seg.len() == 0 {
        assert(s.last() == '/');
        assert(s =~= (prefix + seq!['/']));
    } else {
        let init = seg.drop_last();
        assert forall|i: int| 0 <= i < init.len() implies #[trigger] init[i] != '/' by {
            assert(init[i] == seg[i]);
        }
        lemma_last_segment_after(prefix, init);
        assert(s.drop_last() =~= prefix + seq!['/'] + init);
        assert(s.last() == seg.last());
        assert(seg.last() == seg[seg.len() - 1]);
        assert(init.push(seg.last()) =~= seg);
    }
}

/// A callback is accepted exactly when its mode is `id_res` and its
/// `openid.claimed_id` ends, after its last `/`, in 17 ASCII digits, which
/// are then the Steam ID; otherwise it is refused as cancelled (any other
/// mode, or none), as missing the ID, or as malformed, in that order.
pub proof fn lemma_callback_outcomes(
    params: Seq<(String, String)>,
    prefix: Seq<char>,
    seg: Seq<char>,
)
    requires
        forall|i: int| 0 <= i < seg.len() ==> #[trigger] seg[i] != '/',
    ensures
        lookup(params, MODE_KEY@) != Some(ID_RES@) ==> callback_check(params) == Err::<
            Seq<char>,
            CallbackFailure,
        >(CallbackFailure::Cancelled),
        lookup(params, MODE_KEY@) == Some(ID_RES@) && lookup(params, CLAIMED_ID_KEY@) is None
            ==> callback_check(params) == Err::<Seq<char>, CallbackFailure>(
            CallbackFailure::MissingSteamId,
        ),
        lookup(params, MODE_KEY@) == Some(ID_RES@) && lookup(params, CLAIMED_ID_KEY@) == Some(
            prefix + seq!['/'] + seg,
        ) ==> callback_check(params) == if seg.len() == 17 && (forall|i: int|
            0 <= i < seg.len() ==> '0' <= #[trigger] seg[i] <= '9') {
            Ok::<Seq<char>, CallbackFailure>(seg)
        } else {
            Err::<Seq<char>, CallbackFailure>(CallbackFailure::MalformedSteamId)
        },
{
    lemma_last_segment_after(prefix, seg);
    if lookup(params, MODE_KEY@) != Some(ID_RES@) {
        if lookup(params, MODE_KEY@) is None {
            reveal_strlit("id_res");
            assert(ID_RES@.len() > 0);
            assert(Seq::<char>::empty() != ID_RES@);
        }
    }
}

/// A Steam ID is a plain `.env` value.
proof fn lemma_steam_id_plain(id: Seq<char>)
    requires
        is_steam_id(id),
    ensures
        plain_value(id),
{
    assert('0' <= id[0] <= '9');
    assert('0' <= id.last() <= '9');
    lemma_strip_fixed(id, true, ' ');
    lemma_strip_fixed(id, false, '"');
    assert forall|i: int| 0 <= i < id.len() implies id[i] != '\n' by {
        assert('0' <= id[i] <= '9');
    }
}

/// The credentials that setup accepts load back from the file it saves:
/// the Steam ID always, and the API key whenever it has no line break and
/// no `"` at either end (it is trimmed already).
pub proof fn lemma_setup_credentials_load_back(
    existing: Option<Seq<char>>,
    steam_id: Seq<char>,
    api_key: Seq<char>,
)
    requires
        is_steam_id(steam_id),
        plain_value(api_key),
    ensures
        first_value(env_entries(saved_dotenv(existing, steam_id, api_key)), STEAM_ID_VAR@) == Some(
            steam_id,
        ),
        first_value(env_entries(saved_dotenv(existing, steam_id, api_key)), STEAM_API_KEY_VAR@)
            == Some(api_key),
{
    lemma_steam_id_plain(steam_id);
    lemma_saved_credentials_load_back(existing, steam_id, api_key);
}

} // verus!
