//! The artwork loader: which apps to ask Steam about, and what to write
//! back for each reply. The loop around it queries the database, talks to
//! Steam and performs the writes.

use vstd::prelude::*;
use crate::text::{chars_of, decimal, push_decimal};
use vstd::utf8::valid_utf8;
use crate::vdf::{
    asset_url, buffer_text, buffer_urls_allowed, lemma_buffer_addresses, obj_at, opt_view,
    parse_urls, urls_view, vdf_parse, UrlsOutcome, VdfObj, VdfValue,
};

verus! {

/// How many apps one request asks about.
pub const BATCH_SIZE: i64 = 200;

/// The value of a sequence of ASCII digits.
pub open spec fn digits_value(s: Seq<char>) -> nat
    decreases s.len(),
{
    if s.len() == 0 {
        0
    } else {
        digits_value(s.drop_last()) * 10 + (s.last() as nat - 48) as nat
    }
}

/// Every character is an ASCII digit.
pub open spec fn all_digits(s: Seq<char>) -> bool {
    forall|i: int| 0 <= i < s.len() ==> '0' <= #[trigger] s[i] <= '9'
}

/// `u32::from_str`: an optional `+`, then one or more ASCII digits whose
/// value fits in 32 bits.
pub open spec fn parsed_u32(s: Seq<char>) -> Option<u32> {
    let d = if s.len() > 0 && s[0] == '+' {
        s.drop_first()
    } else {
        s
    };
    if d.len() > 0 && all_digits(d) && digits_value(d) <= u32::MAX {
        Some(digits_value(d) as u32)
    } else {
        None
    }
}

/// Reads an app ID as `str::parse::<u32>` does.
pub fn parse_appid(s: &str) -> (r: Option<u32>)
    ensures
        r == parsed_u32(s@),
{
    let v = chars_of(s);
    let start: usize = if v.len() > 0 && v[0] == '+' {
        1
    } else {
        0
    };
    let ghost d = v@.skip(start as int);
    assert(d =~= (if v@.len() > 0 && v@[0] == '+' {
        v@.drop_first()
    } else {
        v@
    }));
    if start == v.len() {
        return None;
    }
    let cap: u64 = 0x1_0000_0000;
    let mut acc: u64 = 0;
    let mut i = start;
    assert(d.take(0) =~= Seq::<char>::empty());
    while i < v.len()
        invariant
            start <= i <= v@.len(),
            d == v@.skip(start as int),
            v@ == s@,
            d == (if s@.len() > 0 && s@[0] == '+' {
                s@.drop_first()
            } else {
                s@
            }),
            cap == 0x1_0000_0000,
            all_digits(d.take(i - start)),
            acc == if digits_value(d.take(i - start)) < cap {
                digits_value(d.take(i - start))
            } else {
                cap as nat
            },
        decreases v.len() - i,
    {
        let c = v[i];
        if !('0' <= c && c <= '9') {
            assert(d[i - start] == c);
            return None;
        }
        let digit = (c as u32 - 48) as u64;
        let ghost prefix = d.take(i - start);
        let ghost next = d.take(i - start + 1);
        assert(next.drop_last() =~= prefix);
        assert(next.last() == c);
        if acc >= cap {
            acc = cap;
        } else {
            let x = acc * 10 + digit;
            acc = if x < cap {
                x
            } else {
                cap
            };
        }
        assert(all_digits(next)) by {
            assert forall|k: int| 0 <= k < next.len() implies '0' <= #[trigger] next[k] <= '9' by {
                if k < prefix.len() {
                    assert(next[k] == prefix[k]);
                }
            }
        }
        i += 1;
    }
    assert(d.take(i - start) =~= d);
    if acc >= cap {
        None
    } else {
        Some(acc as u32)
    }
}


/// The app IDs among the database rows: those that parse, in row order.
pub open spec fn appids_of(rows: Seq<Seq<char>>) -> Seq<u32> {
    rows.filter_map(|r: Seq<char>| parsed_u32(r))
}

/// The app IDs of the rows that still lack artwork; rows that are not an
/// app ID are skipped.
pub fn pending_appids(rows: &Vec<String>) -> (ids: Vec<u32>)
    ensures
        ids@ == appids_of(rows@.map_values(|r: String| r@)),
{
    let ghost texts = rows@.map_values(|r: String| r@);
    let mut ids: Vec<u32> = Vec::new();
    let mut i: usize = 0;
    assert(texts.take(0) =~= Seq::<Seq<char>>::empty());
    while i < rows.len()
        invariant
            i <= rows@.len(),
            texts == rows@.map_values(|r: String| r@),
            ids@ == appids_of(texts.take(i as int)),
        decreases rows.len() - i,
    {
        let ghost t = texts.take(i + 1);
        assert(t.drop_last() =~= texts.take(i as int));
        assert(t.last() == rows@[i as int]@);
        match parse_appid(rows[i].as_str()) {
            Some(id) => {
                ids.push(id);
            },
            None => {},
        }
        assert(ids@ =~= appids_of(t));
        i += 1;
    }
    assert(texts.take(i as int) =~= texts);
    ids
}

/// One app of a PICS reply: its ID and its app-info buffer.
pub struct AppReply {
    pub appid: u32,
    pub buffer: Vec<u8>,
}

/// An update of one row of the artwork cache.
pub enum LogoWrite {
    /// Only the error and the update time are set.
    Failed { appid: u32, error: String },
    /// The three addresses, the error and the update time are set.
    Resolved {
        appid: u32,
        capsule_url: Option<String>,
        hero_url: Option<String>,
        logo_url: Option<String>,
        error: Option<String>,
    },
}

/// A row update by its values.
pub enum LogoWriteView {
    Failed(u32, Seq<char>),
    Resolved(u32, Option<Seq<char>>, Option<Seq<char>>, Option<Seq<char>>, Option<Seq<char>>),
}

impl View for LogoWrite {
    type V = LogoWriteView;

    open spec fn view(&self) -> LogoWriteView {
        match self {
            LogoWrite::Failed { appid, error } => LogoWriteView::Failed(*appid, error@),
            LogoWrite::Resolved { appid, capsule_url, hero_url, logo_url, error } =>
                LogoWriteView::Resolved(
                *appid,
                opt_view(*capsule_url),
                opt_view(*hero_url),
                opt_view(*logo_url),
                opt_view(*error),
            ),
        }
    }
}

impl LogoWriteView {
    /// The app whose row is updated.
    pub open spec fn appid(self) -> u32 {
        match self {
            LogoWriteView::Failed(id, _) => id,
            LogoWriteView::Resolved(id, _, _, _, _) => id,
        }
    }
}

/// `appid={appid}: ` followed by `rest`.
pub open spec fn about(appid: u32, rest: Seq<char>) -> Seq<char> {
    "appid="@ + decimal(appid as nat) + ": "@ + rest
}

/// The error stored for an app when the whole request failed.
pub open spec fn request_failed_text(appid: u32, err: Seq<char>) -> Seq<char> {
    about(appid, "PICS request failed: "@ + err)
}

/// The error stored for an app that the reply left out.
pub open spec fn missing_text(appid: u32) -> Seq<char> {
    about(appid, "not in PICS response"@)
}

/// The update for an app of the reply, given what reading its buffer gave.
pub open spec fn resolved(appid: u32, outcome: UrlsOutcome) -> LogoWriteView {
    match outcome {
        Ok(urls) => LogoWriteView::Resolved(appid, urls.0, urls.1, urls.2, None),
        Err(m) => LogoWriteView::Resolved(appid, None, None, None, Some(about(appid, m))),
    }
}

/// The line logged before the update of an app of the reply: one for a
/// buffer that could not be read.
pub open spec fn parse_note(appid: u32, outcome: UrlsOutcome) -> Option<Seq<char>> {
    match outcome {
        Ok(_) => None,
        Err(m) => Some("LOGOS: "@ + about(appid, "parse error: "@ + m)),
    }
}

/// One outcome per app of the reply, each one that reading its buffer may
/// give.
pub open spec fn outcomes_allowed(apps: Seq<AppReply>, outcomes: Seq<UrlsOutcome>) -> bool {
    &&& outcomes.len() == apps.len()
    &&& forall|j: int|
        0 <= j < apps.len() ==> buffer_urls_allowed(
            apps[j].appid,
            apps[j].buffer@,
            #[trigger] outcomes[j],
        )
}

/// The IDs that the reply answers.
pub open spec fn replied_ids(apps: Seq<AppReply>) -> Seq<u32> {
    apps.map_values(|a: AppReply| a.appid)
}

/// The IDs of the batch that the reply leaves out, in batch order.
pub open spec fn missing(batch: Seq<u32>, replied: Seq<u32>) -> Seq<u32>
    decreases batch.len(),
{
    if batch.len() == 0 {
        Seq::empty()
    } else if replied.contains(batch.last()) {
        missing(batch.drop_last(), replied)
    } else {
        missing(batch.drop_last(), replied).push(batch.last())
    }
}

/// The updates after a failed request: one per app of the batch.
pub open spec fn failed_writes(batch: Seq<u32>, err: Seq<char>) -> Seq<LogoWriteView> {
    batch.map_values(|id: u32| LogoWriteView::Failed(id, request_failed_text(id, err)))
}

/// The updates after a reply: first the apps it left out, then each app
/// of the reply in reply order, with what reading its buffer gave.
pub open spec fn reply_writes(batch: Seq<u32>, apps: Seq<AppReply>, outcomes: Seq<UrlsOutcome>) -> Seq<LogoWriteView> {
    missing(batch, replied_ids(apps)).map_values(
        |id: u32| LogoWriteView::Failed(id, missing_text(id)),
    ) + Seq::new(apps.len(), |j: int| resolved(apps[j].appid, outcomes[j]))
}

/// The line logged before each update of a reply: one for each app left
/// out and for each buffer that could not be read.
pub open spec fn reply_notes(batch: Seq<u32>, apps: Seq<AppReply>, outcomes: Seq<UrlsOutcome>) -> Seq<Option<Seq<char>>> {
    missing(batch, replied_ids(apps)).map_values(|id: u32| Some("LOGOS: "@ + missing_text(id)))
        + Seq::new(apps.len(), |j: int| parse_note(apps[j].appid, outcomes[j]))
}

/// A string that starts with `appid={appid}: `.
fn about_app(appid: u32) -> (s: String)
    ensures
        s@ == about(appid, Seq::empty()),
{
    let mut s = String::from_str("appid=");
    push_decimal(&mut s, appid as u64);
    s.append(": ");
    assert(s@ =~= about(appid, Seq::empty()));
    s
}

/// The updates by their values.
pub open spec fn writes_view(ws: Seq<LogoWrite>) -> Seq<LogoWriteView> {
    ws.map_values(|w: LogoWrite| w@)
}

/// Optional log lines by their characters.
pub open spec fn notes_view(ns: Seq<Option<String>>) -> Seq<Option<Seq<char>>> {
    ns.map_values(|n: Option<String>| opt_view(n))
}

/// The updates after a failed request, and no log lines.
fn request_failed_writes(batch: &Vec<u32>, err: &str) -> (plan: (Vec<LogoWrite>, Vec<Option<String>>))
    ensures
        writes_view(plan.0@) == failed_writes(batch@, err@),
        notes_view(plan.1@) == Seq::new(batch@.len(), |i: int| None::<Seq<char>>),
{
    let mut ws: Vec<LogoWrite> = Vec::new();
    let mut notes: Vec<Option<String>> = Vec::new();
    let mut i: usize = 0;
    while i < batch.len()
        invariant
            i <= batch@.len(),
            writes_view(ws@) == failed_writes(batch@.take(i as int), err@),
            notes_view(notes@) == Seq::new(i as nat, |k: int| None::<Seq<char>>),
        decreases batch.len() - i,
    {
        let id = batch[i];
        let mut error = about_app(id);
        error.append("PICS request failed: ");
        error.append(err);
        let w = LogoWrite::Failed { appid: id, error };
        assert(w@ == LogoWriteView::Failed(id, request_failed_text(id, err@))) by {
            assert(error@ =~= request_failed_text(id, err@));
        }
        let ghost before = ws@;
        let ghost notes0 = notes@;
        ws.push(w);
        notes.push(None);
        assert(ws@ =~= before.push(w));
        assert(writes_view(ws@) =~= writes_view(before).push(w@));
        assert(batch@.take(i + 1) =~= batch@.take(i as int).push(id));
        assert(writes_view(ws@) =~= failed_writes(batch@.take(i + 1), err@));
        assert(notes@ =~= notes0.push(None));
        assert(notes_view(notes@) =~= notes_view(notes0).push(opt_view(None)));
        assert(notes_view(notes@) =~= Seq::new((i + 1) as nat, |k: int| None::<Seq<char>>));
        i += 1;
    }
    assert(batch@.take(i as int) =~= batch@);
    (ws, notes)
}

/// Whether the reply answers `id`.
fn is_replied(apps: &Vec<AppReply>, id: u32) -> (b: bool)
    ensures
        b == replied_ids(apps@).contains(id),
{
    let mut j: usize = 0;
    while j < apps.len()
        invariant
            j <= apps@.len(),
            forall|k: int| 0 <= k < j ==> apps@[k].appid != id,
        decreases apps.len() - j,
    {
        if apps[j].appid == id {
            assert(replied_ids(apps@)[j as int] == id);
            return true;
        }
        j += 1;
    }
    assert forall|k: int| 0 <= k < replied_ids(apps@).len() implies replied_ids(apps@)[k] != id by {
        assert(replied_ids(apps@)[k] == apps@[k].appid);
    }
    false
}

/// The updates after a reply, each with the line logged before it.
fn reply_plan(batch: &Vec<u32>, apps: &Vec<AppReply>) -> (plan: (Vec<LogoWrite>, Vec<Option<String>>))
    ensures
        exists|outcomes: Seq<UrlsOutcome>|
            #![trigger outcomes_allowed(apps@, outcomes)]
            outcomes_allowed(apps@, outcomes) && writes_view(plan.0@) == reply_writes(
                batch@,
                apps@,
                outcomes,
            ) && notes_view(plan.1@) == reply_notes(batch@, apps@, outcomes),
{
    let ghost replied = replied_ids(apps@);
    let mut ws: Vec<LogoWrite> = Vec::new();
    let mut notes: Vec<Option<String>> = Vec::new();
    let mut i: usize = 0;
    while i < batch.len()
        invariant
            i <= batch@.len(),
            replied == replied_ids(apps@),
            writes_view(ws@) == missing(batch@.take(i as int), replied).map_values(
                |id: u32| LogoWriteView::Failed(id, missing_text(id)),
            ),
            notes_view(notes@) == missing(batch@.take(i as int), replied).map_values(
                |id: u32| Some("LOGOS: "@ + missing_text(id)),
            ),
        decreases batch.len() - i,
    {
        let id = batch[i];
        let ghost t = batch@.take(i + 1);
        assert(t.drop_last() =~= batch@.take(i as int));
        assert(t.last() == id);
        let ghost ws0 = ws@;
        let ghost notes0 = notes@;
        if !is_replied(apps, id) {
            let mut error = about_app(id);
            error.append("not in PICS response");
            let mut note = String::from_str("LOGOS: ");
            note.append(error.as_str());
            assert(error@ =~= missing_text(id));
            assert(note@ =~= "LOGOS: "@ + missing_text(id));
            let w = LogoWrite::Failed { appid: id, error };
            assert(w@ == LogoWriteView::Failed(id, missing_text(id)));
            let n = Some(note);
            assert(opt_view(n) == Some("LOGOS: "@ + missing_text(id)));
            ws.push(w);
            notes.push(n);
            assert(ws@ =~= ws0.push(w));
            assert(writes_view(ws@) =~= writes_view(ws0).push(w@));
            assert(notes@ =~= notes0.push(n));
            assert(notes_view(notes@) =~= notes_view(notes0).push(opt_view(n)));
            assert(missing(t, replied) =~= missing(batch@.take(i as int), replied).push(id));
        } else {
            assert(missing(t, replied) =~= missing(batch@.take(i as int), replied));
        }
        assert(writes_view(ws@) =~= missing(t, replied).map_values(
            |id: u32| LogoWriteView::Failed(id, missing_text(id)),
        ));
        assert(notes_view(notes@) =~= missing(t, replied).map_values(
            |id: u32| Some("LOGOS: "@ + missing_text(id)),
        ));
        i += 1;
    }
    assert(batch@.take(i as int) =~= batch@);
    let ghost head = writes_view(ws@);
    let ghost head_notes = notes_view(notes@);
    let ghost mut outcomes: Seq<UrlsOutcome> = Seq::empty();
    let mut j: usize = 0;
    while j < apps.len()
        invariant
            j <= apps@.len(),
            outcomes.len() == j,
            forall|k: int|
                0 <= k < j ==> buffer_urls_allowed(
                    apps@[k].appid,
                    apps@[k].buffer@,
                    #[trigger] outcomes[k],
                ),
            writes_view(ws@) == head + Seq::new(
                j as nat,
                |k: int| resolved(apps@[k].appid, outcomes[k]),
            ),
            notes_view(notes@) == head_notes + Seq::new(
                j as nat,
                |k: int| parse_note(apps@[k].appid, outcomes[k]),
            ),
        decreases apps.len() - j,
    {
        let app = &apps[j];
        let ghost ws0 = ws@;
        let ghost notes0 = notes@;
        let r = parse_urls(app.appid, app.buffer.as_slice());
        let ghost o = urls_view(r);
        let (w, n) = match r {
            Ok(urls) => {
                let (capsule_url, hero_url, logo_url) = urls;
                (
                    LogoWrite::Resolved { appid: app.appid, capsule_url, hero_url, logo_url, error: None },
                    None,
                )
            },
            Err(m) => {
                let mut error = about_app(app.appid);
                error.append(m.as_str());
                let mut note = String::from_str("LOGOS: ");
                note.append(about_app(app.appid).as_str());
                note.append("parse error: ");
                note.append(m.as_str());
                assert(error@ =~= about(app.appid, m@));
                assert(note@ =~= "LOGOS: "@ + about(app.appid, "parse error: "@ + m@));
                (
                    LogoWrite::Resolved {
                        appid: app.appid,
                        capsule_url: None,
                        hero_url: None,
                        logo_url: None,
                        error: Some(error),
                    },
                    Some(note),
                )
            },
        };
        assert(w@ == resolved(app.appid, o));
        assert(opt_view(n) == parse_note(app.appid, o));
        ws.push(w);
        notes.push(n);
        proof {
            outcomes = outcomes.push(o);
        }
        assert(ws@ =~= ws0.push(w));
        assert(writes_view(ws@) =~= writes_view(ws0).push(w@));
        assert(notes@ =~= notes0.push(n));
        assert(notes_view(notes@) =~= notes_view(notes0).push(opt_view(n)));
        assert(writes_view(ws@) =~= head + Seq::new(
            (j + 1) as nat,
            |k: int| resolved(apps@[k].appid, outcomes[k]),
        ));
        assert(notes_view(notes@) =~= head_notes + Seq::new(
            (j + 1) as nat,
            |k: int| parse_note(apps@[k].appid, outcomes[k]),
        ));
        j += 1;
    }
    assert(outcomes_allowed(apps@, outcomes));
    assert(writes_view(ws@) =~= reply_writes(batch@, apps@, outcomes));
    assert(notes_view(notes@) =~= reply_notes(batch@, apps@, outcomes));
    (ws, notes)
}

/// What the loader is told: the rows still lacking artwork, or Steam's
/// reply to the last request (its error text when it failed).
pub enum LoaderEvent {
    Rows(Vec<String>),
    Reply(Result<Vec<AppReply>, String>),
}

/// What the loader asks for next.
pub enum LoaderAction {
    /// Every app has artwork or an error: stop.
    Finish,
    /// Ask Steam about these apps.
    Fetch(Vec<u32>),
    /// Perform these row updates, logging `notes[i]`, if any, just before
    /// `writes[i]`; when `pause`, wait a moment before the next query.
    Store { writes: Vec<LogoWrite>, notes: Vec<Option<String>>, pause: bool },
}

/// The loader between steps: the apps of the request in flight.
pub struct LogoLoader {
    batch: Vec<u32>,
}

impl View for LogoLoader {
    type V = Seq<u32>;

    closed spec fn view(&self) -> Seq<u32> {
        self.batch@
    }
}

impl LogoLoader {
    /// A loader with no request in flight.
    pub fn new() -> (l: LogoLoader)
        ensures
            l@ == Seq::<u32>::empty(),
    {
        LogoLoader { batch: Vec::new() }
    }

    /// Decides the next action. Rows become the batch to fetch, or the end
    /// when none parses as an app ID. A failed request stores its error for
    /// every app of the batch and queries again at once; a reply stores the
    /// outcome for every app and pauses first.
    pub fn step(&mut self, event: LoaderEvent) -> (action: LoaderAction)
        ensures
            match event {
                LoaderEvent::Rows(rows) => {
                    &&& final(self)@ == appids_of(rows@.map_values(|r: String| r@))
                    &&& match action {
                        LoaderAction::Finish => final(self)@.len() == 0,
                        LoaderAction::Fetch(ids) => ids@ == final(self)@ && ids@.len() > 0,
                        LoaderAction::Store { .. } => false,
                    }
                },
                LoaderEvent::Reply(Err(e)) => {
                    &&& final(self)@ == Seq::<u32>::empty()
                    &&& action matches LoaderAction::Store { writes, notes, pause }
                    &&& writes_view(writes@) == failed_writes(old(self)@, e@)
                    &&& notes_view(notes@) == Seq::new(old(self)@.len(), |i: int| None::<Seq<char>>)
                    &&& !pause
                },
                LoaderEvent::Reply(Ok(apps)) => {
                    &&& final(self)@ == Seq::<u32>::empty()
                    &&& action matches LoaderAction::Store { writes, notes, pause }
                    &&& exists|outcomes: Seq<UrlsOutcome>|
                        #![trigger outcomes_allowed(apps@, outcomes)]
                        outcomes_allowed(apps@, outcomes) && writes_view(writes@) == reply_writes(
                            old(self)@,
                            apps@,
                            outcomes,
                        ) && notes_view(notes@) == reply_notes(old(self)@, apps@, outcomes)
                    &&& pause
                },
            },
    {
        match event {
            LoaderEvent::Rows(rows) => {
                let ids = pending_appids(&rows);
                if ids.len() == 0 {
                    self.batch = ids;
                    LoaderAction::Finish
                } else {
                    self.batch = ids.clone();
                    LoaderAction::Fetch(ids)
                }
            },
            LoaderEvent::Reply(Err(e)) => {
                let (writes, notes) = request_failed_writes(&self.batch, e.as_str());
                self.batch = Vec::new();
                LoaderAction::Store { writes, notes, pause: false }
            },
            LoaderEvent::Reply(Ok(apps)) => {
                let (writes, notes) = reply_plan(&self.batch, &apps);
                self.batch = Vec::new();
                LoaderAction::Store { writes, notes, pause: true }
            },
        }
    }
}

/// An app of the batch that the reply leaves out is among the missing.
proof fn lemma_missing(batch: Seq<u32>, replied: Seq<u32>, id: u32)
    requires
        batch.contains(id),
        !replied.contains(id),
    ensures
        missing(batch, replied).contains(id),
    decreases batch.len(),
{
    let k = choose|k: int| 0 <= k < batch.len() && batch[k] == id;
    if batch.last() == id {
        assert(missing(batch, replied).last() == id);
    } else {
        assert(batch.drop_last()[k] == id);
        lemma_missing(batch.drop_last(), replied, id);
        let m = missing(batch.drop_last(), replied);
        let j = choose|j: int| 0 <= j < m.len() && m[j] == id;
        if !replied.contains(batch.last()) {
            assert(m.push(batch.last())[j] == id);
        }
    }
}

/// Every app of a batch gets a row update, whether the request fails or
/// Steam replies, whatever reading each buffer gives (so no app of the
/// batch is left without artwork or an error and asked about again).
pub proof fn lemma_batch_covered(
    batch: Seq<u32>,
    apps: Seq<AppReply>,
    outcomes: Seq<UrlsOutcome>,
    err: Seq<char>,
    id: u32,
)
    requires
        batch.contains(id),
        outcomes.len() == apps.len(),
    ensures
        exists|k: int|
            0 <= k < failed_writes(batch, err).len() && (#[trigger] failed_writes(
                batch,
                err,
            )[k]).appid() == id,
        exists|k: int|
            0 <= k < reply_writes(batch, apps, outcomes).len() && (#[trigger] reply_writes(
                batch,
                apps,
                outcomes,
            )[k]).appid() == id,
{
    let i = choose|i: int| 0 <= i < batch.len() && batch[i] == id;
    assert(failed_writes(batch, err)[i].appid() == id);
    let replied = replied_ids(apps);
    let m = missing(batch, replied);
    let fm = m.map_values(|x: u32| LogoWriteView::Failed(x, missing_text(x)));
    let rs = Seq::new(apps.len(), |j: int| resolved(apps[j].appid, outcomes[j]));
    assert(reply_writes(batch, apps, outcomes) == fm + rs);
    if replied.contains(id) {
        let j = choose|j: int| 0 <= j < replied.len() && replied[j] == id;
        assert(apps[j].appid == id);
        assert(rs[j].appid() == id);
        assert((fm + rs)[fm.len() + j] == rs[j]);
    } else {
        lemma_missing(batch, replied, id);
        let j = choose|j: int| 0 <= j < m.len() && m[j] == id;
        assert(fm[j].appid() == id);
        assert((fm + rs)[j] == fm[j]);
    }
}

/// The apps left out are apps of the batch that the reply does not answer.
proof fn lemma_missing_members(batch: Seq<u32>, replied: Seq<u32>, k: int)
    requires
        0 <= k < missing(batch, replied).len(),
    ensures
        batch.contains(missing(batch, replied)[k]),
        !replied.contains(missing(batch, replied)[k]),
    decreases batch.len(),
{
    let init = batch.drop_last();
    let m0 = missing(init, replied);
    if k < m0.len() {
        assert(missing(batch, replied)[k] == m0[k]);
        lemma_missing_members(init, replied, k);
        let i = choose|i: int| 0 <= i < init.len() && init[i] == m0[k];
        assert(batch[i] == init[i]);
    } else {
        assert(missing(batch, replied)[k] == batch.last());
        assert(batch[batch.len() - 1] == batch.last());
    }
}

/// After a failed request every app of the batch, in batch order, gets
/// `appid={appid}: PICS request failed: {error}` as its error.
pub proof fn lemma_request_failed_row(batch: Seq<u32>, err: Seq<char>, i: int)
    requires
        0 <= i < batch.len(),
    ensures
        failed_writes(batch, err).len() == batch.len(),
        failed_writes(batch, err)[i] == LogoWriteView::Failed(
            batch[i],
            "appid="@ + decimal(batch[i] as nat) + ": PICS request failed: "@ + err,
        ),
{
    assert("appid="@ + decimal(batch[i] as nat) + ": "@ + ("PICS request failed: "@ + err)
        =~= "appid="@ + decimal(batch[i] as nat) + ": PICS request failed: "@ + err) by {
        reveal_strlit(": ");
        reveal_strlit(": PICS request failed: ");
        reveal_strlit("PICS request failed: ");
    }
}

/// A reply's first row updates go to the apps of the batch that it left
/// out, each an app of the batch that the reply does not answer, with
/// `appid={appid}: not in PICS response` as its error.
pub proof fn lemma_missing_row(
    batch: Seq<u32>,
    apps: Seq<AppReply>,
    outcomes: Seq<UrlsOutcome>,
    k: int,
)
    requires
        outcomes.len() == apps.len(),
        0 <= k < missing(batch, replied_ids(apps)).len(),
    ensures
        batch.contains(missing(batch, replied_ids(apps))[k]),
        forall|j: int|
            0 <= j < apps.len() ==> (#[trigger] apps[j]).appid != missing(
                batch,
                replied_ids(apps),
            )[k],
        reply_writes(batch, apps, outcomes)[k] == LogoWriteView::Failed(
            missing(batch, replied_ids(apps))[k],
            "appid="@ + decimal(missing(batch, replied_ids(apps))[k] as nat)
                + ": not in PICS response"@,
        ),
{
    let m = missing(batch, replied_ids(apps));
    let id = m[k];
    lemma_missing_members(batch, replied_ids(apps), k);
    assert forall|j: int| 0 <= j < apps.len() implies (#[trigger] apps[j]).appid != id by {
        assert(replied_ids(apps)[j] == apps[j].appid);
    }
    let fm = m.map_values(|x: u32| LogoWriteView::Failed(x, missing_text(x)));
    let rs = Seq::new(apps.len(), |j: int| resolved(apps[j].appid, outcomes[j]));
    assert((fm + rs)[k] == fm[k]);
    assert("appid="@ + decimal(id as nat) + ": "@ + "not in PICS response"@ =~= "appid="@
        + decimal(id as nat) + ": not in PICS response"@) by {
        reveal_strlit(": ");
        reveal_strlit(": not in PICS response");
        reveal_strlit("not in PICS response");
    }
}

/// Each app of a reply gets its own row update, placed after those of the
/// apps that the reply left out and in reply order: when reading its buffer
/// gave addresses, the update holds the capsule, hero and logo addresses in
/// the capsule, hero and logo columns and no error; when it gave an error,
/// no addresses and that error after `appid={appid}: `.
pub proof fn lemma_reply_row(
    batch: Seq<u32>,
    apps: Seq<AppReply>,
    outcomes: Seq<UrlsOutcome>,
    j: int,
)
    requires
        outcomes.len() == apps.len(),
        0 <= j < apps.len(),
    ensures
        reply_writes(batch, apps, outcomes)[missing(batch, replied_ids(apps)).len() + j]
            == match outcomes[j] {
            Ok((capsule, hero, logo)) => LogoWriteView::Resolved(
                apps[j].appid,
                capsule,
                hero,
                logo,
                None,
            ),
            Err(m) => LogoWriteView::Resolved(
                apps[j].appid,
                None,
                None,
                None,
                Some("appid="@ + decimal(apps[j].appid as nat) + ": "@ + m),
            ),
        },
{
    let fm = missing(batch, replied_ids(apps)).map_values(
        |id: u32| LogoWriteView::Failed(id, missing_text(id)),
    );
    let rs = Seq::new(apps.len(), |k: int| resolved(apps[k].appid, outcomes[k]));
    assert((fm + rs)[fm.len() + j] == rs[j]);
}

/// The row update of an app whose buffer holds a document with artwork:
/// when reading the buffer gave addresses, the capsule, hero and logo
/// columns hold the capsule, hero and logo artwork of the document's asset
/// object, and the error column is cleared.
pub proof fn lemma_reply_row_artwork(
    batch: Seq<u32>,
    apps: Seq<AppReply>,
    outcomes: Seq<UrlsOutcome>,
    j: int,
    root: VdfObj,
    common: VdfObj,
    assets: VdfObj,
)
    requires
        outcomes_allowed(apps, outcomes),
        0 <= j < apps.len(),
        outcomes[j] is Ok,
        valid_utf8(apps[j].buffer@),
        buffer_text(apps[j].buffer@).len() > 0,
        vdf_parse(buffer_text(apps[j].buffer@)) == Some(VdfValue::Obj(root)),
        obj_at(root, "common"@) == Some(common),
        obj_at(common, "library_assets_full"@) == Some(assets) || (obj_at(
            common,
            "library_assets_full"@,
        ) is None && obj_at(common, "library_assets"@) == Some(assets)),
    ensures
        reply_writes(batch, apps, outcomes)[missing(batch, replied_ids(apps)).len() + j]
            == LogoWriteView::Resolved(
            apps[j].appid,
            asset_url(apps[j].appid, assets, "library_capsule"@),
            asset_url(apps[j].appid, assets, "library_hero"@),
            asset_url(apps[j].appid, assets, "library_logo"@),
            None,
        ),
{
    let id = apps[j].appid;
    assert(buffer_urls_allowed(id, apps[j].buffer@, outcomes[j]));
    if let Ok((capsule, hero, logo)) = outcomes[j] {
        lemma_buffer_addresses(id, apps[j].buffer@, capsule, hero, logo, root, common, assets);
    }
    lemma_reply_row(batch, apps, outcomes, j);
}

/// The system clock's time type, carried from `system_now` to
/// `since_unix_epoch`.
#[verifier::external_type_specification]
#[verifier::external_body]
pub struct ExSystemTime(std::time::SystemTime);

/// The error of a time before the Unix epoch.
#[verifier::external_type_specification]
#[verifier::external_body]
pub struct ExSystemTimeError(std::time::SystemTimeError);

/// `SystemTime::now`: the clock's current time. It depends on the clock,
/// so nothing is stated of it.
#[verifier::external_body]
fn system_now() -> std::time::SystemTime {
    std::time::SystemTime::now()
}

/// `SystemTime::duration_since(UNIX_EPOCH)`: the time elapsed since the
/// epoch, or an error when `t` lies before it. It depends on the clock's
/// reading, so nothing is stated of it.
#[verifier::external_body]
fn since_unix_epoch(t: &std::time::SystemTime) -> Result<
    std::time::Duration,
    std::time::SystemTimeError,
> {
    t.duration_since(std::time::UNIX_EPOCH)
}

/// `Duration::as_secs`: the whole seconds of `d`. A `Duration` is opaque
/// here, so the result is not tied to anything stated.
#[verifier::external_body]
fn whole_seconds(d: &std::time::Duration) -> u64 {
    d.as_secs()
}

/// The timestamp for whole seconds since the epoch (`None` when the clock
/// is before it): the seconds as an `i64`, wrapping as `as` does, or 0.
pub open spec fn unix_seconds_of(elapsed: Option<u64>) -> i64 {
    match elapsed {
        Some(s) => s as i64,
        None => 0,
    }
}

/// The timestamp for whole seconds since the Unix epoch, 0 before it.
pub fn unix_seconds(elapsed: Option<u64>) -> (t: i64)
    ensures
        t == unix_seconds_of(elapsed),
{
    match elapsed {
        Some(s) => s as i64,
        None => 0,
    }
}

/// The current Unix time in seconds, or 0 if the clock is set before the
/// epoch: `unix_seconds` of what the clock reads. Every `i64` is such a
/// value, so nothing more is stated of the result.
pub fn unix_now() -> i64 {
    let elapsed = match since_unix_epoch(&system_now()) {
        Ok(d) => Some(whole_seconds(&d)),
        Err(_) => None,
    };
    unix_seconds(elapsed)
}


/// The text under which the database keys an app: its decimal ID.
pub fn appid_text(appid: u32) -> (s: String)
    ensures
        s@ == decimal(appid as nat),
{
    let mut s = String::new();
    push_decimal(&mut s, appid as u64);
    assert(s@ =~= decimal(appid as nat));
    s
}

/// A decimal rendering is all digits and has the rendered value.
proof fn lemma_decimal_digits(n: nat)
    ensures
        decimal(n).len() > 0,
        all_digits(decimal(n)),
        digits_value(decimal(n)) == n,
    decreases n,
{
    if n >= 10 {
        lemma_decimal_digits(n / 10);
        let d = decimal(n);
        let p = decimal(n / 10);
        assert(d.drop_last() =~= p);
        assert(d.last() as nat == n % 10 + 48);
        assert(digits_value(d) == (n / 10) * 10 + n % 10);
        assert((n / 10) * 10 + n % 10 == n);
        assert forall|i: int| 0 <= i < d.len() implies '0' <= #[trigger] d[i] <= '9' by {
            if i < p.len() {
                assert(d[i] == p[i]);
            }
        }
    } else {
        let d = decimal(n);
        assert(d.drop_last() =~= Seq::<char>::empty());
        assert(d.last() as nat == n + 48);
        assert(digits_value(d.drop_last()) == 0);
    }
}

/// An app ID reads back from its decimal text with or without a leading
/// `+`; a text with any other character than ASCII digits after that
/// optional `+`, or with no digit at all, is no app ID.
pub proof fn lemma_appid_text_forms(appid: u32, s: Seq<char>)
    ensures
        parsed_u32(seq!['+'] + decimal(appid as nat)) == Some(appid),
        parsed_u32(Seq::<char>::empty()) is None,
        parsed_u32(seq!['+']) is None,
        (exists|i: int|
            0 <= i < s.len() && !('0' <= #[trigger] s[i] <= '9') && !(i == 0 && s[i] == '+'))
            ==> parsed_u32(s) is None,
{
    lemma_decimal_digits(appid as nat);
    let d = decimal(appid as nat);
    let t = seq!['+'] + d;
    assert(t.drop_first() =~= d);
    assert('0' <= d[0] <= '9');
    assert(seq!['+'].drop_first() =~= Seq::<char>::empty());
    if exists|i: int|
        0 <= i < s.len() && !('0' <= #[trigger] s[i] <= '9') && !(i == 0 && s[i] == '+') {
        let i = choose|i: int|
            0 <= i < s.len() && !('0' <= #[trigger] s[i] <= '9') && !(i == 0 && s[i] == '+');
        if s.len() > 0 && s[0] == '+' {
            assert(i > 0);
            assert(s.drop_first()[i - 1] == s[i]);
        } else {
            assert(s[i] == s[i]);
        }
    }
}

/// An app ID written as the database key reads back as the same ID, so
/// the rows that the loader updates are the rows it read the IDs from.
pub proof fn lemma_appid_text_reads_back(appid: u32)
    ensures
        parsed_u32(decimal(appid as nat)) == Some(appid),
{
    lemma_decimal_digits(appid as nat);
    let d = decimal(appid as nat);
    assert('0' <= d[0] <= '9');
}

} // verus!
