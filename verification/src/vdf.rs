//! Steam's app-info documents (VDF key-values) and the artwork addresses
//! read from them.

use vstd::prelude::*;
use vstd::string::StringSliceAdditionalSpecFns;
use vstd::utf8::{decode_utf8, encode_utf8, valid_utf8};
use crate::text::{chars_of, decimal, lemma_strip_fixed, lemma_trim_fixed_ends, push_char,
    push_decimal, str_eq, string_of, strip_char, strip_char_range, strip_end, strip_start, stripped,
    trim, trim_range};

verus! {

/// A VDF value: a string, or an object of keyed values.
pub enum VdfValue {
    Str(String),
    Obj(VdfObj),
}

/// A VDF object: a list of keys, each with its values. Lookups take the
/// first entry with a key, and searches go through the entries in list
/// order.
pub struct VdfObj {
    pub entries: Vec<VdfEntry>,
}

/// One key of an object and its values.
pub struct VdfEntry {
    pub key: String,
    pub values: Vec<VdfValue>,
}

/// The values of the first entry of `entries` with key `key`.
pub open spec fn values_of(entries: Seq<VdfEntry>, key: Seq<char>) -> Option<Seq<VdfValue>>
    decreases entries.len(),
{
    if entries.len() == 0 {
        None
    } else if entries[0].key@ == key {
        Some(entries[0].values@)
    } else {
        values_of(entries.drop_first(), key)
    }
}

/// The first value under `key`, if any.
pub open spec fn first_value_of(obj: VdfObj, key: Seq<char>) -> Option<VdfValue> {
    match values_of(obj.entries@, key) {
        Some(vs) => if vs.len() > 0 {
            Some(vs[0])
        } else {
            None
        },
        None => None,
    }
}

/// The object that is the first value under `key`.
pub open spec fn obj_at(obj: VdfObj, key: Seq<char>) -> Option<VdfObj> {
    match first_value_of(obj, key) {
        Some(VdfValue::Obj(o)) => Some(o),
        _ => None,
    }
}

/// The string that is the first value under `key`.
pub open spec fn str_at(obj: VdfObj, key: Seq<char>) -> Option<Seq<char>> {
    match first_value_of(obj, key) {
        Some(VdfValue::Str(s)) => Some(s@),
        _ => None,
    }
}

/// The values under `key`, from the first entry with that key.
fn entry_values<'a>(obj: &'a VdfObj, key: &str) -> (r: Option<&'a Vec<VdfValue>>)
    ensures
        match r {
            Some(vs) => values_of(obj.entries@, key@) == Some(vs@),
            None => values_of(obj.entries@, key@) is None,
        },
{
    let mut i: usize = 0;
    assert(obj.entries@.skip(0) =~= obj.entries@);
    while i < obj.entries.len()
        invariant
            i <= obj.entries@.len(),
            values_of(obj.entries@, key@) == values_of(obj.entries@.skip(i as int), key@),
        decreases obj.entries.len() - i,
    {
        assert(obj.entries@.skip(i as int).drop_first() =~= obj.entries@.skip(i + 1));
        if str_eq(obj.entries[i].key.as_str(), key) {
            return Some(&obj.entries[i].values);
        }
        i += 1;
    }
    None
}

/// The object that is the first value under `key`, if it is an object.
pub fn vdf_obj<'a>(obj: &'a VdfObj, key: &str) -> (r: Option<&'a VdfObj>)
    ensures
        match r {
            Some(o) => obj_at(*obj, key@) == Some(*o),
            None => obj_at(*obj, key@) is None,
        },
{
    match entry_values(obj, key) {
        Some(vs) => if vs.len() > 0 {
            match &vs[0] {
                VdfValue::Obj(o) => Some(o),
                VdfValue::Str(_) => None,
            }
        } else {
            None
        },
        None => None,
    }
}

/// The string that is the first value under `key`, if it is a string.
pub fn vdf_str(obj: &VdfObj, key: &str) -> (r: Option<String>)
    ensures
        match r {
            Some(s) => str_at(*obj, key@) == Some(s@),
            None => str_at(*obj, key@) is None,
        },
{
    match entry_values(obj, key) {
        Some(vs) => if vs.len() > 0 {
            match &vs[0] {
                VdfValue::Str(s) => Some(s.clone()),
                VdfValue::Obj(_) => None,
            }
        } else {
            None
        },
        None => None,
    }
}

/// The first string among `values`.
pub open spec fn first_str(values: Seq<VdfValue>) -> Option<Seq<char>>
    decreases values.len(),
{
    if values.len() == 0 {
        None
    } else {
        match values[0] {
            VdfValue::Str(s) => Some(s@),
            VdfValue::Obj(_) => first_str(values.drop_first()),
        }
    }
}

/// The first string value of an object, over its keys in order and the
/// values of each key in order.
pub open spec fn first_str_in(entries: Seq<VdfEntry>) -> Option<Seq<char>>
    decreases entries.len(),
{
    if entries.len() == 0 {
        None
    } else {
        match first_str(entries[0].values@) {
            Some(s) => Some(s),
            None => first_str_in(entries.drop_first()),
        }
    }
}

/// The first string among `values`.
fn find_str(values: &Vec<VdfValue>) -> (r: Option<String>)
    ensures
        match r {
            Some(s) => first_str(values@) == Some(s@),
            None => first_str(values@) is None,
        },
{
    let mut i: usize = 0;
    assert(values@.skip(0) =~= values@);
    while i < values.len()
        invariant
            i <= values@.len(),
            first_str(values@) == first_str(values@.skip(i as int)),
        decreases values.len() - i,
    {
        assert(values@.skip(i as int).drop_first() =~= values@.skip(i + 1));
        match &values[i] {
            VdfValue::Str(s) => {
                return Some(s.clone());
            },
            VdfValue::Obj(_) => {},
        }
        i += 1;
    }
    None
}

/// The first string value of an object.
fn find_str_in(obj: &VdfObj) -> (r: Option<String>)
    ensures
        match r {
            Some(s) => first_str_in(obj.entries@) == Some(s@),
            None => first_str_in(obj.entries@) is None,
        },
{
    let mut i: usize = 0;
    assert(obj.entries@.skip(0) =~= obj.entries@);
    while i < obj.entries.len()
        invariant
            i <= obj.entries@.len(),
            first_str_in(obj.entries@) == first_str_in(obj.entries@.skip(i as int)),
        decreases obj.entries.len() - i,
    {
        assert(obj.entries@.skip(i as int).drop_first() =~= obj.entries@.skip(i + 1));
        match find_str(&obj.entries[i].values) {
            Some(s) => {
                return Some(s);
            },
            None => {},
        }
        i += 1;
    }
    None
}


/// Where Steam serves app artwork.
pub const CDN_BASE: &'static str = "https://steamcdn-a.akamaihd.net/steam/apps";

/// The file name of an artwork kind: `image.english` of the kind's
/// object, else the first string anywhere in `image`.
pub open spec fn asset_hash(assets: VdfObj, kind: Seq<char>) -> Option<Seq<char>> {
    match obj_at(assets, kind) {
        None => None,
        Some(node) => match obj_at(node, "image"@) {
            None => None,
            Some(variant) => match str_at(variant, "english"@) {
                Some(h) => Some(h),
                None => first_str_in(variant.entries@),
            },
        },
    }
}

/// The CDN address of an artwork kind of `appid`; none when the file name
/// is missing or shorter than ten bytes.
pub open spec fn asset_url(appid: u32, assets: VdfObj, kind: Seq<char>) -> Option<Seq<char>> {
    match asset_hash(assets, kind) {
        Some(h) => if encode_utf8(h).len() < 10 {
            None
        } else {
            Some(CDN_BASE@ + seq!['/'] + decimal(appid as nat) + seq!['/'] + h)
        },
        None => None,
    }
}

/// An optional string, by its characters.
pub open spec fn opt_view(o: Option<String>) -> Option<Seq<char>> {
    match o {
        Some(s) => Some(s@),
        None => None,
    }
}

/// The CDN address of the artwork `kind` (such as `library_hero`) in an
/// app's asset object, `{CDN_BASE}/{appid}/{file}`.
pub fn pick_asset(appid: u32, assets: &VdfObj, kind: &str) -> (url: Option<String>)
    ensures
        opt_view(url) == asset_url(appid, *assets, kind@),
{
    let node = match vdf_obj(assets, kind) {
        Some(n) => n,
        None => return None,
    };
    let variant = match vdf_obj(node, "image") {
        Some(v) => v,
        None => return None,
    };
    let hash = match vdf_str(variant, "english") {
        Some(h) => h,
        None => match find_str_in(variant) {
            Some(h) => h,
            None => return None,
        },
    };
    if hash.as_str().as_bytes().len() < 10 {
        return None;
    }
    let mut url = String::from_str(CDN_BASE);
    push_char(&mut url, '/');
    push_decimal(&mut url, appid as u64);
    push_char(&mut url, '/');
    url.append(hash.as_str());
    Some(url)
}

/// The asset object of a document: `common.library_assets_full`, else
/// `common.library_assets`.
pub open spec fn assets_of(doc: VdfValue) -> Option<VdfObj> {
    match doc {
        VdfValue::Obj(root) => match obj_at(root, "common"@) {
            Some(common) => match obj_at(common, "library_assets_full"@) {
                Some(a) => Some(a),
                None => obj_at(common, "library_assets"@),
            },
            None => None,
        },
        VdfValue::Str(_) => None,
    }
}

/// The capsule, hero and logo addresses of a document.
pub open spec fn doc_urls(appid: u32, doc: VdfValue) -> (
    Option<Seq<char>>,
    Option<Seq<char>>,
    Option<Seq<char>>,
) {
    match assets_of(doc) {
        Some(a) => (
            asset_url(appid, a, "library_capsule"@),
            asset_url(appid, a, "library_hero"@),
            asset_url(appid, a, "library_logo"@),
        ),
        None => (None, None, None),
    }
}

/// The capsule, hero and logo artwork addresses of `appid` in its parsed
/// app-info document; all none when the document has no asset object.
pub fn asset_urls(appid: u32, doc: &VdfValue) -> (urls: (Option<String>, Option<String>, Option<String>))
    ensures
        (opt_view(urls.0), opt_view(urls.1), opt_view(urls.2)) == doc_urls(appid, *doc),
{
    let root = match doc {
        VdfValue::Obj(o) => o,
        VdfValue::Str(_) => return (None, None, None),
    };
    let common = match vdf_obj(root, "common") {
        Some(c) => c,
        None => return (None, None, None),
    };
    let assets = match vdf_obj(common, "library_assets_full") {
        Some(a) => a,
        None => match vdf_obj(common, "library_assets") {
            Some(a) => a,
            None => return (None, None, None),
        },
    };
    (
        pick_asset(appid, assets, "library_capsule"),
        pick_asset(appid, assets, "library_hero"),
        pick_asset(appid, assets, "library_logo"),
    )
}


/// `keyvalues_parser`'s loosely typed value, carried only inside the
/// parser wrapper below.
#[verifier::external_type_specification]
#[verifier::external_body]
pub struct ExKeyValuesValue<'a>(keyvalues_parser::Value<'a>);

/// What the VDF grammar makes of a text: the value of its top-level pair
/// when `keyvalues_parser` accepts the text, `None` when the grammar
/// rejects it.
pub uninterp spec fn vdf_parse(text: Seq<char>) -> Option<VdfValue>;

/// Rebuilds a `keyvalues_parser::Value` as a `VdfValue`, one for one:
/// strings are copied, and an object's keys are taken in the order of its
/// `BTreeMap` (ascending), each with its values in order. Nothing is
/// stated of it here; `parse_vdf_text`, its one caller, states the result.
#[verifier::external_body]
fn vdf_value_of(v: &keyvalues_parser::Value<'_>) -> VdfValue {
    match v {
        keyvalues_parser::Value::Str(s) => VdfValue::Str(s.to_string()),
        keyvalues_parser::Value::Obj(o) => VdfValue::Obj(
            VdfObj {
                entries: o.iter().map(
                    |(k, vs)| VdfEntry { key: k.to_string(), values: vs.iter().map(vdf_value_of).collect() },
                ).collect(),
            },
        ),
    }
}

/// How `keyvalues_parser` renders every parse error: its only parse error
/// variant displays as this prefix followed by pest's message.
pub const VDF_ERROR_PREFIX: &'static str = "Failed parsing input Error: ";

/// `s` begins with `p`.
pub open spec fn starts_with(s: Seq<char>, p: Seq<char>) -> bool {
    p.len() <= s.len() && s.take(p.len() as int) == p
}

/// An error that the VDF parser reported.
pub open spec fn parser_error(r: UrlsOutcome) -> bool {
    r matches Err(m) && starts_with(m, VDF_ERROR_PREFIX@)
}

/// Parses VDF text with `keyvalues_parser::parse` (default settings, `\`
/// escapes on) and keeps the value of the top-level pair, as
/// `Vdf::parse` does. A document that it returns is `vdf_parse` of the
/// text, a text that the grammar rejects gives an error, and every error
/// is the parser's, whose text starts with `VDF_ERROR_PREFIX`. Left unsaid:
/// the parser can also fail on a text that the grammar accepts (pest stops
/// when the native stack runs low, or at a process-wide call limit), and
/// its error text depends on a process-wide setting, so the error is not
/// tied to the text.
#[verifier::external_body]
fn parse_vdf_text(text: &str) -> (r: Result<VdfValue, String>)
    ensures
        r matches Ok(v) ==> vdf_parse(text@) == Some(v),
        vdf_parse(text@) is None ==> r is Err,
        r matches Err(m) ==> starts_with(m@, VDF_ERROR_PREFIX@),
{
    match keyvalues_parser::parse(text) {
        Ok(vdf) => Ok(vdf_value_of(&vdf.value)),
        Err(e) => Err(e.to_string()),
    }
}

/// The `Display` text of the `Utf8Error` that `std::str::from_utf8`
/// reports for invalid bytes.
pub uninterp spec fn utf8_error_text(bytes: Seq<u8>) -> Seq<char>;

/// `std::str::from_utf8`: documented to succeed exactly on valid UTF-8,
/// giving the decoded text; its error is kept as its `Display` text.
#[verifier::external_body]
fn str_from_utf8(bytes: &[u8]) -> (r: Result<&str, String>)
    ensures
        match r {
            Ok(s) => valid_utf8(bytes@) && s@ == decode_utf8(bytes@),
            Err(m) => !valid_utf8(bytes@) && m@ == utf8_error_text(bytes@),
        },
{
    std::str::from_utf8(bytes).map_err(|e| e.to_string())
}

/// The text that is parsed: trimmed of whitespace, then of NUL characters.
pub open spec fn doc_text(text: Seq<char>) -> Seq<char> {
    strip_char(trim(text), '\0')
}

/// What reading an app's buffer gave: its three artwork addresses, or an
/// error text.
pub type UrlsOutcome = Result<(Option<Seq<char>>, Option<Seq<char>>, Option<Seq<char>>), Seq<char>>;

/// The text of an app-info buffer that is parsed.
pub open spec fn buffer_text(buffer: Seq<u8>) -> Seq<char> {
    doc_text(decode_utf8(buffer))
}

/// The artwork addresses of an app, or an error text, by their characters.
pub open spec fn urls_view(
    r: Result<(Option<String>, Option<String>, Option<String>), String>,
) -> UrlsOutcome {
    match r {
        Ok(urls) => Ok((opt_view(urls.0), opt_view(urls.1), opt_view(urls.2))),
        Err(m) => Err(m@),
    }
}

/// What reading an app-info buffer may give: the UTF-8 error for invalid
/// bytes; no artwork for an empty text; for a text that the grammar
/// accepts, the addresses in its document, unless the parser fails with
/// its own error; the parser's error for a text that the grammar rejects.
pub open spec fn buffer_urls_allowed(
    appid: u32,
    buffer: Seq<u8>,
    r: UrlsOutcome,
) -> bool {
    if !valid_utf8(buffer) {
        r == UrlsOutcome::Err(utf8_error_text(buffer))
    } else if buffer_text(buffer).len() == 0 {
        r == UrlsOutcome::Ok((None, None, None))
    } else {
        match vdf_parse(buffer_text(buffer)) {
            Some(doc) => parser_error(r) || r == UrlsOutcome::Ok(doc_urls(appid, doc)),
            None => parser_error(r),
        }
    }
}

/// Reads the capsule, hero and logo addresses of `appid` from its PICS
/// app-info buffer: UTF-8 text, trimmed of whitespace and NULs, parsed as
/// VDF. An empty text has no artwork; invalid UTF-8 is an error with its
/// message, and so is text that the grammar rejects or the parser fails on.
pub fn parse_urls(appid: u32, buffer: &[u8]) -> (r: Result<
    (Option<String>, Option<String>, Option<String>),
    String,
>)
    ensures
        buffer_urls_allowed(appid, buffer@, urls_view(r)),
{
    let text = match str_from_utf8(buffer) {
        Ok(t) => t,
        Err(m) => return Err(m),
    };
    let chars = chars_of(text);
    let (a, b) = trim_range(chars.as_slice(), 0, chars.len());
    let (c, d) = strip_char_range(chars.as_slice(), a, b, '\0');
    assert(chars@.subrange(0, chars@.len() as int) =~= chars@);
    if c == d {
        return Ok((None, None, None));
    }
    let doc_src = string_of(chars.as_slice(), c, d);
    match parse_vdf_text(doc_src.as_str()) {
        Ok(doc) => Ok(asset_urls(appid, &doc)),
        Err(m) => Err(m),
    }
}



/// A lookup finds the first entry with the key and gives its first value
/// (nothing when that entry has no value), and finds nothing when no entry
/// has the key.
pub proof fn lemma_lookup_entry(entries: Seq<VdfEntry>, key: Seq<char>, j: int)
    ensures
        0 <= j < entries.len() && entries[j].key@ == key && (forall|j2: int|
            0 <= j2 < j ==> (#[trigger] entries[j2]).key@ != key) ==> values_of(entries, key)
            == Some(entries[j].values@),
        (forall|j2: int| 0 <= j2 < entries.len() ==> (#[trigger] entries[j2]).key@ != key)
            ==> values_of(entries, key) is None,
    decreases entries.len(),
{
    if entries.len() > 0 {
        let rest = entries.drop_first();
        lemma_lookup_entry(rest, key, j - 1);
        if 0 <= j < entries.len() && entries[j].key@ == key && (forall|j2: int|
            0 <= j2 < j ==> (#[trigger] entries[j2]).key@ != key) && j > 0 {
            assert(entries[0].key@ != key);
            assert forall|j2: int| 0 <= j2 < j - 1 implies (#[trigger] rest[j2]).key@ != key by {
                assert(rest[j2] == entries[j2 + 1]);
            }
            assert(rest[j - 1] == entries[j]);
        }
        if forall|j2: int| 0 <= j2 < entries.len() ==> (#[trigger] entries[j2]).key@ != key {
            assert(entries[0].key@ != key);
            assert forall|j2: int| 0 <= j2 < rest.len() implies (#[trigger] rest[j2]).key@ != key by {
                assert(rest[j2] == entries[j2 + 1]);
            }
        }
    }
}

/// The address `{CDN_BASE}/{appid}/{file}` of an artwork file, none when
/// the file name is shorter than ten bytes.
pub open spec fn cdn_url(appid: u32, file: Seq<char>) -> Option<Seq<char>> {
    if encode_utf8(file).len() < 10 {
        None
    } else {
        Some(CDN_BASE@ + seq!['/'] + decimal(appid as nat) + seq!['/'] + file)
    }
}

/// When the `image` object of an artwork kind holds a string under
/// `english`, that file is the artwork, whatever languages come before it
/// in the object.
pub proof fn lemma_english_file_wins(
    appid: u32,
    assets: VdfObj,
    kind: Seq<char>,
    node: VdfObj,
    image: VdfObj,
    file: Seq<char>,
)
    requires
        obj_at(assets, kind) == Some(node),
        obj_at(node, "image"@) == Some(image),
        str_at(image, "english"@) == Some(file),
    ensures
        asset_url(appid, assets, kind) == cdn_url(appid, file),
{
}

/// The value at position `k` under key number `i` of an object comes
/// before the value at position `k2` under key number `i2`.
pub open spec fn before(i: int, k: int, i2: int, k2: int) -> bool {
    i < i2 || (i == i2 && k < k2)
}

/// A string found after only objects is the first string of the values.
proof fn lemma_first_str_at(values: Seq<VdfValue>, k: int, f: String)
    requires
        0 <= k < values.len(),
        values[k] == VdfValue::Str(f),
        forall|k2: int| 0 <= k2 < k ==> (#[trigger] values[k2]) is Obj,
    ensures
        first_str(values) == Some(f@),
    decreases k,
{
    if k > 0 {
        assert(values[0] is Obj);
        let rest = values.drop_first();
        assert forall|k2: int| 0 <= k2 < k - 1 implies (#[trigger] rest[k2]) is Obj by {
            assert(rest[k2] == values[k2 + 1]);
        }
        lemma_first_str_at(rest, k - 1, f);
    }
}

/// Values that are all objects hold no first string.
proof fn lemma_first_str_none(values: Seq<VdfValue>)
    requires
        forall|k: int| 0 <= k < values.len() ==> (#[trigger] values[k]) is Obj,
    ensures
        first_str(values) is None,
    decreases values.len(),
{
    if values.len() > 0 {
        assert(values[0] is Obj);
        let rest = values.drop_first();
        assert forall|k: int| 0 <= k < rest.len() implies (#[trigger] rest[k]) is Obj by {
            assert(rest[k] == values[k + 1]);
        }
        lemma_first_str_none(rest);
    }
}

/// A string found after only objects, over the keys in order and the values
/// of each key in order, is the first string of the entries.
proof fn lemma_first_str_in_at(entries: Seq<VdfEntry>, i: int, k: int, f: String)
    requires
        0 <= i < entries.len(),
        0 <= k < entries[i].values@.len(),
        entries[i].values@[k] == VdfValue::Str(f),
        forall|i2: int, k2: int|
            0 <= i2 < entries.len() && 0 <= k2 < entries[i2].values@.len() && before(i2, k2, i, k)
                ==> (#[trigger] entries[i2].values@[k2]) is Obj,
    ensures
        first_str_in(entries) == Some(f@),
    decreases i,
{
    if i == 0 {
        assert forall|k2: int| 0 <= k2 < k implies (#[trigger] entries[0].values@[k2]) is Obj by {
            assert(before(0, k2, i, k));
        }
        lemma_first_str_at(entries[0].values@, k, f);
    } else {
        assert forall|k2: int| 0 <= k2 < entries[0].values@.len() implies (
        #[trigger] entries[0].values@[k2]) is Obj by {
            assert(before(0, k2, i, k));
        }
        lemma_first_str_none(entries[0].values@);
        let rest = entries.drop_first();
        assert forall|i2: int, k2: int|
            0 <= i2 < rest.len() && 0 <= k2 < rest[i2].values@.len() && before(
                i2,
                k2,
                i - 1,
                k,
            ) implies (#[trigger] rest[i2].values@[k2]) is Obj by {
            assert(rest[i2] == entries[i2 + 1]);
            assert(before(i2 + 1, k2, i, k));
        }
        lemma_first_str_in_at(rest, i - 1, k, f);
    }
}

/// Entries whose values are all objects hold no first string.
proof fn lemma_first_str_in_none(entries: Seq<VdfEntry>)
    requires
        forall|i: int, k: int|
            0 <= i < entries.len() && 0 <= k < entries[i].values@.len() ==> (
            #[trigger] entries[i].values@[k]) is Obj,
    ensures
        first_str_in(entries) is None,
    decreases entries.len(),
{
    if entries.len() > 0 {
        assert forall|k: int| 0 <= k < entries[0].values@.len() implies (
        #[trigger] entries[0].values@[k]) is Obj by {}
        lemma_first_str_none(entries[0].values@);
        let rest = entries.drop_first();
        assert forall|i: int, k: int|
            0 <= i < rest.len() && 0 <= k < rest[i].values@.len() implies (
            #[trigger] rest[i].values@[k]) is Obj by {
            assert(rest[i] == entries[i + 1]);
        }
        lemma_first_str_in_none(rest);
    }
}

/// Without an English file, the artwork is the first string value of the
/// `image` object, taking its keys in order and the values of each key in
/// order, whatever its key.
pub proof fn lemma_fallback_file(
    appid: u32,
    assets: VdfObj,
    kind: Seq<char>,
    node: VdfObj,
    image: VdfObj,
    i: int,
    k: int,
    file: String,
)
    requires
        obj_at(assets, kind) == Some(node),
        obj_at(node, "image"@) == Some(image),
        str_at(image, "english"@) is None,
        0 <= i < image.entries@.len(),
        0 <= k < image.entries@[i].values@.len(),
        image.entries@[i].values@[k] == VdfValue::Str(file),
        forall|i2: int, k2: int|
            0 <= i2 < image.entries@.len() && 0 <= k2 < image.entries@[i2].values@.len() && before(
                i2,
                k2,
                i,
                k,
            ) ==> (#[trigger] image.entries@[i2].values@[k2]) is Obj,
    ensures
        asset_url(appid, assets, kind) == cdn_url(appid, file@),
{
    lemma_first_str_in_at(image.entries@, i, k, file);
}

/// The values found under a key are those of one of the entries.
proof fn lemma_values_of_entry(entries: Seq<VdfEntry>, key: Seq<char>)
    ensures
        values_of(entries, key) matches Some(vs) ==> exists|j: int|
            0 <= j < entries.len() && (#[trigger] entries[j]).values@ == vs,
    decreases entries.len(),
{
    if entries.len() > 0 && entries[0].key@ != key {
        let rest = entries.drop_first();
        lemma_values_of_entry(rest, key);
        if let Some(vs) = values_of(entries, key) {
            let j = choose|j: int| 0 <= j < rest.len() && (#[trigger] rest[j]).values@ == vs;
            assert(entries[j + 1] == rest[j]);
        }
    } else if entries.len() > 0 {
        assert(entries[0].values@ == entries[0].values@);
    }
}

/// An object whose values are all objects has no string under any key.
proof fn lemma_english_not_obj_only(image: VdfObj)
    requires
        forall|i: int, k: int|
            0 <= i < image.entries@.len() && 0 <= k < image.entries@[i].values@.len() ==> (
            #[trigger] image.entries@[i].values@[k]) is Obj,
    ensures
        str_at(image, "english"@) is None,
{
    lemma_values_of_entry(image.entries@, "english"@);
    if let Some(vs) = values_of(image.entries@, "english"@) {
        let j = choose|j: int|
            0 <= j < image.entries@.len() && (#[trigger] image.entries@[j]).values@ == vs;
        if vs.len() > 0 {
            assert(image.entries@[j].values@[0] is Obj);
        }
    }
}

/// An artwork kind has no address when it has no `image` object, or when
/// that object holds no string at all.
pub proof fn lemma_no_file(appid: u32, assets: VdfObj, kind: Seq<char>, node: VdfObj)
    requires
        obj_at(assets, kind) == Some(node),
    ensures
        obj_at(node, "image"@) is None ==> asset_url(appid, assets, kind) is None,
        obj_at(node, "image"@) matches Some(image) && (forall|i: int, k: int|
            0 <= i < image.entries@.len() && 0 <= k < image.entries@[i].values@.len() ==> (
            #[trigger] image.entries@[i].values@[k]) is Obj) ==> asset_url(appid, assets, kind)
            is None,
{
    if let Some(image) = obj_at(node, "image"@) {
        if forall|i: int, k: int|
            0 <= i < image.entries@.len() && 0 <= k < image.entries@[i].values@.len() ==> (
            #[trigger] image.entries@[i].values@[k]) is Obj {
            lemma_first_str_in_none(image.entries@);
            assert(str_at(image, "english"@) is None) by {
                lemma_english_not_obj_only(image);
            }
        }
    }
}


/// Reading a buffer fails only on invalid UTF-8, with the UTF-8 error's
/// text, or on a non-empty text with an error of the VDF parser: nothing
/// else about a buffer, its size included, makes it fail.
pub proof fn lemma_buffer_errors(appid: u32, buffer: Seq<u8>, m: Seq<char>)
    requires
        buffer_urls_allowed(appid, buffer, UrlsOutcome::Err(m)),
    ensures
        !valid_utf8(buffer) ==> m == utf8_error_text(buffer),
        valid_utf8(buffer) ==> buffer_text(buffer).len() > 0 && starts_with(m, VDF_ERROR_PREFIX@),
{
}

/// The addresses read from a buffer whose text the grammar accepts are
/// those of its document: the capsule, hero and logo artwork of
/// `common.library_assets_full`, or of `common.library_assets` when the
/// former is missing, each in its own place.
pub proof fn lemma_buffer_addresses(
    appid: u32,
    buffer: Seq<u8>,
    capsule: Option<Seq<char>>,
    hero: Option<Seq<char>>,
    logo: Option<Seq<char>>,
    root: VdfObj,
    common: VdfObj,
    assets: VdfObj,
)
    requires
        buffer_urls_allowed(appid, buffer, UrlsOutcome::Ok((capsule, hero, logo))),
        valid_utf8(buffer),
        buffer_text(buffer).len() > 0,
        vdf_parse(buffer_text(buffer)) == Some(VdfValue::Obj(root)),
        obj_at(root, "common"@) == Some(common),
        obj_at(common, "library_assets_full"@) == Some(assets) || (obj_at(
            common,
            "library_assets_full"@,
        ) is None && obj_at(common, "library_assets"@) == Some(assets)),
    ensures
        capsule == asset_url(appid, assets, "library_capsule"@),
        hero == asset_url(appid, assets, "library_hero"@),
        logo == asset_url(appid, assets, "library_logo"@),
{
}

/// A buffer whose document has no asset object, or whose text is empty,
/// gives no artwork when it gives addresses.
pub proof fn lemma_buffer_no_assets(
    appid: u32,
    buffer: Seq<u8>,
    urls: (Option<Seq<char>>, Option<Seq<char>>, Option<Seq<char>>),
)
    requires
        buffer_urls_allowed(appid, buffer, UrlsOutcome::Ok(urls)),
        buffer_text(buffer).len() == 0 || (vdf_parse(buffer_text(buffer)) matches Some(doc)
            && assets_of(doc) is None),
    ensures
        urls == (None::<Seq<char>>, None::<Seq<char>>, None::<Seq<char>>),
{
}

/// Stripping the end of `s` followed by a stripped character.
proof fn lemma_strip_end_push(s: Seq<char>, ws: bool, c: char, x: char)
    requires
        stripped(ws, c, x),
    ensures
        strip_end(s.push(x), ws, c) == strip_end(s, ws, c),
{
    assert(s.push(x).drop_last() =~= s);
}

/// A NUL terminator after a document never changes what reading its
/// buffer may give, for a text with no whitespace and no NUL at either end.
pub proof fn lemma_trailing_nul_ignored(appid: u32, t: Seq<char>, r: UrlsOutcome)
    requires
        trim(t) == t,
        t.len() > 0 ==> t[0] != '\0' && t.last() != '\0',
    ensures
        buffer_urls_allowed(appid, encode_utf8(t.push('\0')), r) == buffer_urls_allowed(
            appid,
            encode_utf8(t),
            r,
        ),
{
    broadcast use vstd::utf8::encode_utf8_valid_utf8, vstd::utf8::encode_utf8_decode_utf8;

    let u = t.push('\0');
    assert(u.last() == '\0');
    if t.len() > 0 {
        lemma_trim_fixed_ends(t);
        assert(u[0] == t[0]);
    }
    lemma_strip_fixed(t, false, '\0');
    lemma_strip_fixed(u, true, ' ');
    if t.len() > 0 {
        assert(strip_start(u, false, '\0') == u);
    } else {
        assert(u.drop_first() =~= Seq::<char>::empty());
        assert(strip_start(Seq::<char>::empty(), false, '\0') =~= Seq::<char>::empty());
        assert(strip_start(u, false, '\0') =~= t);
    }
    lemma_strip_end_push(t, false, '\0', '\0');
    assert(doc_text(u) == doc_text(t));
}

} // verus!
