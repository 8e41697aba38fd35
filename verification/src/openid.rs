//! The Steam OpenID 2.0 exchange: percent-encoding, the sign-in redirect,
//! reading the callback parameters and the `check_authentication` request
//! and reply.

use vstd::prelude::*;
use vstd::string::StringSliceAdditionalSpecFns;
use vstd::utf8::encode_utf8;
use crate::text::{
    chars_of, contains_seq, contains_str, decimal, occurs_at, push_char, push_decimal, str_eq,
    string_of,
};

verus! {

/// Bytes that `pct_encode` leaves as they are: `A-Z a-z 0-9 - _ . ~`.
pub open spec fn unreserved(b: u8) -> bool {
    ||| 65 <= b <= 90
    ||| 97 <= b <= 122
    ||| 48 <= b <= 57
    ||| b == 45
    ||| b == 95
    ||| b == 46
    ||| b == 126
}

/// The upper-case hexadecimal digit for a value below sixteen.
pub open spec fn hex_upper(n: nat) -> char {
    if n < 10 {
        (n + 48) as char
    } else {
        (n + 55) as char
    }
}

/// The encoding of one byte: itself when unreserved, else `%XX`.
pub open spec fn pct_byte(b: u8) -> Seq<char> {
    if unreserved(b) {
        seq![b as char]
    } else {
        seq!['%', hex_upper(b as nat / 16), hex_upper(b as nat % 16)]
    }
}

/// The percent-encoding of a byte sequence, byte by byte.
pub open spec fn pct_encoded(bytes: Seq<u8>) -> Seq<char>
    decreases bytes.len(),
{
    if bytes.len() == 0 {
        Seq::empty()
    } else {
        pct_encoded(bytes.drop_last()) + pct_byte(bytes.last())
    }
}

fn hex_digit(n: u8) -> (c: char)
    requires
        n < 16,
    ensures
        c == hex_upper(n as nat),
{
    if n < 10 {
        (n + 48) as char
    } else {
        (n + 55) as char
    }
}

/// Percent-encodes the UTF-8 bytes of `s` for a form body: unreserved
/// bytes stay, every other byte becomes `%` and two upper-case hex digits.
pub fn pct_encode(s: &str) -> (out: String)
    ensures
        out@ == pct_encoded(s.spec_bytes()),
{
    let bytes = s.as_bytes();
    let mut out = String::new();
    let mut i: usize = 0;
    assert(bytes@.take(0) =~= Seq::<u8>::empty());
    while i < bytes.len()
        invariant
            i <= bytes@.len(),
            bytes@ == s.spec_bytes(),
            out@ == pct_encoded(bytes@.take(i as int)),
        decreases bytes.len() - i,
    {
        let b = bytes[i];
        if (65 <= b && b <= 90) || (97 <= b && b <= 122) || (48 <= b && b <= 57) || b == 45 || b
            == 95 || b == 46 || b == 126 {
            push_char(&mut out, b as char);
        } else {
            push_char(&mut out, '%');
            push_char(&mut out, hex_digit(b / 16));
            push_char(&mut out, hex_digit(b % 16));
        }
        assert(bytes@.take(i + 1).drop_last() =~= bytes@.take(i as int));
        assert(out@ =~= pct_encoded(bytes@.take(i + 1)));
        i += 1;
    }
    assert(bytes@.take(i as int) =~= bytes@);
    out
}


/// The sign-in redirect up to the port of its `return_to` address.
pub const LOGIN_URL_HEAD: &'static str = "https://steamcommunity.com/openid/login?openid.ns=http%3A%2F%2Fspecs.openid.net%2Fauth%2F2.0&openid.mode=checkid_setup&openid.return_to=http%3A%2F%2Flocalhost%3A";

/// The sign-in redirect between the two ports.
pub const LOGIN_URL_MID: &'static str = "%2Fauth%2Fcallback&openid.realm=http%3A%2F%2Flocalhost%3A";

/// The sign-in redirect after the port of its realm.
pub const LOGIN_URL_TAIL: &'static str = "%2F&openid.identity=http%3A%2F%2Fspecs.openid.net%2Fauth%2F2.0%2Fidentifier_select&openid.claimed_id=http%3A%2F%2Fspecs.openid.net%2Fauth%2F2.0%2Fidentifier_select";

/// The Steam sign-in address for a setup server on `localhost:port`.
pub open spec fn login_url(port: u16) -> Seq<char> {
    LOGIN_URL_HEAD@ + decimal(port as nat) + LOGIN_URL_MID@ + decimal(port as nat)
        + LOGIN_URL_TAIL@
}

/// The OpenID `checkid_setup` redirect to Steam, returning to
/// `http://localhost:{port}/auth/callback` with realm `http://localhost:{port}/`.
pub fn steam_login_url(port: u16) -> (url: String)
    ensures
        url@ == login_url(port),
{
    let mut url = String::from_str(LOGIN_URL_HEAD);
    push_decimal(&mut url, port as u64);
    url.append(LOGIN_URL_MID);
    push_decimal(&mut url, port as u64);
    url.append(LOGIN_URL_TAIL);
    url
}

/// The value of the first parameter named `key`.
pub open spec fn lookup(params: Seq<(String, String)>, key: Seq<char>) -> Option<Seq<char>>
    decreases params.len(),
{
    if params.len() == 0 {
        None
    } else if params[0].0@ == key {
        Some(params[0].1@)
    } else {
        lookup(params.drop_first(), key)
    }
}

/// The value of the first parameter named `key`, if any.
pub fn param<'a>(params: &'a Vec<(String, String)>, key: &str) -> (r: Option<&'a String>)
    ensures
        match r {
            Some(v) => lookup(params@, key@) == Some(v@),
            None => lookup(params@, key@) is None,
        },
{
    let mut i: usize = 0;
    assert(params@.skip(0) =~= params@);
    while i < params.len()
        invariant
            i <= params@.len(),
            lookup(params@, key@) == lookup(params@.skip(i as int), key@),
        decreases params.len() - i,
    {
        assert(params@.skip(i as int).drop_first() =~= params@.skip(i + 1));
        if str_eq(params[i].0.as_str(), key) {
            return Some(&params[i].1);
        }
        i += 1;
    }
    None
}

/// The text after the last `/` of `s`, or all of `s` when it has none
/// (the first item of `rsplit('/')`).
pub open spec fn last_segment(s: Seq<char>) -> Seq<char>
    decreases s.len(),
{
    if s.len() == 0 {
        s
    } else if s.last() == '/' {
        Seq::empty()
    } else {
        last_segment(s.drop_last()).push(s.last())
    }
}

/// A 64-bit Steam ID as Steam writes it: exactly 17 ASCII digits.
pub open spec fn is_steam_id(id: Seq<char>) -> bool {
    id.len() == 17 && forall|i: int| 0 <= i < id.len() ==> '0' <= #[trigger] id[i] <= '9'
}

/// The Steam ID at the end of an OpenID `claimed_id` such as
/// `https://steamcommunity.com/openid/id/76561197960287930`, when the last
/// path segment is exactly 17 ASCII digits.
pub fn steam_id_from_claimed(claimed: &str) -> (r: Option<String>)
    ensures
        match r {
            Some(id) => id@ == last_segment(claimed@) && is_steam_id(id@),
            None => !is_steam_id(last_segment(claimed@)),
        },
{
    let v = chars_of(claimed);
    let mut k = v.len();
    assert(v@.subrange(k as int, k as int) =~= Seq::<char>::empty());
    assert(v@.take(k as int) =~= v@);
    while k > 0 && v[k - 1] != '/'
        invariant
            k <= v@.len(),
            v@ == claimed@,
            last_segment(v@) == last_segment(v@.take(k as int)) + v@.subrange(
                k as int,
                v@.len() as int,
            ),
        decreases k,
    {
        assert(v@.take(k as int).drop_last() =~= v@.take(k - 1));
        assert(v@.subrange(k - 1, v@.len() as int) =~= seq![v@[k - 1]] + v@.subrange(
            k as int,
            v@.len() as int,
        ));
        k -= 1;
    }
    let seg = string_of(v.as_slice(), k, v.len());
    assert(seg@ == last_segment(claimed@)) by {
        assert(last_segment(v@.take(k as int)) =~= Seq::<char>::empty());
        assert(Seq::<char>::empty() + v@.subrange(k as int, v@.len() as int) =~= v@.subrange(
            k as int,
            v@.len() as int,
        ));
    }
    if v.len() - k != 17 {
        return None;
    }
    let mut i = k;
    while i < v.len()
        invariant
            k <= i <= v@.len(),
            v@.len() - k == 17,
            seg@ == v@.subrange(k as int, v@.len() as int),
            seg@ == last_segment(claimed@),
            forall|j: int| k <= j < i ==> '0' <= #[trigger] v@[j] <= '9',
        decreases v.len() - i,
    {
        if !('0' <= v[i] && v[i] <= '9') {
            assert(seg@[i - k] == v@[i as int]);
            return None;
        }
        i += 1;
    }
    assert forall|j: int| 0 <= j < seg@.len() implies '0' <= #[trigger] seg@[j] <= '9' by {
        assert(seg@[j] == v@[k + j]);
    }
    Some(seg)
}


/// The parameter that carries the OpenID mode.
pub const MODE_KEY: &'static str = "openid.mode";

/// The field that turns a positive assertion into a verification request.
pub const CHECK_AUTH_FIELD: &'static str = "openid.mode=check_authentication";

/// The text by which Steam confirms an assertion.
pub const VALID_MARK: &'static str = "is_valid:true";

/// One field of the verification request: the mode is replaced by
/// `check_authentication`, every other pair is echoed percent-encoded.
pub open spec fn auth_field(key: Seq<char>, value: Seq<char>) -> Seq<char> {
    if key == MODE_KEY@ {
        CHECK_AUTH_FIELD@
    } else {
        pct_encoded(encode_utf8(key)) + seq!['='] + pct_encoded(encode_utf8(value))
    }
}

/// The fields of the verification request, in the order of `params`, with
/// the mode added at the end when the callback carried none.
pub open spec fn auth_fields(params: Seq<(String, String)>) -> Seq<Seq<char>> {
    let echoed = params.map_values(|p: (String, String)| auth_field(p.0@, p.1@));
    if lookup(params, MODE_KEY@) is Some {
        echoed
    } else {
        echoed.push(CHECK_AUTH_FIELD@)
    }
}

/// The parts joined with `sep` between consecutive parts (`[T]::join`).
pub open spec fn join(parts: Seq<Seq<char>>, sep: Seq<char>) -> Seq<char>
    decreases parts.len(),
{
    if parts.len() == 0 {
        Seq::empty()
    } else if parts.len() == 1 {
        parts[0]
    } else {
        join(parts.drop_last(), sep) + sep + parts.last()
    }
}

/// The form body of the `check_authentication` request.
pub open spec fn auth_body(params: Seq<(String, String)>) -> Seq<char> {
    join(auth_fields(params), seq!['&'])
}

/// Some parameter is named `key`.
proof fn lemma_lookup_some(params: Seq<(String, String)>, key: Seq<char>, i: int)
    requires
        0 <= i < params.len(),
        params[i].0@ == key,
    ensures
        lookup(params, key) is Some,
    decreases i,
{
    if i > 0 && params[0].0@ != key {
        lemma_lookup_some(params.drop_first(), key, i - 1);
    }
}

/// No parameter is named `key`.
proof fn lemma_lookup_none(params: Seq<(String, String)>, key: Seq<char>)
    requires
        forall|i: int| 0 <= i < params.len() ==> #[trigger] params[i].0@ != key,
    ensures
        lookup(params, key) is None,
    decreases params.len(),
{
    if params.len() > 0 {
        assert forall|i: int| 0 <= i < params.drop_first().len() implies #[trigger] params.drop_first()[i].0@ != key by {
            assert(params.drop_first()[i] == params[i + 1]);
        }
        lemma_lookup_none(params.drop_first(), key);
    }
}

/// Appends `sep` (unless `first`) and then `part`.
fn push_part(out: &mut String, first: bool, part: &str)
    ensures
        final(out)@ == if first {
            old(out)@ + part@
        } else {
            old(out)@ + seq!['&'] + part@
        },
{
    if !first {
        push_char(out, '&');
    }
    out.append(part);
}

/// The body of the OpenID `check_authentication` POST that asks Steam to
/// confirm the assertion in `params`: every pair echoed percent-encoded,
/// `openid.mode` set to `check_authentication`, joined with `&`.
pub fn check_authentication_body(params: &Vec<(String, String)>) -> (body: String)
    ensures
        body@ == auth_body(params@),
{
    let ghost echoed = params@.map_values(|p: (String, String)| auth_field(p.0@, p.1@));
    let mut body = String::new();
    let mut saw_mode = false;
    let mut i: usize = 0;
    while i < params.len()
        invariant
            i <= params@.len(),
            echoed == params@.map_values(|p: (String, String)| auth_field(p.0@, p.1@)),
            body@ == join(echoed.take(i as int), seq!['&']),
            saw_mode <==> exists|j: int| 0 <= j < i && #[trigger] params@[j].0@ == MODE_KEY@,
        decreases params.len() - i,
    {
        let key = &params[i].0;
        let value = &params[i].1;
        let is_mode = str_eq(key.as_str(), MODE_KEY);
        let field = if is_mode {
            saw_mode = true;
            String::from_str(CHECK_AUTH_FIELD)
        } else {
            let mut f = pct_encode(key.as_str());
            push_char(&mut f, '=');
            let v = pct_encode(value.as_str());
            f.append(v.as_str());
            f
        };
        assert(field@ == echoed[i as int]);
        proof {
            let t = echoed.take(i + 1);
            assert(t.drop_last() =~= echoed.take(i as int));
            assert(t.last() == echoed[i as int]);
            if i == 0 {
                assert(echoed.take(0) =~= Seq::<Seq<char>>::empty());
            }
        }
        push_part(&mut body, i == 0, field.as_str());
        i += 1;
    }
    assert(echoed.take(i as int) =~= echoed);
    proof {
        if saw_mode {
            let j = choose|j: int| 0 <= j < i && #[trigger] params@[j].0@ == MODE_KEY@;
            lemma_lookup_some(params@, MODE_KEY@, j);
        } else {
            lemma_lookup_none(params@, MODE_KEY@);
        }
    }
    if !saw_mode {
        let field = String::from_str(CHECK_AUTH_FIELD);
        proof {
            let e2 = echoed.push(CHECK_AUTH_FIELD@);
            assert(e2.drop_last() =~= echoed);
        }
        push_part(&mut body, params.len() == 0, field.as_str());
    }
    body
}

/// Steam's reply to `check_authentication` confirms the sign-in; `None`
/// stands for a request that failed or a reply that could not be read.
pub open spec fn reply_confirms(reply: Option<Seq<char>>) -> bool {
    match reply {
        Some(text) => contains_seq(text, VALID_MARK@),
        None => false,
    }
}

/// Whether Steam's reply text confirms the assertion.
pub fn openid_reply_valid(reply: Option<&str>) -> (ok: bool)
    ensures
        ok == reply_confirms(
            match reply {
                Some(t) => Some(t@),
                None => None,
            },
        ),
{
    match reply {
        Some(text) => contains_str(text, VALID_MARK),
        None => false,
    }
}


/// Steam's reply confirms the sign-in exactly when `is_valid:true` occurs
/// somewhere in its text, whatever surrounds it; a failed request or an
/// unreadable reply never does.
pub proof fn lemma_reply_confirms(before: Seq<char>, after: Seq<char>, text: Seq<char>)
    ensures
        reply_confirms(Some(before + VALID_MARK@ + after)),
        !reply_confirms(None),
        (forall|i: int|
            0 <= i && i + VALID_MARK@.len() <= text.len() ==> #[trigger] text.subrange(
                i,
                i + VALID_MARK@.len(),
            ) != VALID_MARK@) ==> !reply_confirms(Some(text)),
{
    let t = before + VALID_MARK@ + after;
    let i = before.len() as int;
    assert(t.subrange(i, i + VALID_MARK@.len()) =~= VALID_MARK@);
    assert(occurs_at(t, VALID_MARK@, i));
}

/// The fields of the verification request follow the callback parameters
/// one for one and in order: the mode becomes
/// `openid.mode=check_authentication`, any other pair is echoed as its
/// percent-encoded name, `=` and its percent-encoded value; when the
/// callback has no mode, the mode field comes last.
pub proof fn lemma_auth_fields(params: Seq<(String, String)>, i: int)
    requires
        0 <= i < params.len(),
    ensures
        auth_fields(params).len() == params.len() + if lookup(params, MODE_KEY@) is Some {
            0int
        } else {
            1int
        },
        auth_fields(params)[i] == if params[i].0@ == MODE_KEY@ {
            CHECK_AUTH_FIELD@
        } else {
            pct_encoded(encode_utf8(params[i].0@)) + seq!['='] + pct_encoded(
                encode_utf8(params[i].1@),
            )
        },
        lookup(params, MODE_KEY@) is None ==> auth_fields(params).last() == CHECK_AUTH_FIELD@,
{
}

/// Every verification request asks Steam to check the assertion: its
/// fields always include `openid.mode=check_authentication`.
pub proof fn lemma_auth_body_asks_check(params: Seq<(String, String)>)
    ensures
        auth_fields(params).contains(CHECK_AUTH_FIELD@),
    decreases params.len(),
{
    let fs = auth_fields(params);
    let echoed = params.map_values(|p: (String, String)| auth_field(p.0@, p.1@));
    if lookup(params, MODE_KEY@) is Some {
        let i = lemma_lookup_index(params, MODE_KEY@);
        assert(fs[i] == echoed[i]);
    } else {
        assert(fs[params.len() as int] == CHECK_AUTH_FIELD@);
    }
}

/// The position of a parameter named `key`, when there is one.
proof fn lemma_lookup_index(params: Seq<(String, String)>, key: Seq<char>) -> (i: int)
    requires
        lookup(params, key) is Some,
    ensures
        0 <= i < params.len(),
        params[i].0@ == key,
    decreases params.len(),
{
    if params[0].0@ == key {
        0
    } else {
        let j = lemma_lookup_index(params.drop_first(), key);
        assert(params.drop_first()[j] == params[j + 1]);
        j + 1
    }
}


/// The value of an upper-case hexadecimal digit.
pub open spec fn hex_value(c: char) -> nat {
    if '0' <= c <= '9' {
        (c as nat - 48) as nat
    } else if 'A' <= c <= 'F' {
        (c as nat - 55) as nat
    } else {
        0
    }
}

/// Percent-decoding, read from the end: a `%` three places from the end
/// starts an escape, anything else is a byte of its own.
pub open spec fn pct_decoded(s: Seq<char>) -> Seq<u8>
    decreases s.len(),
{
    if s.len() == 0 {
        Seq::empty()
    } else if s.len() >= 3 && s[s.len() - 3] == '%' {
        pct_decoded(s.take(s.len() - 3)).push(
            (hex_value(s[s.len() - 2]) * 16 + hex_value(s[s.len() - 1])) as u8,
        )
    } else {
        pct_decoded(s.drop_last()).push(s.last() as u8)
    }
}

/// In an encoding, every `%` starts a full three-character escape.
proof fn lemma_pct_escapes_complete(bytes: Seq<u8>)
    ensures
        forall|p: int|
            0 <= p < pct_encoded(bytes).len() && #[trigger] pct_encoded(bytes)[p] == '%' ==> p + 3
                <= pct_encoded(bytes).len(),
    decreases bytes.len(),
{
    if bytes.len() > 0 {
        let prefix = pct_encoded(bytes.drop_last());
        let t = pct_byte(bytes.last());
        let s = pct_encoded(bytes);
        lemma_pct_escapes_complete(bytes.drop_last());
        assert(s == prefix + t);
        assert forall|p: int| 0 <= p < s.len() && #[trigger] s[p] == '%' implies p + 3 <= s.len() by {
            if p < prefix.len() {
                assert(s[p] == prefix[p]);
            } else {
                assert(s[p] == t[p - prefix.len()]);
                let b = bytes.last();
                if !unreserved(b) {
                    assert(p == prefix.len()) by {
                        if p > prefix.len() {
                            assert(t[p - prefix.len()] == hex_upper(b as nat / 16) || t[p
                                - prefix.len()] == hex_upper(b as nat % 16));
                        }
                    }
                }
            }
        }
    }
}

/// Percent-encoding loses nothing: decoding the encoding of any bytes
/// gives back those bytes, so Steam receives the parameters as they came.
pub proof fn lemma_pct_round_trip(bytes: Seq<u8>)
    ensures
        pct_decoded(pct_encoded(bytes)) == bytes,
    decreases bytes.len(),
{
    if bytes.len() > 0 {
        let rest = bytes.drop_last();
        let prefix = pct_encoded(rest);
        let b = bytes.last();
        let t = pct_byte(b);
        let s = pct_encoded(bytes);
        lemma_pct_round_trip(rest);
        lemma_pct_escapes_complete(rest);
        assert(s == prefix + t);
        if unreserved(b) {
            assert(s.drop_last() =~= prefix);
            if s.len() >= 3 {
                assert(s[s.len() - 3] == prefix[prefix.len() - 2]);
            }
            assert(s.last() as u8 == b);
        } else {
            assert(s.take(s.len() - 3) =~= prefix);
            assert(s[s.len() - 3] == '%');
            assert(hex_value(hex_upper(b as nat / 16)) == b as nat / 16);
            assert(hex_value(hex_upper(b as nat % 16)) == b as nat % 16);
        }
        assert(pct_decoded(s) =~= bytes);
    }
}


/// Encoding bytes one after the other is encoding them together.
proof fn lemma_pct_encoded_concat(x: Seq<u8>, y: Seq<u8>)
    ensures
        pct_encoded(x + y) == pct_encoded(x) + pct_encoded(y),
    decreases y.len(),
{
    if y.len() == 0 {
        assert(x + y =~= x);
        assert(pct_encoded(x) + pct_encoded(y) =~= pct_encoded(x));
    } else {
        assert((x + y).drop_last() =~= x + y.drop_last());
        assert((x + y).last() == y.last());
        lemma_pct_encoded_concat(x, y.drop_last());
        assert(pct_encoded(x + y) =~= pct_encoded(x) + pct_encoded(y));
    }
}

/// The UTF-8 encoding of joined text is the joined encodings.
proof fn lemma_encode_utf8_concat(a: Seq<char>, b: Seq<char>)
    ensures
        encode_utf8(a + b) == encode_utf8(a) + encode_utf8(b),
    decreases a.len(),
{
    if a.len() == 0 {
        assert(a + b =~= b);
        assert(encode_utf8(a) + encode_utf8(b) =~= encode_utf8(b));
    } else {
        assert((a + b)[0] == a[0]);
        assert((a + b).drop_first() =~= a.drop_first() + b);
        lemma_encode_utf8_concat(a.drop_first(), b);
        assert(encode_utf8(a + b) =~= encode_utf8(a) + encode_utf8(b));
    }
}

/// Percent-encoding works byte by byte: the encoding of joined text is the
/// joined encodings, and the empty text encodes to nothing.
pub proof fn lemma_pct_encode_concat(a: Seq<char>, b: Seq<char>)
    ensures
        pct_encoded(encode_utf8(a + b)) == pct_encoded(encode_utf8(a)) + pct_encoded(
            encode_utf8(b),
        ),
        pct_encoded(encode_utf8(Seq::<char>::empty())) == Seq::<char>::empty(),
{
    lemma_encode_utf8_concat(a, b);
    lemma_pct_encoded_concat(encode_utf8(a), encode_utf8(b));
    assert(encode_utf8(Seq::<char>::empty()) =~= Seq::<u8>::empty());
}

/// The sixteen upper-case hexadecimal digits, in order of value.
pub open spec fn hex_digits() -> Seq<char> {
    seq!['0', '1', '2', '3', '4', '5', '6', '7', '8', '9', 'A', 'B', 'C', 'D', 'E', 'F']
}

/// Percent-encoding one more byte appends, after the encoding of the bytes
/// before it, the byte itself (as a character) exactly when it is an ASCII
/// letter or digit or one of `-`, `_`, `.`, `~`; any other byte, such as
/// `,`, `/`, `:`, a space or a byte of a multi-byte character, appends `%`
/// and its two upper-case hexadecimal digits, high one first.
pub proof fn lemma_pct_encoded_push(bytes: Seq<u8>, b: u8)
    ensures
        pct_encoded(bytes.push(b)) == pct_encoded(bytes) + if ('A' <= (b as char) <= 'Z') || (
        'a' <= (b as char) <= 'z') || ('0' <= (b as char) <= '9') || b as char == '-' || b as char
            == '_' || b as char == '.' || b as char == '~' {
            seq![b as char]
        } else {
            seq!['%', hex_digits()[(b / 16) as int], hex_digits()[(b % 16) as int]]
        },
{
    assert(bytes.push(b).drop_last() =~= bytes);
    let hi = b / 16;
    let lo = b % 16;
    assert(hex_upper(hi as nat) == hex_digits()[hi as int]) by {
        lemma_hex_digit(hi);
    }
    assert(hex_upper(lo as nat) == hex_digits()[lo as int]) by {
        lemma_hex_digit(lo);
    }
}

/// `hex_upper` is the digit of that value.
proof fn lemma_hex_digit(n: u8)
    requires
        n < 16,
    ensures
        hex_upper(n as nat) == hex_digits()[n as int],
{
    if n == 0 {} else if n == 1 {} else if n == 2 {} else if n == 3 {} else if n == 4 {
    } else if n == 5 {} else if n == 6 {} else if n == 7 {} else if n == 8 {} else if n == 9 {
    } else if n == 10 {} else if n == 11 {} else if n == 12 {} else if n == 13 {
    } else if n == 14 {} else {}
}

} // verus!
