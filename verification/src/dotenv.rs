//! The `.env` file that holds the Steam credentials: the lines that
//! loading turns into variables, and the content that saving writes.

use vstd::prelude::*;
use crate::text::{
    all_stripped, chars_of, find_char, first_at, is_ws, lemma_first_at, lemma_first_at_unique,
    lemma_strip_end_shape, lemma_strip_fixed, lemma_strip_start_prefix, lemma_strip_start_shape,
    lemma_trim_fixed_ends,
    push_char, str_eq, string_of, strip_char, strip_char_range, strip_end, strip_start, stripped,
    trim, trim_range,
};

verus! {

/// The variable that holds the Steam ID.
pub const STEAM_ID_VAR: &'static str = "STEAM_ID";

/// The variable that holds the Steam Web API key.
pub const STEAM_API_KEY_VAR: &'static str = "STEAM_API_KEY";

/// A line without its carriage return, if it ends in one.
pub open spec fn strip_cr(l: Seq<char>) -> Seq<char> {
    if l.len() > 0 && l.last() == '\r' {
        l.drop_last()
    } else {
        l
    }
}

/// The lines of `s` as `str::lines` yields them: split after each `\n`,
/// which is dropped together with a `\r` just before it; a last line
/// without `\n` is kept as it is, and nothing follows a final `\n`.
pub open spec fn lines(s: Seq<char>) -> Seq<Seq<char>>
    decreases s.len(),
{
    if s.len() == 0 {
        Seq::empty()
    } else {
        let i = first_at(s, '\n');
        if i < s.len() {
            proof {
                lemma_first_at(s, '\n');
            }
            seq![strip_cr(s.take(i))] + lines(s.skip(i + 1))
        } else {
            seq![s]
        }
    }
}

/// The variable that a line sets when loaded: the trimmed line, unless
/// empty or a `#` comment, split at its first `=`; the name is trimmed, the
/// value trimmed and stripped of surrounding `"`.
pub open spec fn entry_of(line: Seq<char>) -> Option<(Seq<char>, Seq<char>)> {
    let t = trim(line);
    let e = first_at(t, '=');
    if t.len() == 0 || t[0] == '#' || e >= t.len() {
        None
    } else {
        Some((trim(t.take(e)), strip_char(trim(t.skip(e + 1)), '"')))
    }
}

/// The variables of a sequence of lines, in order.
pub open spec fn entries(ls: Seq<Seq<char>>) -> Seq<(Seq<char>, Seq<char>)>
    decreases ls.len(),
{
    if ls.len() == 0 {
        Seq::empty()
    } else {
        match entry_of(ls[0]) {
            Some(e) => seq![e] + entries(ls.drop_first()),
            None => entries(ls.drop_first()),
        }
    }
}

/// The variables that loading `content` sets, in file order. Loading sets
/// a variable only if it is not set yet, so the first entry of a name wins.
pub open spec fn env_entries(content: Seq<char>) -> Seq<(Seq<char>, Seq<char>)> {
    entries(lines(content))
}

/// The value of the first entry named `key`.
pub open spec fn first_value(es: Seq<(Seq<char>, Seq<char>)>, key: Seq<char>) -> Option<Seq<char>>
    decreases es.len(),
{
    if es.len() == 0 {
        None
    } else if es[0].0 == key {
        Some(es[0].1)
    } else {
        first_value(es.drop_first(), key)
    }
}

/// The lines of the characters `v`, one vector per line.
fn split_lines(v: &Vec<char>) -> (ls: Vec<Vec<char>>)
    ensures
        ls@.len() == lines(v@).len(),
        forall|i: int| 0 <= i < ls@.len() ==> #[trigger] ls@[i]@ == lines(v@)[i],
{
    let mut ls: Vec<Vec<char>> = Vec::new();
    let ghost done: Seq<Seq<char>> = Seq::empty();
    let mut pos: usize = 0;
    assert(v@.skip(0) =~= v@);
    while pos < v.len()
        invariant
            pos <= v@.len(),
            ls@.len() == done.len(),
            forall|i: int| 0 <= i < ls@.len() ==> #[trigger] ls@[i]@ == done[i],
            lines(v@) == done + lines(v@.skip(pos as int)),
        decreases v.len() - pos,
    {
        let ghost rest = v@.skip(pos as int);
        let j = find_char(v.as_slice(), pos, v.len(), '\n');
        assert(v@.subrange(pos as int, v@.len() as int) =~= rest);
        if j < v.len() {
            let mut end = j;
            if end > pos && v[end - 1] == '\r' {
                end -= 1;
            }
            let line = string_chars(v, pos, end);
            proof {
                assert(rest.take(j - pos) =~= v@.subrange(pos as int, j as int));
                assert(strip_cr(rest.take(j - pos)) =~= v@.subrange(pos as int, end as int));
                assert(rest.skip(j - pos + 1) =~= v@.skip(j + 1));
                done = done.push(line@);
                assert(seq![strip_cr(rest.take(j - pos))] + lines(rest.skip(j - pos + 1)) =~= seq![
                    line@,
                ] + lines(v@.skip(j + 1)));
            }
            ls.push(line);
            pos = j + 1;
        } else {
            let line = string_chars(v, pos, v.len());
            proof {
                done = done.push(line@);
                assert(v@.skip(v@.len() as int) =~= Seq::<char>::empty());
            }
            ls.push(line);
            pos = v.len();
        }
    }
    assert(v@.skip(pos as int) =~= Seq::<char>::empty());
    assert(done + Seq::<Seq<char>>::empty() =~= done);
    ls
}

/// The characters `v[from..to]` as a vector.
fn string_chars(v: &Vec<char>, from: usize, to: usize) -> (r: Vec<char>)
    requires
        from <= to <= v@.len(),
    ensures
        r@ == v@.subrange(from as int, to as int),
{
    let mut r: Vec<char> = Vec::new();
    let mut i = from;
    while i < to
        invariant
            from <= i <= to <= v@.len(),
            r@ == v@.subrange(from as int, i as int),
        decreases to - i,
    {
        r.push(v[i]);
        i += 1;
        assert(r@ =~= v@.subrange(from as int, i as int));
    }
    r
}


/// The variable that one line sets, if any.
fn line_entry(line: &Vec<char>) -> (r: Option<(String, String)>)
    ensures
        match r {
            Some(e) => entry_of(line@) == Some((e.0@, e.1@)),
            None => entry_of(line@) is None,
        },
{
    let n = line.len();
    let (a, b) = trim_range(line.as_slice(), 0, n);
    let ghost t = line@.subrange(a as int, b as int);
    assert(line@.subrange(0, n as int) =~= line@);
    if a == b {
        return None;
    }
    if line[a] == '#' {
        assert(t[0] == '#');
        return None;
    }
    let e = find_char(line.as_slice(), a, b, '=');
    if e == b {
        return None;
    }
    let (ka, kb) = trim_range(line.as_slice(), a, e);
    let (va, vb) = trim_range(line.as_slice(), e + 1, b);
    let (qa, qb) = strip_char_range(line.as_slice(), va, vb, '"');
    assert(line@.subrange(a as int, e as int) =~= t.take(e - a));
    assert(line@.subrange(e + 1, b as int) =~= t.skip(e - a + 1));
    let key = string_of(line.as_slice(), ka, kb);
    let value = string_of(line.as_slice(), qa, qb);
    Some((key, value))
}

/// Reads a `.env` file: the variables it sets, in file order, as
/// (name, value) pairs. Blank lines, `#` comments and lines without `=`
/// set nothing.
pub fn parse_dotenv(content: &str) -> (es: Vec<(String, String)>)
    ensures
        es@.len() == env_entries(content@).len(),
        forall|i: int|
            0 <= i < es@.len() ==> (#[trigger] es@[i]).0@ == env_entries(content@)[i].0
                && es@[i].1@ == env_entries(content@)[i].1,
{
    let chars = chars_of(content);
    let ls = split_lines(&chars);
    let ghost all = lines(content@);
    assert(all.skip(0) =~= all);
    let mut es: Vec<(String, String)> = Vec::new();
    let ghost done: Seq<(Seq<char>, Seq<char>)> = Seq::empty();
    let mut i: usize = 0;
    while i < ls.len()
        invariant
            i <= ls@.len(),
            ls@.len() == all.len(),
            forall|k: int| 0 <= k < ls@.len() ==> #[trigger] ls@[k]@ == all[k],
            es@.len() == done.len(),
            forall|k: int|
                0 <= k < es@.len() ==> (#[trigger] es@[k]).0@ == done[k].0 && es@[k].1@
                    == done[k].1,
            entries(all) == done + entries(all.skip(i as int)),
        decreases ls.len() - i,
    {
        assert(all.skip(i as int).drop_first() =~= all.skip(i + 1));
        assert(all.skip(i as int)[0] == ls@[i as int]@);
        match line_entry(&ls[i]) {
            Some(e) => {
                proof {
                    let ghost d2 = done.push((e.0@, e.1@));
                    assert(done + (seq![(e.0@, e.1@)] + entries(all.skip(i + 1))) =~= d2
                        + entries(all.skip(i + 1)));
                    done = d2;
                }
                es.push(e);
            },
            None => {},
        }
        i += 1;
    }
    assert(all.skip(i as int) =~= Seq::<Seq<char>>::empty());
    assert(done + Seq::<(Seq<char>, Seq<char>)>::empty() =~= done);
    es
}

/// The name that saving sees in a line: the trimmed text before its first
/// `=`, or the whole trimmed line when it has none.
pub open spec fn save_key(line: Seq<char>) -> Seq<char> {
    trim(line.take(first_at(line, '=')))
}

/// A line that saving replaces: one that sets a credential.
pub open spec fn replaced(line: Seq<char>) -> bool {
    save_key(line) == STEAM_ID_VAR@ || save_key(line) == STEAM_API_KEY_VAR@
}

/// The lines that saving keeps, in order.
pub open spec fn kept(ls: Seq<Seq<char>>) -> Seq<Seq<char>>
    decreases ls.len(),
{
    if ls.len() == 0 {
        Seq::empty()
    } else if replaced(ls[0]) {
        kept(ls.drop_first())
    } else {
        seq![ls[0]] + kept(ls.drop_first())
    }
}

/// Every line followed by `\n` (for a non-empty list this is the lines
/// joined with `\n`, plus a final `\n`).
pub open spec fn terminated(ls: Seq<Seq<char>>) -> Seq<char>
    decreases ls.len(),
{
    if ls.len() == 0 {
        Seq::empty()
    } else {
        ls[0] + seq!['\n'] + terminated(ls.drop_first())
    }
}

/// The two lines that saving appends.
pub open spec fn credential_lines(steam_id: Seq<char>, api_key: Seq<char>) -> Seq<Seq<char>> {
    seq![STEAM_ID_VAR@ + seq!['='] + steam_id, STEAM_API_KEY_VAR@ + seq!['='] + api_key]
}

/// The file that saving writes: the lines of the old file (none when it
/// could not be read) except those that set a credential, then the two
/// credential lines.
pub open spec fn saved_dotenv(existing: Option<Seq<char>>, steam_id: Seq<char>, api_key: Seq<char>) -> Seq<char> {
    let old_lines = match existing {
        Some(c) => lines(c),
        None => Seq::empty(),
    };
    terminated(kept(old_lines) + credential_lines(steam_id, api_key))
}

/// Appends the characters of `line` and a `\n`.
fn push_line(out: &mut String, line: &[char])
    ensures
        final(out)@ == old(out)@ + line@ + seq!['\n'],
{
    let mut i: usize = 0;
    while i < line.len()
        invariant
            i <= line@.len(),
            out@ == old(out)@ + line@.take(i as int),
        decreases line.len() - i,
    {
        push_char(out, line[i]);
        i += 1;
        assert(out@ =~= old(out)@ + line@.take(i as int));
    }
    assert(line@.take(i as int) =~= line@);
    push_char(out, '\n');
}

/// Whether saving replaces `line`.
fn is_replaced(line: &Vec<char>) -> (r: bool)
    ensures
        r == replaced(line@),
{
    let e = find_char(line.as_slice(), 0, line.len(), '=');
    let (ka, kb) = trim_range(line.as_slice(), 0, e);
    assert(line@.subrange(0, line@.len() as int) =~= line@);
    assert(line@.subrange(0, e as int) =~= line@.take(e as int));
    let key = string_of(line.as_slice(), ka, kb);
    str_eq(key.as_str(), STEAM_ID_VAR) || str_eq(key.as_str(), STEAM_API_KEY_VAR)
}

/// The content of the `.env` file after saving the credentials: the old
/// content (`None` when it could not be read) without the lines that set
/// `STEAM_ID` or `STEAM_API_KEY`, then `STEAM_ID={steam_id}` and
/// `STEAM_API_KEY={api_key}`, every line ending in `\n`.
pub fn dotenv_with_credentials(existing: Option<&str>, steam_id: &str, api_key: &str) -> (content: String)
    ensures
        content@ == saved_dotenv(
            match existing {
                Some(c) => Some(c@),
                None => None,
            },
            steam_id@,
            api_key@,
        ),
{
    let ls: Vec<Vec<char>> = match existing {
        Some(c) => {
            let chars = chars_of(c);
            split_lines(&chars)
        },
        None => Vec::new(),
    };
    let ghost all = match existing {
        Some(c) => lines(c@),
        None => Seq::<Seq<char>>::empty(),
    };
    let ghost creds = credential_lines(steam_id@, api_key@);
    let mut out = String::new();
    let mut i: usize = 0;
    assert(all.skip(0) =~= all);
    while i < ls.len()
        invariant
            i <= ls@.len(),
            ls@.len() == all.len(),
            forall|k: int| 0 <= k < ls@.len() ==> #[trigger] ls@[k]@ == all[k],
            out@ + terminated(kept(all.skip(i as int)) + creds) == terminated(kept(all) + creds),
        decreases ls.len() - i,
    {
        let ghost rest = all.skip(i as int);
        assert(rest.drop_first() =~= all.skip(i + 1));
        assert(rest[0] == ls@[i as int]@);
        if !is_replaced(&ls[i]) {
            let ghost before = out@;
            push_line(&mut out, ls[i].as_slice());
            proof {
                let x = seq![rest[0]] + kept(rest.drop_first()) + creds;
                assert(x[0] == rest[0]);
                assert(x.drop_first() =~= kept(rest.drop_first()) + creds);
                assert(before + terminated(x) =~= out@ + terminated(kept(all.skip(i + 1)) + creds));
            }
        }
        i += 1;
    }
    assert(all.skip(i as int) =~= Seq::<Seq<char>>::empty());
    let ghost tail = out@;
    let mut id_line = String::from_str(STEAM_ID_VAR);
    push_char(&mut id_line, '=');
    id_line.append(steam_id);
    let id_chars = chars_of(id_line.as_str());
    push_line(&mut out, id_chars.as_slice());
    let mut key_line = String::from_str(STEAM_API_KEY_VAR);
    push_char(&mut key_line, '=');
    key_line.append(api_key);
    let key_chars = chars_of(key_line.as_str());
    push_line(&mut out, key_chars.as_slice());
    proof {
        assert(Seq::<Seq<char>>::empty() + creds =~= creds);
        assert(creds.drop_first().drop_first() =~= Seq::<Seq<char>>::empty());
        assert(creds.drop_first()[0] == creds[1]);
        assert(terminated(creds.drop_first().drop_first()) =~= Seq::<char>::empty());
        assert(terminated(creds.drop_first()) =~= creds[1] + seq!['\n']);
        assert(terminated(creds) =~= creds[0] + seq!['\n'] + (creds[1] + seq!['\n']));
        assert(out@ =~= tail + terminated(creds));
    }
    out
}


/// `c` does not occur in `s`.
pub open spec fn lacks(s: Seq<char>, c: char) -> bool {
    forall|i: int| 0 <= i < s.len() ==> s[i] != c
}

/// A value that a save and a load give back unchanged: on one line, with
/// no whitespace and no `"` at either end.
pub open spec fn plain_value(v: Seq<char>) -> bool {
    &&& lacks(v, '\n')
    &&& trim(v) == v
    &&& strip_char(v, '"') == v
}

/// Every line of `ls` lacks `\n`.
pub open spec fn single_lines(ls: Seq<Seq<char>>) -> bool {
    forall|i: int| 0 <= i < ls.len() ==> lacks(#[trigger] ls[i], '\n')
}

/// No line that `lines` yields holds a `\n`.
proof fn lemma_lines_single(s: Seq<char>)
    ensures
        single_lines(lines(s)),
    decreases s.len(),
{
    if s.len() > 0 {
        let i = first_at(s, '\n');
        lemma_first_at(s, '\n');
        if i < s.len() {
            lemma_lines_single(s.skip(i + 1));
            let ls = lines(s);
            let rest = lines(s.skip(i + 1));
            assert forall|k: int| 0 <= k < ls.len() implies lacks(#[trigger] ls[k], '\n') by {
                if k > 0 {
                    assert(ls[k] == rest[k - 1]);
                }
            }
        }
    }
}

/// The lines that saving keeps are lines of its input.
proof fn lemma_kept_single(ls: Seq<Seq<char>>)
    requires
        single_lines(ls),
    ensures
        single_lines(kept(ls)),
    decreases ls.len(),
{
    if ls.len() > 0 {
        assert(single_lines(ls.drop_first())) by {
            assert forall|k: int| 0 <= k < ls.drop_first().len() implies lacks(
                #[trigger] ls.drop_first()[k],
                '\n',
            ) by {
                assert(ls.drop_first()[k] == ls[k + 1]);
            }
        }
        lemma_kept_single(ls.drop_first());
        if !replaced(ls[0]) {
            let r = kept(ls);
            assert forall|k: int| 0 <= k < r.len() implies lacks(#[trigger] r[k], '\n') by {
                if k == 0 {
                    assert(r[0] == ls[0]);
                } else {
                    assert(r[k] == kept(ls.drop_first())[k - 1]);
                }
            }
        }
    }
}

/// Splitting terminated single lines gives back the lines, each without a
/// final carriage return.
proof fn lemma_lines_terminated(ls: Seq<Seq<char>>)
    requires
        single_lines(ls),
    ensures
        lines(terminated(ls)) == ls.map_values(|l: Seq<char>| strip_cr(l)),
    decreases ls.len(),
{
    if ls.len() == 0 {
        assert(ls.map_values(|l: Seq<char>| strip_cr(l)) =~= Seq::<Seq<char>>::empty());
    } else {
        let l = ls[0];
        let t = terminated(ls.drop_first());
        let s = terminated(ls);
        assert(lacks(l, '\n'));
        assert(s =~= l + seq!['\n'] + t);
        assert forall|i: int| 0 <= i < l.len() implies s[i] != '\n' by {
            assert(s[i] == l[i]);
        }
        assert(s[l.len() as int] == '\n');
        lemma_first_at_unique(s, '\n', l.len() as int);
        assert(s.take(l.len() as int) =~= l);
        assert(s.skip(l.len() as int + 1) =~= t);
        assert(single_lines(ls.drop_first())) by {
            assert forall|k: int| 0 <= k < ls.drop_first().len() implies lacks(
                #[trigger] ls.drop_first()[k],
                '\n',
            ) by {
                assert(ls.drop_first()[k] == ls[k + 1]);
            }
        }
        lemma_lines_terminated(ls.drop_first());
        assert(ls.map_values(|l: Seq<char>| strip_cr(l)) =~= seq![strip_cr(l)]
            + ls.drop_first().map_values(|l: Seq<char>| strip_cr(l)));
    }
}

/// The entries of concatenated lines are concatenated.
proof fn lemma_entries_concat(a: Seq<Seq<char>>, b: Seq<Seq<char>>)
    ensures
        entries(a + b) == entries(a) + entries(b),
    decreases a.len(),
{
    if a.len() == 0 {
        assert(a + b =~= b);
        assert(entries(a) + entries(b) =~= entries(b));
    } else {
        assert((a + b)[0] == a[0]);
        assert((a + b).drop_first() =~= a.drop_first() + b);
        lemma_entries_concat(a.drop_first(), b);
        match entry_of(a[0]) {
            Some(e) => {
                assert(seq![e] + (entries(a.drop_first()) + entries(b)) =~= (seq![e] + entries(
                    a.drop_first(),
                )) + entries(b));
            },
            None => {},
        }
    }
}

/// The first entry of a name in concatenated entries.
proof fn lemma_first_value_concat(
    a: Seq<(Seq<char>, Seq<char>)>,
    b: Seq<(Seq<char>, Seq<char>)>,
    key: Seq<char>,
)
    ensures
        first_value(a + b, key) == if first_value(a, key) is Some {
            first_value(a, key)
        } else {
            first_value(b, key)
        },
    decreases a.len(),
{
    if a.len() == 0 {
        assert(a + b =~= b);
    } else {
        assert((a + b)[0] == a[0]);
        assert((a + b).drop_first() =~= a.drop_first() + b);
        lemma_first_value_concat(a.drop_first(), b, key);
    }
}

/// Loading reads the name that saving sees.
proof fn lemma_entry_key(l: Seq<char>)
    ensures
        entry_of(strip_cr(l)) matches Some(e) ==> e.0 == save_key(l),
{
    let x = strip_cr(l);
    if let Some(e) = entry_of(x) {
        lemma_strip_start_shape(x, true, ' ');
        let a = choose|a: int|
            #![trigger x.skip(a)]
            0 <= a <= x.len() && strip_start(x, true, ' ') == x.skip(a) && all_stripped(
                x.take(a),
                true,
                ' ',
            ) && (a < x.len() ==> !stripped(true, ' ', x[a]));
        let u = x.skip(a);
        lemma_strip_end_shape(u, true, ' ');
        let b = choose|b: int|
            #![trigger u.take(b)]
            0 <= b <= u.len() && strip_end(u, true, ' ') == u.take(b) && all_stripped(
                u.skip(b),
                true,
                ' ',
            ) && (b > 0 ==> !stripped(true, ' ', u[b - 1]));
        let t = u.take(b);
        assert(t == trim(x));
        let k = first_at(t, '=');
        lemma_first_at(t, '=');
        assert forall|i: int| 0 <= i < a + k implies x[i] != '=' by {
            if i < a {
                assert(stripped(true, ' ', x.take(a)[i]));
            } else {
                assert(x[i] == t[i - a]);
            }
        }
        assert(x[a + k] == t[k]);
        lemma_first_at_unique(x, '=', a + k);
        assert(x.take(a + k) =~= x.take(a) + t.take(k));
        lemma_strip_start_prefix(x.take(a), t.take(k), true, ' ');
        if l.len() > 0 && l.last() == '\r' {
            assert forall|i: int| 0 <= i < a + k implies l[i] != '=' by {
                assert(l[i] == x[i]);
            }
            assert(l[a + k] == x[a + k]);
            lemma_first_at_unique(l, '=', a + k);
            assert(l.take(a + k) =~= x.take(a + k));
        }
    }
}

/// Saving keeps no line that loading reads as a credential.
proof fn lemma_kept_hides_credentials(ls: Seq<Seq<char>>, key: Seq<char>)
    requires
        key == STEAM_ID_VAR@ || key == STEAM_API_KEY_VAR@,
    ensures
        first_value(entries(kept(ls).map_values(|l: Seq<char>| strip_cr(l))), key) is None,
    decreases ls.len(),
{
    if ls.len() == 0 {
        assert(kept(ls).map_values(|l: Seq<char>| strip_cr(l)) =~= Seq::<Seq<char>>::empty());
    } else {
        lemma_kept_hides_credentials(ls.drop_first(), key);
        if !replaced(ls[0]) {
            let m = kept(ls).map_values(|l: Seq<char>| strip_cr(l));
            let r = kept(ls.drop_first()).map_values(|l: Seq<char>| strip_cr(l));
            assert(m =~= seq![strip_cr(ls[0])] + r);
            assert(m[0] == strip_cr(ls[0]));
            assert(m.drop_first() =~= r);
            lemma_entry_key(ls[0]);
            match entry_of(strip_cr(ls[0])) {
                Some(e) => {
                    let es = seq![e] + entries(r);
                    assert(es[0] == e);
                    assert(es.drop_first() =~= entries(r));
                },
                None => {},
            }
        }
    }
}

/// What loading reads from a credential line.
proof fn lemma_credential_entry(name: Seq<char>, v: Seq<char>)
    requires
        name.len() > 0,
        lacks(name, '='),
        !is_ws(name[0]),
        !is_ws(name.last()),
        name[0] != '#',
        plain_value(v),
    ensures
        entry_of(strip_cr(name + seq!['='] + v)) == Some((name, v)),
{
    let line = name + seq!['='] + v;
    if v.len() > 0 {
        lemma_trim_fixed_ends(v);
        assert(line.last() == v.last());
    }
    assert(strip_cr(line) == line);
    assert(line[0] == name[0]);
    lemma_strip_fixed(line, true, ' ');
    assert forall|i: int| 0 <= i < name.len() implies line[i] != '=' by {
        assert(line[i] == name[i]);
    }
    lemma_first_at_unique(line, '=', name.len() as int);
    assert(line.take(name.len() as int) =~= name);
    assert(line.skip(name.len() as int + 1) =~= v);
    lemma_strip_fixed(name, true, ' ');
}

/// The names of the two credentials.
proof fn lemma_credential_names()
    ensures
        STEAM_ID_VAR@.len() > 0,
        lacks(STEAM_ID_VAR@, '='),
        !is_ws(STEAM_ID_VAR@[0]),
        !is_ws(STEAM_ID_VAR@.last()),
        STEAM_ID_VAR@[0] != '#',
        STEAM_API_KEY_VAR@.len() > 0,
        lacks(STEAM_API_KEY_VAR@, '='),
        !is_ws(STEAM_API_KEY_VAR@[0]),
        !is_ws(STEAM_API_KEY_VAR@.last()),
        STEAM_API_KEY_VAR@[0] != '#',
        STEAM_ID_VAR@ != STEAM_API_KEY_VAR@,
        lacks(STEAM_ID_VAR@, '\n'),
        lacks(STEAM_API_KEY_VAR@, '\n'),
{
    reveal_strlit("STEAM_ID");
    reveal_strlit("STEAM_API_KEY");
}

/// Saved credentials load back: in the file that saving writes, the first
/// `STEAM_ID` entry holds the saved Steam ID and the first `STEAM_API_KEY`
/// entry the saved key, whatever the file held before, provided each value
/// is on one line and has no whitespace or `"` at either end.
pub proof fn lemma_saved_credentials_load_back(
    existing: Option<Seq<char>>,
    steam_id: Seq<char>,
    api_key: Seq<char>,
)
    requires
        plain_value(steam_id),
        plain_value(api_key),
    ensures
        first_value(env_entries(saved_dotenv(existing, steam_id, api_key)), STEAM_ID_VAR@) == Some(
            steam_id,
        ),
        first_value(env_entries(saved_dotenv(existing, steam_id, api_key)), STEAM_API_KEY_VAR@)
            == Some(api_key),
{
    let old_lines = match existing {
        Some(c) => lines(c),
        None => Seq::empty(),
    };
    if let Some(c) = existing {
        lemma_lines_single(c);
    }
    lemma_kept_single(old_lines);
    lemma_credential_names();
    let k = kept(old_lines);
    let creds = credential_lines(steam_id, api_key);
    let all = k + creds;
    assert(single_lines(all)) by {
        assert forall|i: int| 0 <= i < all.len() implies lacks(#[trigger] all[i], '\n') by {
            if i < k.len() {
                assert(all[i] == k[i]);
            } else {
                let l = all[i];
                assert forall|j: int| 0 <= j < l.len() implies l[j] != '\n' by {
                    if i == k.len() {
                        assert(l == STEAM_ID_VAR@ + seq!['='] + steam_id);
                        if j < STEAM_ID_VAR@.len() {
                            assert(l[j] == STEAM_ID_VAR@[j]);
                        } else if j > STEAM_ID_VAR@.len() {
                            assert(l[j] == steam_id[j - STEAM_ID_VAR@.len() - 1]);
                        }
                    } else {
                        assert(l == STEAM_API_KEY_VAR@ + seq!['='] + api_key);
                        if j < STEAM_API_KEY_VAR@.len() {
                            assert(l[j] == STEAM_API_KEY_VAR@[j]);
                        } else if j > STEAM_API_KEY_VAR@.len() {
                            assert(l[j] == api_key[j - STEAM_API_KEY_VAR@.len() - 1]);
                        }
                    }
                }
            }
        }
    }
    lemma_lines_terminated(all);
    let km = k.map_values(|l: Seq<char>| strip_cr(l));
    let cm = creds.map_values(|l: Seq<char>| strip_cr(l));
    assert(all.map_values(|l: Seq<char>| strip_cr(l)) =~= km + cm);
    lemma_entries_concat(km, cm);
    lemma_credential_entry(STEAM_ID_VAR@, steam_id);
    lemma_credential_entry(STEAM_API_KEY_VAR@, api_key);
    let e1 = (STEAM_ID_VAR@, steam_id);
    let e2 = (STEAM_API_KEY_VAR@, api_key);
    assert(cm[0] == strip_cr(creds[0]));
    assert(cm.drop_first()[0] == strip_cr(creds[1]));
    assert(cm.drop_first().drop_first() =~= Seq::<Seq<char>>::empty());
    assert(creds[0] == STEAM_ID_VAR@ + seq!['='] + steam_id);
    assert(creds[1] == STEAM_API_KEY_VAR@ + seq!['='] + api_key);
    assert(entry_of(cm[0]) == Some(e1));
    assert(entry_of(cm.drop_first()[0]) == Some(e2));
    assert(entries(cm.drop_first().drop_first()) =~= Seq::<(Seq<char>, Seq<char>)>::empty());
    assert(entries(cm.drop_first()) =~= seq![e2]);
    assert(entries(cm) =~= seq![e1, e2]);
    let ce = seq![e1, e2];
    assert(ce[0] == e1);
    assert(ce.drop_first() =~= seq![e2]);
    assert(first_value(ce, STEAM_API_KEY_VAR@) == first_value(seq![e2], STEAM_API_KEY_VAR@));
    lemma_kept_hides_credentials(old_lines, STEAM_ID_VAR@);
    lemma_kept_hides_credentials(old_lines, STEAM_API_KEY_VAR@);
    lemma_first_value_concat(entries(km), ce, STEAM_ID_VAR@);
    lemma_first_value_concat(entries(km), ce, STEAM_API_KEY_VAR@);
}


/// Stripping leading whitespace from `x` followed by whitespace `w`.
proof fn lemma_strip_start_push_ws(x: Seq<char>, w: char)
    requires
        is_ws(w),
    ensures
        strip_start(x.push(w), true, ' ') == if strip_start(x, true, ' ').len() > 0 {
            strip_start(x, true, ' ').push(w)
        } else {
            Seq::<char>::empty()
        },
    decreases x.len(),
{
    if x.len() == 0 {
        assert(x.push(w).drop_first() =~= Seq::<char>::empty());
        assert(x.push(w)[0] == w);
        assert(strip_start(Seq::<char>::empty(), true, ' ') =~= Seq::<char>::empty());
        assert(strip_start(x, true, ' ') =~= Seq::<char>::empty());
    } else {
        assert(x.push(w)[0] == x[0]);
        if is_ws(x[0]) {
            assert(x.push(w).drop_first() =~= x.drop_first().push(w));
            lemma_strip_start_push_ws(x.drop_first(), w);
        }
    }
}

/// A carriage return at the end of a line is trimmed away with the rest
/// of the whitespace.
proof fn lemma_trim_strip_cr(l: Seq<char>)
    ensures
        trim(strip_cr(l)) == trim(l),
{
    if l.len() > 0 && l.last() == '\r' {
        let x = l.drop_last();
        assert(l =~= x.push('\r'));
        lemma_strip_start_push_ws(x, '\r');
        let u = strip_start(x, true, ' ');
        if u.len() > 0 {
            assert(u.push('\r').drop_last() =~= u);
        }
    }
}

/// Saving changes what loading reads for no name but the credentials.
proof fn lemma_kept_keeps_others(ls: Seq<Seq<char>>, key: Seq<char>)
    requires
        key != STEAM_ID_VAR@,
        key != STEAM_API_KEY_VAR@,
    ensures
        first_value(entries(kept(ls).map_values(|l: Seq<char>| strip_cr(l))), key) == first_value(
            entries(ls),
            key,
        ),
    decreases ls.len(),
{
    if ls.len() == 0 {
        assert(kept(ls).map_values(|l: Seq<char>| strip_cr(l)) =~= Seq::<Seq<char>>::empty());
    } else {
        let l = ls[0];
        lemma_kept_keeps_others(ls.drop_first(), key);
        lemma_trim_strip_cr(l);
        lemma_entry_key(l);
        assert(entry_of(strip_cr(l)) == entry_of(l));
        if let Some(e) = entry_of(l) {
            let es = seq![e] + entries(ls.drop_first());
            assert(es[0] == e);
            assert(es.drop_first() =~= entries(ls.drop_first()));
        }
        if !replaced(l) {
            let m = kept(ls).map_values(|l: Seq<char>| strip_cr(l));
            let r = kept(ls.drop_first()).map_values(|l: Seq<char>| strip_cr(l));
            assert(m =~= seq![strip_cr(l)] + r);
            assert(m[0] == strip_cr(l));
            assert(m.drop_first() =~= r);
            if let Some(e) = entry_of(l) {
                let es = seq![e] + entries(r);
                assert(es[0] == e);
                assert(es.drop_first() =~= entries(r));
            }
        }
    }
}

/// The name that saving sees in a credential line is the credential.
proof fn lemma_credential_save_key(name: Seq<char>, v: Seq<char>)
    requires
        name.len() > 0,
        lacks(name, '='),
        !is_ws(name[0]),
        !is_ws(name.last()),
    ensures
        save_key(name + seq!['='] + v) == name,
{
    let line = name + seq!['='] + v;
    assert forall|i: int| 0 <= i < name.len() implies line[i] != '=' by {
        assert(line[i] == name[i]);
    }
    lemma_first_at_unique(line, '=', name.len() as int);
    assert(line.take(name.len() as int) =~= name);
    lemma_strip_fixed(name, true, ' ');
}

/// Saving keeps every other setting: for any name but `STEAM_ID` and
/// `STEAM_API_KEY`, loading the saved file reads the same first value as
/// loading the old one, provided the saved values are each on one line.
pub proof fn lemma_save_keeps_other_settings(
    existing: Seq<char>,
    steam_id: Seq<char>,
    api_key: Seq<char>,
    key: Seq<char>,
)
    requires
        lacks(steam_id, '\n'),
        lacks(api_key, '\n'),
        key != STEAM_ID_VAR@,
        key != STEAM_API_KEY_VAR@,
    ensures
        first_value(env_entries(saved_dotenv(Some(existing), steam_id, api_key)), key)
            == first_value(env_entries(existing), key),
{
    let old_lines = lines(existing);
    lemma_lines_single(existing);
    lemma_kept_single(old_lines);
    lemma_credential_names();
    let k = kept(old_lines);
    let creds = credential_lines(steam_id, api_key);
    let all = k + creds;
    assert(single_lines(all)) by {
        assert forall|i: int| 0 <= i < all.len() implies lacks(#[trigger] all[i], '\n') by {
            if i < k.len() {
                assert(all[i] == k[i]);
            } else {
                let l = all[i];
                assert forall|j: int| 0 <= j < l.len() implies l[j] != '\n' by {
                    if i == k.len() {
                        assert(l == STEAM_ID_VAR@ + seq!['='] + steam_id);
                        if j < STEAM_ID_VAR@.len() {
                            assert(l[j] == STEAM_ID_VAR@[j]);
                        } else if j > STEAM_ID_VAR@.len() {
                            assert(l[j] == steam_id[j - STEAM_ID_VAR@.len() - 1]);
                        }
                    } else {
                        assert(l == STEAM_API_KEY_VAR@ + seq!['='] + api_key);
                        if j < STEAM_API_KEY_VAR@.len() {
                            assert(l[j] == STEAM_API_KEY_VAR@[j]);
                        } else if j > STEAM_API_KEY_VAR@.len() {
                            assert(l[j] == api_key[j - STEAM_API_KEY_VAR@.len() - 1]);
                        }
                    }
                }
            }
        }
    }
    lemma_lines_terminated(all);
    let km = k.map_values(|l: Seq<char>| strip_cr(l));
    let cm = creds.map_values(|l: Seq<char>| strip_cr(l));
    assert(all.map_values(|l: Seq<char>| strip_cr(l)) =~= km + cm);
    lemma_entries_concat(km, cm);
    lemma_kept_keeps_others(old_lines, key);
    // the credential lines set only the credentials
    lemma_credential_save_key(STEAM_ID_VAR@, steam_id);
    lemma_credential_save_key(STEAM_API_KEY_VAR@, api_key);
    assert(creds[0] == STEAM_ID_VAR@ + seq!['='] + steam_id);
    assert(creds[1] == STEAM_API_KEY_VAR@ + seq!['='] + api_key);
    assert(cm[0] == strip_cr(creds[0]));
    assert(cm.drop_first()[0] == strip_cr(creds[1]));
    assert(cm.drop_first().drop_first() =~= Seq::<Seq<char>>::empty());
    lemma_entry_key(creds[0]);
    lemma_entry_key(creds[1]);
    assert(entries(cm.drop_first().drop_first()) =~= Seq::<(Seq<char>, Seq<char>)>::empty());
    let no_entries = Seq::<(Seq<char>, Seq<char>)>::empty();
    assert(first_value(no_entries, key) is None);
    assert(first_value(entries(cm.drop_first()), key) is None) by {
        if let Some(e) = entry_of(cm.drop_first()[0]) {
            let es = seq![e] + entries(cm.drop_first().drop_first());
            assert(es[0] == e);
            assert(es.drop_first() =~= entries(cm.drop_first().drop_first()));
        }
    }
    assert(first_value(entries(cm), key) is None) by {
        if let Some(e) = entry_of(cm[0]) {
            let es = seq![e] + entries(cm.drop_first());
            assert(es[0] == e);
            assert(es.drop_first() =~= entries(cm.drop_first()));
        }
    }
    lemma_first_value_concat(entries(km), entries(cm), key);
}


/// No line of `ls` ends in a carriage return.
pub open spec fn no_cr_ends(ls: Seq<Seq<char>>) -> bool {
    forall|i: int| 0 <= i < ls.len() ==> strip_cr(#[trigger] ls[i]) == ls[i]
}

/// The lines that saving keeps end as the lines of its input do.
proof fn lemma_kept_no_cr(ls: Seq<Seq<char>>)
    requires
        no_cr_ends(ls),
    ensures
        no_cr_ends(kept(ls)),
    decreases ls.len(),
{
    if ls.len() > 0 {
        assert(no_cr_ends(ls.drop_first())) by {
            assert forall|k: int| 0 <= k < ls.drop_first().len() implies strip_cr(
                #[trigger] ls.drop_first()[k],
            ) == ls.drop_first()[k] by {
                assert(ls.drop_first()[k] == ls[k + 1]);
            }
        }
        lemma_kept_no_cr(ls.drop_first());
        if !replaced(ls[0]) {
            let r = kept(ls);
            assert forall|k: int| 0 <= k < r.len() implies strip_cr(#[trigger] r[k]) == r[k] by {
                if k == 0 {
                    assert(r[0] == ls[0]);
                } else {
                    assert(r[k] == kept(ls.drop_first())[k - 1]);
                }
            }
        }
    }
}

/// Keeping lines of joined lists keeps them from each list.
proof fn lemma_kept_concat(a: Seq<Seq<char>>, b: Seq<Seq<char>>)
    ensures
        kept(a + b) == kept(a) + kept(b),
    decreases a.len(),
{
    if a.len() == 0 {
        assert(a + b =~= b);
        assert(kept(a) + kept(b) =~= kept(b));
    } else {
        assert((a + b)[0] == a[0]);
        assert((a + b).drop_first() =~= a.drop_first() + b);
        lemma_kept_concat(a.drop_first(), b);
        if !replaced(a[0]) {
            assert(seq![a[0]] + (kept(a.drop_first()) + kept(b)) =~= (seq![a[0]] + kept(
                a.drop_first(),
            )) + kept(b));
        }
    }
}

/// The kept lines are kept again.
proof fn lemma_kept_idempotent(ls: Seq<Seq<char>>)
    ensures
        kept(kept(ls)) == kept(ls),
    decreases ls.len(),
{
    if ls.len() > 0 {
        lemma_kept_idempotent(ls.drop_first());
        if !replaced(ls[0]) {
            let k = seq![ls[0]] + kept(ls.drop_first());
            assert(k[0] == ls[0]);
            assert(k.drop_first() =~= kept(ls.drop_first()));
        }
    }
}

/// Saving the same credentials twice writes what saving once writes,
/// when the values have no line breaks or carriage returns and no line of
/// the old file ends in a carriage return.
pub proof fn lemma_save_twice_is_save_once(
    existing: Option<Seq<char>>,
    steam_id: Seq<char>,
    api_key: Seq<char>,
)
    requires
        lacks(steam_id, '\n'),
        lacks(api_key, '\n'),
        lacks(steam_id, '\r'),
        lacks(api_key, '\r'),
        existing matches Some(c) ==> no_cr_ends(lines(c)),
    ensures
        saved_dotenv(Some(saved_dotenv(existing, steam_id, api_key)), steam_id, api_key)
            == saved_dotenv(existing, steam_id, api_key),
{
    let old_lines = match existing {
        Some(c) => lines(c),
        None => Seq::empty(),
    };
    if let Some(c) = existing {
        lemma_lines_single(c);
    }
    lemma_kept_single(old_lines);
    lemma_kept_no_cr(old_lines);
    lemma_credential_names();
    let k = kept(old_lines);
    let creds = credential_lines(steam_id, api_key);
    let all = k + creds;
    let c0 = STEAM_ID_VAR@ + seq!['='] + steam_id;
    let c1 = STEAM_API_KEY_VAR@ + seq!['='] + api_key;
    assert(creds[0] == c0);
    assert(creds[1] == c1);
    assert(single_lines(all)) by {
        assert forall|i: int| 0 <= i < all.len() implies lacks(#[trigger] all[i], '\n') by {
            if i < k.len() {
                assert(all[i] == k[i]);
            } else {
                let l = all[i];
                assert forall|j: int| 0 <= j < l.len() implies l[j] != '\n' by {
                    if i == k.len() {
                        assert(l == c0);
                        if j < STEAM_ID_VAR@.len() {
                            assert(l[j] == STEAM_ID_VAR@[j]);
                        } else if j > STEAM_ID_VAR@.len() {
                            assert(l[j] == steam_id[j - STEAM_ID_VAR@.len() - 1]);
                        }
                    } else {
                        assert(l == c1);
                        if j < STEAM_API_KEY_VAR@.len() {
                            assert(l[j] == STEAM_API_KEY_VAR@[j]);
                        } else if j > STEAM_API_KEY_VAR@.len() {
                            assert(l[j] == api_key[j - STEAM_API_KEY_VAR@.len() - 1]);
                        }
                    }
                }
            }
        }
    }
    lemma_lines_terminated(all);
    assert(c0.last() != '\r') by {
        if steam_id.len() > 0 {
            assert(c0.last() == steam_id.last());
        }
    }
    assert(c1.last() != '\r') by {
        if api_key.len() > 0 {
            assert(c1.last() == api_key.last());
        }
    }
    assert(all.map_values(|l: Seq<char>| strip_cr(l)) =~= all) by {
        assert forall|i: int| 0 <= i < all.len() implies strip_cr(all[i]) == all[i] by {
            if i < k.len() {
                assert(all[i] == k[i]);
            }
        }
    }
    lemma_kept_concat(k, creds);
    lemma_kept_idempotent(old_lines);
    lemma_credential_save_key(STEAM_ID_VAR@, steam_id);
    lemma_credential_save_key(STEAM_API_KEY_VAR@, api_key);
    assert(creds.drop_first()[0] == c1);
    assert(creds.drop_first().drop_first() =~= Seq::<Seq<char>>::empty());
    assert(replaced(c0));
    assert(replaced(c1));
    assert(kept(creds.drop_first().drop_first()) =~= Seq::<Seq<char>>::empty());
    assert(kept(creds.drop_first()) =~= Seq::<Seq<char>>::empty());
    assert(kept(creds) =~= Seq::<Seq<char>>::empty());
    assert(kept(all) + creds =~= all);
}

/// Keeping from a single line.
proof fn lemma_kept_one(l: Seq<char>)
    ensures
        kept(seq![l]) == (if replaced(l) {
            Seq::<Seq<char>>::empty()
        } else {
            seq![l]
        }),
{
    let one = seq![l];
    assert(one.drop_first() =~= Seq::<Seq<char>>::empty());
    assert(kept(one.drop_first()) == Seq::<Seq<char>>::empty());
    assert(one[0] == l);
    if !replaced(l) {
        assert(seq![l] + Seq::<Seq<char>>::empty() =~= seq![l]);
    }
}

/// Saving keeps exactly the lines of the old file that do not set a
/// credential, in their order: a line is dropped only when the trimmed
/// text before its first `=` (the whole line when it has none) is
/// `STEAM_ID` or `STEAM_API_KEY`. Blank lines, comments and every other
/// setting stay.
pub proof fn lemma_kept_lines(ls: Seq<Seq<char>>)
    ensures
        kept(ls) == ls.filter(
            |l: Seq<char>|
                trim(l.take(first_at(l, '='))) != STEAM_ID_VAR@ && trim(l.take(first_at(l, '=')))
                    != STEAM_API_KEY_VAR@,
        ),
    decreases ls.len(),
{
    let p = |l: Seq<char>|
        trim(l.take(first_at(l, '='))) != STEAM_ID_VAR@ && trim(l.take(first_at(l, '=')))
            != STEAM_API_KEY_VAR@;
    reveal(Seq::filter);
    if ls.len() > 0 {
        let l = ls.last();
        let init = ls.drop_last();
        lemma_kept_lines(init);
        assert(init + seq![l] =~= ls);
        lemma_kept_concat(init, seq![l]);
        lemma_kept_one(l);
        assert(replaced(l) == !p(l));
        if replaced(l) {
            assert(ls.filter(p) == init.filter(p));
            assert(kept(ls) =~= kept(init));
        } else {
            assert(ls.filter(p) == init.filter(p).push(l));
            assert(kept(ls) =~= kept(init).push(l));
        }
        assert(kept(ls) == ls.filter(p));
    } else {
        assert(ls =~= Seq::<Seq<char>>::empty());
        assert(kept(ls) == ls.filter(p));
    }
}

/// Stripping whitespace from a text of whitespace leaves nothing.
proof fn lemma_strip_blank(s: Seq<char>)
    requires
        forall|i: int| 0 <= i < s.len() ==> is_ws(#[trigger] s[i]),
    ensures
        strip_start(s, true, ' ') == Seq::<char>::empty(),
    decreases s.len(),
{
    if s.len() > 0 {
        assert(is_ws(s[0]));
        let t = s.drop_first();
        assert forall|i: int| 0 <= i < t.len() implies is_ws(#[trigger] t[i]) by {
            assert(t[i] == s[i + 1]);
        }
        lemma_strip_blank(t);
    } else {
        assert(s =~= Seq::<char>::empty());
    }
}

/// A line of nothing but whitespace (an empty line too) is kept when
/// saving, wherever it stands.
pub proof fn lemma_blank_line_kept(before: Seq<Seq<char>>, l: Seq<char>, after: Seq<Seq<char>>)
    requires
        forall|i: int| 0 <= i < l.len() ==> is_ws(#[trigger] l[i]),
    ensures
        kept(before + seq![l] + after) == kept(before) + seq![l] + kept(after),
{
    let k = l.take(first_at(l, '='));
    lemma_first_at(l, '=');
    assert forall|i: int| 0 <= i < k.len() implies is_ws(#[trigger] k[i]) by {
        assert(k[i] == l[i]);
    }
    lemma_strip_blank(k);
    assert(trim(k) =~= Seq::<char>::empty());
    lemma_credential_names();
    assert(!replaced(l));
    lemma_kept_concat(before + seq![l], after);
    lemma_kept_concat(before, seq![l]);
    lemma_kept_one(l);
}

/// A text that is its own strip of `c` neither starts nor ends with `c`.
proof fn lemma_strip_char_fixed_ends(v: Seq<char>, c: char)
    requires
        strip_char(v, c) == v,
        v.len() > 0,
    ensures
        v[0] != c,
        v.last() != c,
{
    lemma_strip_start_shape(v, false, c);
    let a = choose|a: int|
        #![trigger v.skip(a)]
        0 <= a <= v.len() && strip_start(v, false, c) == v.skip(a) && all_stripped(
            v.take(a),
            false,
            c,
        ) && (a < v.len() ==> !stripped(false, c, v[a]));
    let u = v.skip(a);
    lemma_strip_end_shape(u, false, c);
    let b = choose|b: int|
        #![trigger u.take(b)]
        0 <= b <= u.len() && strip_end(u, false, c) == u.take(b) && all_stripped(
            u.skip(b),
            false,
            c,
        ) && (b > 0 ==> !stripped(false, c, u[b - 1]));
    assert(u.take(b).len() == v.len());
    assert(a == 0);
    assert(u =~= v);
    assert(b == v.len());
}

/// How loading reads a line. `NAME=value` and `NAME="value"` both set
/// `NAME` to `value` (for a name with no `=`, not starting with `#` and
/// with no whitespace at either end, and a value on one line with no
/// whitespace or `"` at either end); a line whose first non-blank
/// character is `#`, and a line with no `=`, set nothing.
pub proof fn lemma_load_rules(name: Seq<char>, v: Seq<char>, blank: Seq<char>, rest: Seq<char>)
    ensures
        all_stripped(blank, true, ' ') ==> entry_of(blank + seq!['#'] + rest) is None,
        lacks(rest, '=') ==> entry_of(rest) is None,
        name.len() > 0 && lacks(name, '=') && !is_ws(name[0]) && !is_ws(name.last()) && name[0]
            != '#' && plain_value(v) ==> {
            &&& entry_of(name + seq!['='] + v) == Some((name, v))
            &&& entry_of(name + seq!['='] + seq!['"'] + v + seq!['"']) == Some((name, v))
        },
{
    if all_stripped(blank, true, ' ') {
        let x = seq!['#'] + rest;
        lemma_strip_start_prefix(blank, x, true, ' ');
        assert(!is_ws('#'));
        assert(x[0] == '#');
        assert(strip_start(x, true, ' ') == x);
        assert(blank + seq!['#'] + rest =~= blank + x);
        lemma_strip_end_shape(x, true, ' ');
        let b = choose|b: int|
            #![trigger x.take(b)]
            0 <= b <= x.len() && strip_end(x, true, ' ') == x.take(b) && all_stripped(
                x.skip(b),
                true,
                ' ',
            ) && (b > 0 ==> !stripped(true, ' ', x[b - 1]));
        if b == 0 {
            assert(stripped(true, ' ', x.skip(0)[0]));
        }
        assert(trim(blank + seq!['#'] + rest)[0] == '#');
    }
    if lacks(rest, '=') {
        lemma_strip_start_shape(rest, true, ' ');
        let a = choose|a: int|
            #![trigger rest.skip(a)]
            0 <= a <= rest.len() && strip_start(rest, true, ' ') == rest.skip(a) && all_stripped(
                rest.take(a),
                true,
                ' ',
            ) && (a < rest.len() ==> !stripped(true, ' ', rest[a]));
        let u = rest.skip(a);
        lemma_strip_end_shape(u, true, ' ');
        let b = choose|b: int|
            #![trigger u.take(b)]
            0 <= b <= u.len() && strip_end(u, true, ' ') == u.take(b) && all_stripped(
                u.skip(b),
                true,
                ' ',
            ) && (b > 0 ==> !stripped(true, ' ', u[b - 1]));
        let t = u.take(b);
        assert(t == trim(rest));
        assert forall|i: int| 0 <= i < t.len() implies t[i] != '=' by {
            assert(t[i] == rest[a + i]);
        }
        lemma_first_at_unique(t, '=', t.len() as int);
    }
    if name.len() > 0 && lacks(name, '=') && !is_ws(name[0]) && !is_ws(name.last()) && name[0]
        != '#' && plain_value(v) {
        lemma_credential_entry(name, v);
        let line = name + seq!['='] + v;
        if v.len() > 0 {
            lemma_trim_fixed_ends(v);
            assert(line.last() == v.last());
        }
        assert(strip_cr(line) == line);
        let q = seq!['"'] + v + seq!['"'];
        let qline = name + seq!['='] + q;
        assert(name + seq!['='] + seq!['"'] + v + seq!['"'] =~= qline);
        assert(qline[0] == name[0]);
        assert(qline.last() == '"');
        lemma_strip_fixed(qline, true, ' ');
        assert forall|i: int| 0 <= i < name.len() implies qline[i] != '=' by {
            assert(qline[i] == name[i]);
        }
        lemma_first_at_unique(qline, '=', name.len() as int);
        assert(qline.take(name.len() as int) =~= name);
        assert(qline.skip(name.len() as int + 1) =~= q);
        lemma_strip_fixed(name, true, ' ');
        assert(q[0] == '"');
        assert(q.last() == '"');
        lemma_strip_fixed(q, true, ' ');
        let vq = v + seq!['"'];
        assert(q.drop_first() =~= vq);
        assert(vq.drop_last() =~= v);
        assert(vq.last() == '"');
        if v.len() > 0 {
            lemma_strip_char_fixed_ends(v, '"');
            assert(vq[0] == v[0]);
            assert(strip_start(vq, false, '"') == vq);
            assert(strip_end(vq, false, '"') == strip_end(v, false, '"'));
            assert(strip_end(v, false, '"') == v);
        } else {
            assert(vq =~= seq!['"']);
            assert(vq.drop_first() =~= Seq::<char>::empty());
            assert(vq[0] == '"');
            assert(strip_start(Seq::<char>::empty(), false, '"') =~= Seq::<char>::empty());
            assert(strip_start(vq, false, '"') =~= Seq::<char>::empty());
            assert(strip_end(Seq::<char>::empty(), false, '"') =~= Seq::<char>::empty());
        }
        assert(strip_char(q, '"') == v);
    }
}

} // verus!
