//! Character-level helpers shared by the rest of the crate: decimal
//! rendering, Unicode whitespace trimming and building strings from
//! characters.

use vstd::prelude::*;
use vstd::std_specs::iter::IteratorSpec;

verus! {

/// Appends `c` to `s` (`String::push`, documented to append one character).
#[verifier::external_body]
pub(crate) fn push_char(s: &mut String, c: char)
    ensures
        final(s)@ == old(s)@.push(c),
{
    s.push(c);
}

/// The ASCII digit for a value below ten.
pub open spec fn digit_char(d: nat) -> char {
    (d + 48) as char
}

/// The decimal rendering of `n`, without leading zeros.
pub open spec fn decimal(n: nat) -> Seq<char>
    decreases n,
{
    if n < 10 {
        seq![digit_char(n)]
    } else {
        decimal(n / 10).push(digit_char(n % 10))
    }
}

/// Appends the decimal rendering of `n` to `out`.
pub fn push_decimal(out: &mut String, n: u64)
    ensures
        final(out)@ == old(out)@ + decimal(n as nat),
    decreases n,
{
    if n >= 10 {
        push_decimal(out, n / 10);
    }
    let d: u8 = (n % 10) as u8;
    let c: char = (d + 48u8) as char;
    push_char(out, c);
    assert(old(out)@ + decimal(n as nat) =~= out@);
}


/// The characters of `s`, in order.
pub fn chars_of(s: &str) -> (v: Vec<char>)
    ensures
        v@ == s@,
{
    broadcast use vstd::string::group_string_axioms;

    let mut v: Vec<char> = Vec::new();
    let mut it = s.chars();
    loop
        invariant
            v@ + it.remaining() == s@,
            it.decrease() is Some,
        ensures
            v@ == s@,
        decreases it.decrease()->0,
    {
        let ghost before = it.remaining();
        match it.next() {
            Some(c) => {
                v.push(c);
                assert(v@ + it.remaining() =~= s@) by {
                    assert(before =~= seq![c] + it.remaining());
                }
            },
            None => {
                assert(v@ =~= s@);
                break ;
            },
        }
    }
    v
}

/// The string made of the characters `v[from..to]`.
pub fn string_of(v: &[char], from: usize, to: usize) -> (s: String)
    requires
        from <= to <= v@.len(),
    ensures
        s@ == v@.subrange(from as int, to as int),
{
    let mut s = String::new();
    let mut i = from;
    while i < to
        invariant
            from <= i <= to <= v@.len(),
            s@ == v@.subrange(from as int, i as int),
        decreases to - i,
    {
        push_char(&mut s, v[i]);
        i += 1;
        assert(s@ =~= v@.subrange(from as int, i as int));
    }
    s
}

/// A character with the Unicode `White_Space` property, the set that
/// `str::trim` removes.
pub open spec fn is_ws(c: char) -> bool {
    ||| '\u{9}' <= c <= '\u{d}'
    ||| c == ' '
    ||| c == '\u{85}'
    ||| c == '\u{a0}'
    ||| c == '\u{1680}'
    ||| '\u{2000}' <= c <= '\u{200a}'
    ||| c == '\u{2028}'
    ||| c == '\u{2029}'
    ||| c == '\u{202f}'
    ||| c == '\u{205f}'
    ||| c == '\u{3000}'
}

/// Whether `c` is Unicode whitespace.
pub fn is_whitespace(c: char) -> (b: bool)
    ensures
        b == is_ws(c),
{
    ('\u{9}' <= c && c <= '\u{d}') || c == ' ' || c == '\u{85}' || c == '\u{a0}' || c
        == '\u{1680}' || ('\u{2000}' <= c && c <= '\u{200a}') || c == '\u{2028}' || c
        == '\u{2029}' || c == '\u{202f}' || c == '\u{205f}' || c == '\u{3000}'
}

/// The characters that a strip removes: Unicode whitespace when `ws`,
/// otherwise exactly the character `c`.
pub open spec fn stripped(ws: bool, c: char, x: char) -> bool {
    if ws {
        is_ws(x)
    } else {
        x == c
    }
}

/// `s` without its leading stripped characters.
pub open spec fn strip_start(s: Seq<char>, ws: bool, c: char) -> Seq<char>
    decreases s.len(),
{
    if s.len() > 0 && stripped(ws, c, s[0]) {
        strip_start(s.drop_first(), ws, c)
    } else {
        s
    }
}

/// `s` without its trailing stripped characters.
pub open spec fn strip_end(s: Seq<char>, ws: bool, c: char) -> Seq<char>
    decreases s.len(),
{
    if s.len() > 0 && stripped(ws, c, s.last()) {
        strip_end(s.drop_last(), ws, c)
    } else {
        s
    }
}

/// `str::trim`: both ends stripped of Unicode whitespace.
pub open spec fn trim(s: Seq<char>) -> Seq<char> {
    strip_end(strip_start(s, true, ' '), true, ' ')
}

/// `str::trim_matches(c)` for one character `c`: both ends stripped of `c`.
pub open spec fn strip_char(s: Seq<char>, c: char) -> Seq<char> {
    strip_end(strip_start(s, false, c), false, c)
}

/// Stripping from the start of `s.skip(i)` when `s[i]` is stripped.
proof fn lemma_strip_start_step(s: Seq<char>, i: int, ws: bool, c: char)
    requires
        0 <= i < s.len(),
        stripped(ws, c, s[i]),
    ensures
        strip_start(s.skip(i), ws, c) == strip_start(s.skip(i + 1), ws, c),
{
    assert(s.skip(i).drop_first() =~= s.skip(i + 1));
}

/// Stripping from the end of `s.take(j)` when `s[j - 1]` is stripped.
proof fn lemma_strip_end_step(s: Seq<char>, j: int, ws: bool, c: char)
    requires
        0 < j <= s.len(),
        stripped(ws, c, s[j - 1]),
    ensures
        strip_end(s.take(j), ws, c) == strip_end(s.take(j - 1), ws, c),
{
    assert(s.take(j).drop_last() =~= s.take(j - 1));
}

/// Whether `x` is removed: whitespace when `ws`, else the character `c`.
fn strips(ws: bool, c: char, x: char) -> (b: bool)
    ensures
        b == stripped(ws, c, x),
{
    if ws {
        is_whitespace(x)
    } else {
        x == c
    }
}

/// The bounds `[a, b)` of `v` that remain once leading and trailing
/// characters are removed: whitespace when `ws`, else `c`.
fn strip_bounds(v: &[char], a0: usize, b0: usize, ws: bool, c: char) -> (r: (usize, usize))
    requires
        a0 <= b0 <= v@.len(),
    ensures
        a0 <= r.0 <= r.1 <= b0,
        v@.subrange(r.0 as int, r.1 as int) == strip_end(
            strip_start(v@.subrange(a0 as int, b0 as int), ws, c),
            ws,
            c,
        ),
{
    let ghost s = v@.subrange(a0 as int, b0 as int);
    let mut a = a0;
    assert(s.skip(0) =~= s);
    while a < b0 && strips(ws, c, v[a])
        invariant
            a0 <= a <= b0 <= v@.len(),
            s == v@.subrange(a0 as int, b0 as int),
            strip_start(s, ws, c) == strip_start(s.skip(a - a0), ws, c),
        decreases b0 - a,
    {
        proof {
            lemma_strip_start_step(s, a - a0, ws, c);
        }
        a += 1;
    }
    let ghost t = s.skip(a - a0);
    assert(strip_start(s, ws, c) == t) by {
        if a < b0 {
            assert(!stripped(ws, c, t[0]));
        }
    }
    let mut b = b0;
    assert(t.take(t.len() as int) =~= t);
    while b > a && strips(ws, c, v[b - 1])
        invariant
            a0 <= a <= b <= b0 <= v@.len(),
            t == v@.subrange(a as int, b0 as int),
            strip_end(t, ws, c) == strip_end(t.take(b - a), ws, c),
        decreases b - a,
    {
        proof {
            lemma_strip_end_step(t, b - a, ws, c);
        }
        b -= 1;
    }
    assert(t.take(b - a) =~= v@.subrange(a as int, b as int));
    assert(strip_end(t, ws, c) == v@.subrange(a as int, b as int)) by {
        if b > a {
            assert(!stripped(ws, c, t.take(b - a).last()));
        }
    }
    (a, b)
}

/// `v[from..to]` with Unicode whitespace removed from both ends.
pub fn trim_range(v: &[char], from: usize, to: usize) -> (r: (usize, usize))
    requires
        from <= to <= v@.len(),
    ensures
        from <= r.0 <= r.1 <= to,
        v@.subrange(r.0 as int, r.1 as int) == trim(v@.subrange(from as int, to as int)),
{
    strip_bounds(v, from, to, true, ' ')
}

/// `v[from..to]` with the character `c` removed from both ends.
pub fn strip_char_range(v: &[char], from: usize, to: usize, c: char) -> (r: (usize, usize))
    requires
        from <= to <= v@.len(),
    ensures
        from <= r.0 <= r.1 <= to,
        v@.subrange(r.0 as int, r.1 as int) == strip_char(v@.subrange(from as int, to as int), c),
{
    strip_bounds(v, from, to, false, c)
}


/// Whether `a` and `b` hold the same characters.
pub fn str_eq(a: &str, b: &str) -> (r: bool)
    ensures
        r == (a@ == b@),
{
    let x = chars_of(a);
    let y = chars_of(b);
    if x.len() != y.len() {
        return false;
    }
    let mut i: usize = 0;
    while i < x.len()
        invariant
            x@ == a@,
            y@ == b@,
            x@.len() == y@.len(),
            i <= x@.len(),
            x@.take(i as int) == y@.take(i as int),
        decreases x.len() - i,
    {
        if x[i] != y[i] {
            assert(x@[i as int] != y@[i as int]);
            return false;
        }
        assert(x@.take(i + 1) =~= x@.take(i as int).push(x@[i as int]));
        assert(y@.take(i + 1) =~= y@.take(i as int).push(y@[i as int]));
        i += 1;
    }
    assert(x@ =~= x@.take(i as int));
    assert(y@ =~= y@.take(i as int));
    true
}

/// `needle` occurs in `hay` at position `i`.
pub open spec fn occurs_at(hay: Seq<char>, needle: Seq<char>, i: int) -> bool {
    0 <= i && i + needle.len() <= hay.len() && hay.subrange(i, i + needle.len()) == needle
}

/// `needle` occurs somewhere in `hay` (`str::contains`).
pub open spec fn contains_seq(hay: Seq<char>, needle: Seq<char>) -> bool {
    exists|i: int| occurs_at(hay, needle, i)
}

/// Whether `needle` occurs in `hay` at position `i`.
fn matches_at(hay: &Vec<char>, needle: &Vec<char>, i: usize) -> (r: bool)
    requires
        i + needle@.len() <= hay@.len(),
    ensures
        r == occurs_at(hay@, needle@, i as int),
{
    let hl = hay.len();
    let mut j: usize = 0;
    while j < needle.len()
        invariant
            hl == hay@.len(),
            i + needle@.len() <= hay@.len(),
            j <= needle@.len(),
            forall|k: int| 0 <= k < j ==> hay@[i + k] == needle@[k],
        decreases needle.len() - j,
    {
        if hay[i + j] != needle[j] {
            assert(hay@.subrange(i as int, i + needle@.len())[j as int] != needle@[j as int]);
            return false;
        }
        j += 1;
    }
    assert(hay@.subrange(i as int, i + needle@.len()) =~= needle@);
    true
}

/// Whether `needle` occurs in `hay`.
pub fn contains_str(hay: &str, needle: &str) -> (r: bool)
    ensures
        r == contains_seq(hay@, needle@),
{
    let h = chars_of(hay);
    let n = chars_of(needle);
    if n.len() > h.len() {
        assert(!contains_seq(hay@, needle@));
        return false;
    }
    if n.len() == 0 {
        assert(h@.subrange(0, 0) =~= n@);
        assert(occurs_at(h@, n@, 0));
        return true;
    }
    let hl = h.len();
    let last = hl - n.len();
    let mut i: usize = 0;
    while i <= last
        invariant
            last + n@.len() == h@.len(),
            hl == h@.len(),
            n@.len() >= 1,
            h@ == hay@,
            n@ == needle@,
            forall|k: int| 0 <= k < i ==> !occurs_at(h@, n@, k),
        decreases last + 1 - i,
    {
        if matches_at(&h, &n, i) {
            return true;
        }
        i += 1;
    }
    assert forall|k: int| !occurs_at(h@, n@, k) by {
        if 0 <= k && k + n@.len() <= h@.len() {
            assert(k < i);
        }
    }
    false
}


/// The index of the first `c` in `s`, or `s.len()` when there is none.
pub open spec fn first_at(s: Seq<char>, c: char) -> int
    decreases s.len(),
{
    if s.len() == 0 {
        0
    } else if s[0] == c {
        0
    } else {
        1 + first_at(s.drop_first(), c)
    }
}

/// `first_at` is the position of the first `c`, or the end.
pub proof fn lemma_first_at(s: Seq<char>, c: char)
    ensures
        0 <= first_at(s, c) <= s.len(),
        forall|i: int| 0 <= i < first_at(s, c) ==> s[i] != c,
        first_at(s, c) < s.len() ==> s[first_at(s, c)] == c,
    decreases s.len(),
{
    if s.len() > 0 && s[0] != c {
        lemma_first_at(s.drop_first(), c);
        assert forall|i: int| 0 <= i < first_at(s, c) implies s[i] != c by {
            if i > 0 {
                assert(s[i] == s.drop_first()[i - 1]);
            }
        }
    }
}

/// The position of the first `c` is the only one with nothing but other
/// characters before it.
pub proof fn lemma_first_at_unique(s: Seq<char>, c: char, r: int)
    requires
        0 <= r <= s.len(),
        forall|i: int| 0 <= i < r ==> s[i] != c,
        r < s.len() ==> s[r] == c,
    ensures
        first_at(s, c) == r,
{
    lemma_first_at(s, c);
    let f = first_at(s, c);
    if f < r {
        assert(s[f] == c);
    } else if r < f {
        assert(s[r] != c);
    }
}

/// The position of the first `c` in `v[from..to]`, counted from `from`,
/// or `to` when there is none.
pub fn find_char(v: &[char], from: usize, to: usize, c: char) -> (j: usize)
    requires
        from <= to <= v@.len(),
    ensures
        from <= j <= to,
        j - from == first_at(v@.subrange(from as int, to as int), c),
{
    let mut j = from;
    while j < to && v[j] != c
        invariant
            from <= j <= to <= v@.len(),
            forall|i: int| from <= i < j ==> v@[i] != c,
        decreases to - j,
    {
        j += 1;
    }
    proof {
        let s = v@.subrange(from as int, to as int);
        assert forall|i: int| 0 <= i < j - from implies s[i] != c by {
            assert(s[i] == v@[from + i]);
        }
        if j < to {
            assert(s[j - from] == v@[j as int]);
        }
        lemma_first_at_unique(s, c, j - from);
    }
    j
}

/// Every character of `s` is stripped.
pub open spec fn all_stripped(s: Seq<char>, ws: bool, c: char) -> bool {
    forall|i: int| 0 <= i < s.len() ==> #[trigger] stripped(ws, c, s[i])
}

/// Stripping the start removes a prefix of stripped characters, and stops
/// at a character that is kept.
pub proof fn lemma_strip_start_shape(s: Seq<char>, ws: bool, c: char)
    ensures
        exists|a: int|
            #![trigger s.skip(a)]
            0 <= a <= s.len() && strip_start(s, ws, c) == s.skip(a) && all_stripped(
                s.take(a),
                ws,
                c,
            ) && (a < s.len() ==> !stripped(ws, c, s[a])),
    decreases s.len(),
{
    if s.len() > 0 && stripped(ws, c, s[0]) {
        lemma_strip_start_shape(s.drop_first(), ws, c);
        let t = s.drop_first();
        let a = choose|a: int|
            #![trigger t.skip(a)]
            0 <= a <= t.len() && strip_start(t, ws, c) == t.skip(a) && all_stripped(
                t.take(a),
                ws,
                c,
            ) && (a < t.len() ==> !stripped(ws, c, t[a]));
        assert(t.skip(a) =~= s.skip(a + 1));
        assert forall|i: int| 0 <= i < s.take(a + 1).len() implies #[trigger] stripped(
            ws,
            c,
            s.take(a + 1)[i],
        ) by {
            if i > 0 {
                assert(s.take(a + 1)[i] == t.take(a)[i - 1]);
            }
        }
    } else {
        assert(s.skip(0) =~= s);
    }
}

/// Stripping the end removes a suffix of stripped characters, and stops at
/// a character that is kept.
pub proof fn lemma_strip_end_shape(s: Seq<char>, ws: bool, c: char)
    ensures
        exists|b: int|
            #![trigger s.take(b)]
            0 <= b <= s.len() && strip_end(s, ws, c) == s.take(b) && all_stripped(
                s.skip(b),
                ws,
                c,
            ) && (b > 0 ==> !stripped(ws, c, s[b - 1])),
    decreases s.len(),
{
    if s.len() > 0 && stripped(ws, c, s.last()) {
        lemma_strip_end_shape(s.drop_last(), ws, c);
        let t = s.drop_last();
        let b = choose|b: int|
            #![trigger t.take(b)]
            0 <= b <= t.len() && strip_end(t, ws, c) == t.take(b) && all_stripped(
                t.skip(b),
                ws,
                c,
            ) && (b > 0 ==> !stripped(ws, c, t[b - 1]));
        assert(t.take(b) =~= s.take(b));
        assert forall|i: int| 0 <= i < s.skip(b).len() implies #[trigger] stripped(
            ws,
            c,
            s.skip(b)[i],
        ) by {
            if i < s.skip(b).len() - 1 {
                assert(s.skip(b)[i] == t.skip(b)[i]);
            }
        }
    } else {
        assert(s.take(s.len() as int) =~= s);
    }
}

/// Stripped characters in front do not change what stripping the start
/// leaves.
pub proof fn lemma_strip_start_prefix(w: Seq<char>, x: Seq<char>, ws: bool, c: char)
    requires
        all_stripped(w, ws, c),
    ensures
        strip_start(w + x, ws, c) == strip_start(x, ws, c),
    decreases w.len(),
{
    if w.len() > 0 {
        assert(stripped(ws, c, w[0]));
        assert((w + x)[0] == w[0]);
        assert((w + x).drop_first() =~= w.drop_first() + x);
        assert forall|i: int| 0 <= i < w.drop_first().len() implies #[trigger] stripped(
            ws,
            c,
            w.drop_first()[i],
        ) by {
            assert(w.drop_first()[i] == w[i + 1]);
        }
        lemma_strip_start_prefix(w.drop_first(), x, ws, c);
    } else {
        assert(w + x =~= x);
    }
}

/// A sequence whose ends are kept is its own strip.
pub proof fn lemma_strip_fixed(s: Seq<char>, ws: bool, c: char)
    requires
        s.len() > 0 ==> !stripped(ws, c, s[0]) && !stripped(ws, c, s.last()),
    ensures
        strip_end(strip_start(s, ws, c), ws, c) == s,
{
}

/// `trim(v) == v` means both ends of `v` are kept characters.
pub proof fn lemma_trim_fixed_ends(v: Seq<char>)
    requires
        trim(v) == v,
        v.len() > 0,
    ensures
        !is_ws(v[0]),
        !is_ws(v.last()),
{
    lemma_strip_start_shape(v, true, ' ');
    let a = choose|a: int|
        #![trigger v.skip(a)]
        0 <= a <= v.len() && strip_start(v, true, ' ') == v.skip(a) && all_stripped(
            v.take(a),
            true,
            ' ',
        ) && (a < v.len() ==> !stripped(true, ' ', v[a]));
    let u = v.skip(a);
    lemma_strip_end_shape(u, true, ' ');
    let b = choose|b: int|
        #![trigger u.take(b)]
        0 <= b <= u.len() && strip_end(u, true, ' ') == u.take(b) && all_stripped(
            u.skip(b),
            true,
            ' ',
        ) && (b > 0 ==> !stripped(true, ' ', u[b - 1]));
    assert(u.take(b).len() == v.len());
    assert(a == 0);
    assert(u =~= v);
    assert(b == v.len());
}

} // verus!
