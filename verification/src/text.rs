//! Character-level text utilities shared by the compiler: trimming, line
//! splitting, prefix tests and lexicographic order, all over `Seq<char>`.
use vstd::prelude::*;

verus! {

// ---------------------------------------------------------------------------
// Specifications
// ---------------------------------------------------------------------------

/// Unicode `White_Space`, the set that `char::is_whitespace` and `str::trim` use.
pub open spec fn is_ws(c: char) -> bool {
    ||| ('\u{9}' <= c && c <= '\u{D}')
    ||| c == ' '
    ||| c == '\u{85}'
    ||| c == '\u{A0}'
    ||| c == '\u{1680}'
    ||| ('\u{2000}' <= c && c <= '\u{200A}')
    ||| c == '\u{2028}'
    ||| c == '\u{2029}'
    ||| c == '\u{202F}'
    ||| c == '\u{205F}'
    ||| c == '\u{3000}'
}

/// ASCII whitespace as `u8::is_ascii_whitespace` defines it.
pub open spec fn is_ascii_ws_byte(b: u8) -> bool {
    b == 0x20u8 || b == 0x09u8 || b == 0x0Au8 || b == 0x0Cu8 || b == 0x0Du8
}

/// Number of leading characters of `s` that satisfy `is_ws`.
pub open spec fn lead_ws(s: Seq<char>) -> nat
    decreases s.len(),
{
    if s.len() == 0 || !is_ws(s[0]) {
        0
    } else {
        1 + lead_ws(s.drop_first())
    }
}

/// Number of trailing characters of `s` that satisfy `is_ws`.
pub open spec fn trail_ws(s: Seq<char>) -> nat
    decreases s.len(),
{
    if s.len() == 0 || !is_ws(s.last()) {
        0
    } else {
        1 + trail_ws(s.drop_last())
    }
}

pub open spec fn trim_start(s: Seq<char>) -> Seq<char> {
    s.skip(lead_ws(s) as int)
}

pub open spec fn trim_end(s: Seq<char>) -> Seq<char> {
    s.take(s.len() - trail_ws(s))
}

/// `str::trim`: both ends stripped of Unicode whitespace.
pub open spec fn trim(s: Seq<char>) -> Seq<char> {
    trim_end(trim_start(s))
}

pub open spec fn starts_with(s: Seq<char>, p: Seq<char>) -> bool {
    p.is_prefix_of(s)
}

pub open spec fn ends_with(s: Seq<char>, p: Seq<char>) -> bool {
    p.is_suffix_of(s)
}

/// `p` occurs somewhere inside `s`.
pub open spec fn contains_sub(s: Seq<char>, p: Seq<char>) -> bool {
    exists|i: int| 0 <= i <= s.len() - p.len() && #[trigger] s.subrange(i, i + p.len()) == p
}

/// Index of the first `'\n'` in `s`, or `s.len()` when there is none.
pub open spec fn first_newline(s: Seq<char>) -> nat
    decreases s.len(),
{
    if s.len() == 0 {
        0
    } else if s[0] == '\n' {
        0
    } else {
        1 + first_newline(s.drop_first())
    }
}

/// A line as `str::lines` yields it: a trailing `'\r'` is dropped when it stood
/// before the `'\n'` that ended the line.
pub open spec fn strip_cr(line: Seq<char>) -> Seq<char> {
    if line.len() > 0 && line.last() == '\r' {
        line.drop_last()
    } else {
        line
    }
}

/// `str::lines`: split at `"\n"` or `"\r\n"`; a final line ending is optional.
pub open spec fn lines_of(s: Seq<char>) -> Seq<Seq<char>>
    decreases s.len(),
{
    if s.len() == 0 {
        seq![]
    } else {
        let i = first_newline(s) as int;
        if i >= s.len() {
            seq![s]
        } else {
            seq![strip_cr(s.take(i))] + lines_of(s.skip(i + 1))
        }
    }
}

/// `[..].join(sep)` for a sequence of strings.
pub open spec fn join_with(ls: Seq<Seq<char>>, sep: Seq<char>) -> Seq<char>
    decreases ls.len(),
{
    if ls.len() == 0 {
        seq![]
    } else if ls.len() == 1 {
        ls[0]
    } else {
        join_with(ls.drop_last(), sep) + sep + ls.last()
    }
}

pub open spec fn ascii_lower(c: char) -> char {
    if 'A' <= c && c <= 'Z' {
        ((c as u32) + 32) as char
    } else {
        c
    }
}

pub open spec fn ascii_upper(c: char) -> char {
    if 'a' <= c && c <= 'z' {
        ((c as u32) - 32) as char
    } else {
        c
    }
}

pub open spec fn lower_seq(s: Seq<char>) -> Seq<char> {
    Seq::new(s.len(), |i: int| ascii_lower(s[i]))
}

pub open spec fn upper_seq(s: Seq<char>) -> Seq<char> {
    Seq::new(s.len(), |i: int| ascii_upper(s[i]))
}

/// `str::eq_ignore_ascii_case`.
pub open spec fn eq_ignore_case(a: Seq<char>, b: Seq<char>) -> bool {
    lower_seq(a) == lower_seq(b)
}

/// Strict lexicographic order on code points, the order of `str` and `String`.
pub open spec fn str_lt(a: Seq<char>, b: Seq<char>) -> bool
    decreases a.len(),
{
    if b.len() == 0 {
        false
    } else if a.len() == 0 {
        true
    } else if a[0] != b[0] {
        a[0] < b[0]
    } else {
        str_lt(a.drop_first(), b.drop_first())
    }
}

pub open spec fn str_le(a: Seq<char>, b: Seq<char>) -> bool {
    a == b || str_lt(a, b)
}

/// `s` with every `from` replaced by `to`.
pub open spec fn replace_char(s: Seq<char>, from: char, to: char) -> Seq<char> {
    Seq::new(s.len(), |i: int| if s[i] == from { to } else { s[i] })
}

// ---------------------------------------------------------------------------
// Lemmas
// ---------------------------------------------------------------------------

pub proof fn lemma_lead_ws(s: Seq<char>, k: int)
    requires
        0 <= k <= s.len(),
        forall|j: int| 0 <= j < k ==> is_ws(#[trigger] s[j]),
        k == s.len() || !is_ws(s[k]),
    ensures
        lead_ws(s) == k,
    decreases k,
{
    if k > 0 {
        lemma_lead_ws(s.drop_first(), k - 1);
    }
}

pub proof fn lemma_trail_ws(s: Seq<char>, k: int)
    requires
        0 <= k <= s.len(),
        forall|j: int| s.len() - k <= j < s.len() ==> is_ws(#[trigger] s[j]),
        k == s.len() || !is_ws(s[s.len() - k - 1]),
    ensures
        trail_ws(s) == k,
    decreases k,
{
    if k > 0 {
        lemma_trail_ws(s.drop_last(), k - 1);
    }
}

pub proof fn lemma_lead_ws_bound(s: Seq<char>)
    ensures
        lead_ws(s) <= s.len(),
        forall|j: int| 0 <= j < lead_ws(s) ==> is_ws(#[trigger] s[j]),
        lead_ws(s) == s.len() || !is_ws(s[lead_ws(s) as int]),
    decreases s.len(),
{
    if s.len() > 0 && is_ws(s[0]) {
        lemma_lead_ws_bound(s.drop_first());
        assert forall|j: int| 0 <= j < lead_ws(s) implies is_ws(#[trigger] s[j]) by {
            if j > 0 {
                assert(s[j] == s.drop_first()[j - 1]);
            }
        }
    }
}

pub proof fn lemma_trail_ws_bound(s: Seq<char>)
    ensures
        trail_ws(s) <= s.len(),
    decreases s.len(),
{
    if s.len() > 0 && is_ws(s.last()) {
        lemma_trail_ws_bound(s.drop_last());
    }
}

pub proof fn lemma_first_newline(s: Seq<char>, k: int)
    requires
        0 <= k <= s.len(),
        forall|j: int| 0 <= j < k ==> #[trigger] s[j] != '\n',
        k == s.len() || s[k] == '\n',
    ensures
        first_newline(s) == k,
    decreases k,
{
    if k > 0 {
        lemma_first_newline(s.drop_first(), k - 1);
    }
}

pub proof fn lemma_str_lt_irreflexive(a: Seq<char>)
    ensures
        !str_lt(a, a),
    decreases a.len(),
{
    if a.len() > 0 {
        lemma_str_lt_irreflexive(a.drop_first());
    }
}

pub proof fn lemma_str_lt_trans(a: Seq<char>, b: Seq<char>, c: Seq<char>)
    requires
        str_lt(a, b),
        str_lt(b, c),
    ensures
        str_lt(a, c),
    decreases a.len(),
{
    if a.len() > 0 && b.len() > 0 && c.len() > 0 && a[0] == b[0] && b[0] == c[0] {
        lemma_str_lt_trans(a.drop_first(), b.drop_first(), c.drop_first());
    }
}

pub proof fn lemma_str_lt_total(a: Seq<char>, b: Seq<char>)
    ensures
        a == b || str_lt(a, b) || str_lt(b, a),
    decreases a.len(),
{
    if a.len() > 0 && b.len() > 0 && a[0] == b[0] {
        lemma_str_lt_total(a.drop_first(), b.drop_first());
        if a.drop_first() == b.drop_first() {
            assert(a =~= seq![a[0]] + a.drop_first());
            assert(b =~= seq![b[0]] + b.drop_first());
        }
    } else if a.len() == 0 && b.len() == 0 {
        assert(a =~= b);
    }
}

pub proof fn lemma_str_lt_asym(a: Seq<char>, b: Seq<char>)
    requires
        str_lt(a, b),
    ensures
        !str_lt(b, a),
        a != b,
    decreases a.len(),
{
    if a.len() > 0 && b.len() > 0 && a[0] == b[0] {
        lemma_str_lt_asym(a.drop_first(), b.drop_first());
    }
    if a == b {
        lemma_str_lt_irreflexive(a);
    }
}

pub proof fn lemma_join_push(ls: Seq<Seq<char>>, sep: Seq<char>, l: Seq<char>)
    ensures
        join_with(ls.push(l), sep) == if ls.len() == 0 {
            l
        } else {
            join_with(ls, sep) + sep + l
        },
{
    assert(ls.push(l).drop_last() =~= ls);
}

/// A line of text: no line break and no carriage return.
pub open spec fn plain_line(l: Seq<char>) -> bool {
    forall|i: int| 0 <= i < l.len() ==> #[trigger] l[i] != '\n' && l[i] != '\r'
}

pub proof fn lemma_join_front(ls: Seq<Seq<char>>, sep: Seq<char>)
    requires
        ls.len() >= 2,
    ensures
        join_with(ls, sep) == ls[0] + sep + join_with(ls.drop_first(), sep),
    decreases ls.len(),
{
    let dl = ls.drop_last();
    let df = ls.drop_first();
    if ls.len() == 2 {
        assert(dl.len() == 1 && dl[0] == ls[0]);
        assert(join_with(dl, sep) == ls[0]);
        assert(df.len() == 1 && df[0] == ls[1]);
        assert(join_with(df, sep) == ls[1]);
    } else {
        lemma_join_front(dl, sep);
        assert(dl.drop_first() =~= df.drop_last());
        assert(df.last() == ls.last());
        assert(dl[0] == ls[0]);
        assert(join_with(df, sep) == join_with(df.drop_last(), sep) + sep + df.last());
        assert(join_with(ls, sep) =~= ls[0] + sep + (join_with(df.drop_last(), sep) + sep + df.last()));
    }
}

/// Lines joined with `"\n"` are read back as those lines, when none holds a
/// line break or carriage return and the last is not empty.
pub proof fn lemma_lines_of_join(ls: Seq<Seq<char>>)
    requires
        forall|i: int| 0 <= i < ls.len() ==> plain_line(#[trigger] ls[i]),
        ls.len() > 0 ==> ls.last().len() > 0,
    ensures
        lines_of(join_with(ls, "\n"@)) == ls,
    decreases ls.len(),
{
    reveal_strlit("\n");
    if ls.len() == 1 {
        let l = ls[0];
        assert(plain_line(l));
        lemma_first_newline(l, l.len() as int);
        assert(lines_of(l) =~= seq![l]);
        assert(ls =~= seq![l]);
    } else if ls.len() >= 2 {
        let d = ls.drop_first();
        assert forall|i: int| 0 <= i < d.len() implies plain_line(#[trigger] d[i]) by {
            assert(d[i] == ls[i + 1]);
        }
        lemma_lines_of_join(d);
        lemma_join_front(ls, "\n"@);
        let l = ls[0];
        assert(plain_line(l));
        let rest = join_with(d, "\n"@);
        let j = l + "\n"@ + rest;
        assert forall|x: int| 0 <= x < l.len() implies #[trigger] j[x] != '\n' by {
            assert(j[x] == l[x]);
        }
        assert(j[l.len() as int] == '\n');
        lemma_first_newline(j, l.len() as int);
        assert(j.take(l.len() as int) =~= l);
        assert(j.skip((l.len() + 1) as int) =~= rest);
        if l.len() > 0 {
            assert(l.last() != '\r');
        }
        assert(strip_cr(l) == l);
        assert(lines_of(j) =~= seq![l] + d);
        assert(ls =~= seq![l] + d);
    }
}

/// The lines of a text without carriage returns are plain lines, and the
/// last is not empty unless the text ends in an empty line.
pub proof fn lemma_lines_plain(s: Seq<char>)
    requires
        !s.contains('\r'),
        !("\n\n"@.is_suffix_of(s)),
        s != seq!['\n'],
    ensures
        forall|i: int| 0 <= i < lines_of(s).len() ==> plain_line(#[trigger] lines_of(s)[i]),
        lines_of(s).len() > 0 ==> lines_of(s).last().len() > 0,
    decreases s.len(),
{
    reveal_strlit("\n\n");
    if s.len() > 0 {
        let i = first_newline(s) as int;
        lemma_first_newline_props(s);
        if i >= s.len() {
            assert forall|x: int| 0 <= x < s.len() implies #[trigger] s[x] != '\n' && s[x] != '\r' by {
                if s[x] == '\r' {
                    assert(s.contains('\r'));
                }
            }
            assert(lines_of(s) =~= seq![s]);
        } else {
            let rest = s.skip(i + 1);
            let head = s.take(i);
            assert(!rest.contains('\r')) by {
                if rest.contains('\r') {
                    let x = choose|x: int| 0 <= x < rest.len() && rest[x] == '\r';
                    assert(s[i + 1 + x] == '\r');
                    assert(s.contains('\r'));
                }
            }
            assert(!("\n\n"@.is_suffix_of(rest))) by {
                if "\n\n"@.is_suffix_of(rest) {
                    assert(s.subrange(s.len() - 2, s.len() as int) =~= rest.subrange(
                        rest.len() - 2,
                        rest.len() as int,
                    ));
                }
            }
            assert(rest != seq!['\n']) by {
                if rest == seq!['\n'] {
                    assert(s.len() == i + 2);
                    assert(s[i + 1] == rest[0]);
                    assert(s.subrange(s.len() - 2, s.len() as int) =~= "\n\n"@);
                    assert("\n\n"@.is_suffix_of(s));
                }
            }
            lemma_lines_plain(rest);
            assert(plain_line(head)) by {
                assert forall|x: int| 0 <= x < head.len() implies #[trigger] head[x] != '\n' && head[x] != '\r' by {
                    assert(head[x] == s[x]);
                    if s[x] == '\r' {
                        assert(s.contains('\r'));
                    }
                }
            }
            if head.len() > 0 {
                assert(head.last() != '\r');
            }
            assert(strip_cr(head) == head);
            let ls = lines_of(s);
            assert(ls == seq![head] + lines_of(rest));
            assert forall|x: int| 0 <= x < ls.len() implies plain_line(#[trigger] ls[x]) by {
                if x > 0 {
                    assert(ls[x] == lines_of(rest)[x - 1]);
                }
            }
            if lines_of(rest).len() == 0 {
                assert(rest.len() == 0);
                assert(head.len() > 0) by {
                    if head.len() == 0 {
                        assert(s =~= seq!['\n']);
                    }
                }
            }
        }
    }
}

pub proof fn lemma_first_newline_props(s: Seq<char>)
    ensures
        first_newline(s) <= s.len(),
        forall|j: int| 0 <= j < first_newline(s) ==> #[trigger] s[j] != '\n',
        first_newline(s) < s.len() ==> s[first_newline(s) as int] == '\n',
    decreases s.len(),
{
    if s.len() > 0 && s[0] != '\n' {
        lemma_first_newline_props(s.drop_first());
        assert forall|j: int| 0 <= j < first_newline(s) implies #[trigger] s[j] != '\n' by {
            if j > 0 {
                assert(s[j] == s.drop_first()[j - 1]);
            }
        }
    }
}

/// A text without line breaks that occurs in a text occurs in one of its lines.
pub proof fn lemma_line_with(s: Seq<char>, p: Seq<char>) -> (k: int)
    requires
        contains_sub(s, p),
        p.len() > 0,
        !p.contains('\n'),
        !s.contains('\r'),
    ensures
        0 <= k < lines_of(s).len(),
        contains_sub(lines_of(s)[k], p),
    decreases s.len(),
{
    let m = p.len() as int;
    let q = choose|q: int| 0 <= q <= s.len() - m && #[trigger] s.subrange(q, q + m) == p;
    let i = first_newline(s) as int;
    lemma_first_newline_props(s);
    if i >= s.len() {
        assert(lines_of(s) =~= seq![s]);
        assert(lines_of(s)[0].subrange(q, q + m) == p);
        0
    } else {
        let head = s.take(i);
        let rest = s.skip(i + 1);
        if head.len() > 0 {
            assert(head.last() == s[i - 1]);
            if s[i - 1] == '\r' {
                assert(s.contains('\r'));
            }
        }
        assert(strip_cr(head) == head);
        assert(lines_of(s) == seq![head] + lines_of(rest));
        if q + m <= i {
            assert(head.subrange(q, q + m) =~= s.subrange(q, q + m));
            assert(lines_of(s)[0] == head);
            0
        } else if q > i {
            assert(rest.subrange(q - i - 1, q - i - 1 + m) =~= s.subrange(q, q + m));
            assert(contains_sub(rest, p));
            assert(!rest.contains('\r')) by {
                if rest.contains('\r') {
                    let x = choose|x: int| 0 <= x < rest.len() && rest[x] == '\r';
                    assert(s[i + 1 + x] == '\r');
                    assert(s.contains('\r'));
                }
            }
            let k2 = lemma_line_with(rest, p);
            assert(lines_of(s)[k2 + 1] == lines_of(rest)[k2]);
            k2 + 1
        } else {
            assert(p[i - q] == s.subrange(q, q + m)[i - q]);
            assert(p[i - q] == '\n');
            assert(p.contains('\n'));
            0
        }
    }
}

/// A text that occurs in one of the lines occurs in the lines joined.
pub proof fn lemma_join_keeps(ls: Seq<Seq<char>>, sep: Seq<char>, k: int, p: Seq<char>)
    requires
        0 <= k < ls.len(),
        contains_sub(ls[k], p),
    ensures
        contains_sub(join_with(ls, sep), p),
    decreases ls.len(),
{
    let m = p.len() as int;
    let l = ls[k];
    let q = choose|q: int| 0 <= q <= l.len() - m && #[trigger] l.subrange(q, q + m) == p;
    if ls.len() == 1 {
        assert(join_with(ls, sep) == ls[0]);
    } else {
        let d = ls.drop_last();
        let jd = join_with(d, sep);
        let j = join_with(ls, sep);
        assert(j == jd + sep + ls.last());
        if k < ls.len() - 1 {
            assert(d[k] == ls[k]);
            lemma_join_keeps(d, sep, k, p);
            let q2 = choose|q2: int| 0 <= q2 <= jd.len() - m && #[trigger] jd.subrange(q2, q2 + m) == p;
            assert(j.subrange(q2, q2 + m) =~= jd.subrange(q2, q2 + m));
        } else {
            let off = jd.len() + sep.len();
            assert(j.subrange(off + q, off + q + m) =~= l.subrange(q, q + m));
        }
    }
}

// ---------------------------------------------------------------------------
// Trusted std items
// ---------------------------------------------------------------------------

/// `String::push`: the character is appended at the end.
#[verifier::external_body]
pub(crate) fn push_char(s: &mut String, c: char)
    ensures
        final(s)@ == old(s)@.push(c),
{
    s.push(c);
}

/// `<str as PartialEq>::eq`: equal exactly when the characters are equal.
#[verifier::external_body]
pub(crate) fn str_eq(a: &str, b: &str) -> (r: bool)
    ensures
        r == (a@ == b@),
{
    a == b
}

// ---------------------------------------------------------------------------
// Executable helpers
// ---------------------------------------------------------------------------

/// The characters of `s`, in order.
pub fn chars_of(s: &str) -> (r: Vec<char>)
    ensures
        r@ == s@,
{
    let mut r: Vec<char> = Vec::new();
    for c in it: s.chars()
        invariant
            r@ == it.seq().take(it.index() as int),
            it.seq() == s@,
    {
        r.push(c);
    }
    r
}

/// The string made of `v[lo..hi]`.
pub fn string_from_range(v: &Vec<char>, lo: usize, hi: usize) -> (r: String)
    requires
        lo <= hi <= v.len(),
    ensures
        r@ == v@.subrange(lo as int, hi as int),
{
    let mut r = String::new();
    let mut i = lo;
    while i < hi
        invariant
            lo <= i <= hi <= v.len(),
            r@ == v@.subrange(lo as int, i as int),
        decreases hi - i,
    {
        push_char(&mut r, v[i]);
        i = i + 1;
        assert(r@ =~= v@.subrange(lo as int, i as int));
    }
    r
}

/// The string made of all of `v`.
pub fn string_from_chars(v: &Vec<char>) -> (r: String)
    ensures
        r@ == v@,
{
    let r = string_from_range(v, 0, v.len());
    assert(v@.subrange(0, v@.len() as int) =~= v@);
    r
}

/// Appends `v[lo..hi]` to `out`.
pub fn push_range(out: &mut String, v: &Vec<char>, lo: usize, hi: usize)
    requires
        lo <= hi <= v.len(),
    ensures
        final(out)@ == old(out)@ + v@.subrange(lo as int, hi as int),
{
    let mut i = lo;
    while i < hi
        invariant
            lo <= i <= hi <= v.len(),
            out@ == old(out)@ + v@.subrange(lo as int, i as int),
        decreases hi - i,
    {
        push_char(out, v[i]);
        i = i + 1;
        assert(out@ =~= old(out)@ + v@.subrange(lo as int, i as int));
    }
}

/// Appends all of `s` to `out`.
pub fn push_str(out: &mut String, s: &str)
    ensures
        final(out)@ == old(out)@ + s@,
{
    let v = chars_of(s);
    push_range(out, &v, 0, v.len());
    assert(v@.subrange(0, v@.len() as int) =~= v@);
}

/// A copy of `s`.
pub fn copy_string(s: &str) -> (r: String)
    ensures
        r@ == s@,
{
    let mut r = String::new();
    push_str(&mut r, s);
    assert(r@ =~= s@);
    r
}

/// The concatenation `a + b`.
pub fn concat2(a: &str, b: &str) -> (r: String)
    ensures
        r@ == a@ + b@,
{
    let mut r = String::new();
    push_str(&mut r, a);
    push_str(&mut r, b);
    assert(r@ =~= a@ + b@);
    r
}

/// The concatenation `a + b + c`.
pub fn concat3(a: &str, b: &str, c: &str) -> (r: String)
    ensures
        r@ == a@ + b@ + c@,
{
    let mut r = concat2(a, b);
    push_str(&mut r, c);
    r
}

/// `char::is_whitespace`.
pub fn is_whitespace(c: char) -> (r: bool)
    ensures
        r == is_ws(c),
{
    ('\u{9}' <= c && c <= '\u{D}') || c == ' ' || c == '\u{85}' || c == '\u{A0}' || c == '\u{1680}'
        || ('\u{2000}' <= c && c <= '\u{200A}') || c == '\u{2028}' || c == '\u{2029}' || c
        == '\u{202F}' || c == '\u{205F}' || c == '\u{3000}'
}

/// The bounds of `trim(v[lo..hi])` inside `v`.
pub fn trim_bounds(v: &Vec<char>, lo: usize, hi: usize) -> (r: (usize, usize))
    requires
        lo <= hi <= v.len(),
    ensures
        lo <= r.0 <= r.1 <= hi,
        v@.subrange(r.0 as int, r.1 as int) == trim(v@.subrange(lo as int, hi as int)),
        v@.subrange(r.0 as int, hi as int) == trim_start(v@.subrange(lo as int, hi as int)),
{
    let ghost s = v@.subrange(lo as int, hi as int);
    let mut a = lo;
    while a < hi && is_whitespace(v[a])
        invariant
            lo <= a <= hi <= v.len(),
            s == v@.subrange(lo as int, hi as int),
            forall|j: int| lo <= j < a ==> is_ws(#[trigger] v@[j]),
        decreases hi - a,
    {
        a = a + 1;
    }
    proof {
        assert forall|j: int| 0 <= j < a - lo implies is_ws(#[trigger] s[j]) by {
            assert(s[j] == v@[lo + j]);
        }
        if a < hi {
            assert(s[a - lo] == v@[a as int]);
        }
        lemma_lead_ws(s, a - lo);
        assert(trim_start(s) =~= v@.subrange(a as int, hi as int));
    }
    let ghost t = v@.subrange(a as int, hi as int);
    let mut b = hi;
    while b > a && is_whitespace(v[b - 1])
        invariant
            lo <= a <= b <= hi <= v.len(),
            t == v@.subrange(a as int, hi as int),
            forall|j: int| b <= j < hi ==> is_ws(#[trigger] v@[j]),
        decreases b - a,
    {
        b = b - 1;
    }
    proof {
        let k = hi - b;
        assert forall|j: int| t.len() - k <= j < t.len() implies is_ws(#[trigger] t[j]) by {
            assert(t[j] == v@[a + j]);
        }
        if k < t.len() {
            assert(t[t.len() - k - 1] == v@[b - 1]);
        }
        lemma_trail_ws(t, k);
        assert(trim_end(t) =~= v@.subrange(a as int, b as int));
    }
    (a, b)
}

/// Whether `v[lo..hi]` begins with `p`.
pub fn range_starts_with(v: &Vec<char>, lo: usize, hi: usize, p: &Vec<char>) -> (r: bool)
    requires
        lo <= hi <= v.len(),
    ensures
        r == starts_with(v@.subrange(lo as int, hi as int), p@),
{
    if p.len() > hi - lo {
        return false;
    }
    let mut i: usize = 0;
    while i < p.len()
        invariant
            p.len() <= hi - lo,
            lo <= hi <= v.len(),
            0 <= i <= p.len(),
            forall|j: int| 0 <= j < i ==> v@[lo + j] == p@[j],
        decreases p.len() - i,
    {
        if v[lo + i] != p[i] {
            assert(v@.subrange(lo as int, hi as int)[i as int] != p@[i as int]);
            return false;
        }
        i = i + 1;
    }
    assert(p@ =~= v@.subrange(lo as int, hi as int).subrange(0, p@.len() as int));
    true
}

/// Whether `v` begins with `p`.
pub fn vec_starts_with(v: &Vec<char>, p: &Vec<char>) -> (r: bool)
    ensures
        r == starts_with(v@, p@),
{
    let r = range_starts_with(v, 0, v.len(), p);
    assert(v@.subrange(0, v@.len() as int) =~= v@);
    r
}

/// Whether `v[lo..hi]` equals `p`.
pub fn range_eq(v: &Vec<char>, lo: usize, hi: usize, p: &Vec<char>) -> (r: bool)
    requires
        lo <= hi <= v.len(),
    ensures
        r == (v@.subrange(lo as int, hi as int) == p@),
{
    if hi - lo != p.len() {
        return false;
    }
    let r = range_starts_with(v, lo, hi, p);
    proof {
        if r {
            assert(v@.subrange(lo as int, hi as int) =~= p@);
        }
    }
    r
}

/// Whether `v` equals `p`.
pub fn vec_eq(v: &Vec<char>, p: &Vec<char>) -> (r: bool)
    ensures
        r == (v@ == p@),
{
    let r = range_eq(v, 0, v.len(), p);
    assert(v@.subrange(0, v@.len() as int) =~= v@);
    r
}

/// Whether `p` occurs in `v`.
pub fn vec_contains(v: &Vec<char>, p: &Vec<char>) -> (r: bool)
    ensures
        r == contains_sub(v@, p@),
{
    if p.len() > v.len() {
        return false;
    }
    let mut i: usize = 0;
    loop
        invariant
            p.len() <= v.len(),
            0 <= i <= v.len() - p.len(),
            forall|j: int| 0 <= j < i ==> #[trigger] v@.subrange(j, j + p@.len()) != p@,
        decreases v.len() - p.len() - i,
    {
        if range_eq(v, i, i + p.len(), p) {
            return true;
        }
        if i == v.len() - p.len() {
            return false;
        }
        i = i + 1;
    }
}

/// The lines of `v`, as `str::lines` splits them.
pub fn split_lines(v: &Vec<char>) -> (r: Vec<Vec<char>>)
    ensures
        r@.len() == lines_of(v@).len(),
        forall|i: int| 0 <= i < r@.len() ==> #[trigger] r@[i]@ == lines_of(v@)[i],
{
    let mut r: Vec<Vec<char>> = Vec::new();
    let mut start: usize = 0;
    assert(v@.skip(0) =~= v@);
    assert(r@.map_values(|l: Vec<char>| l@) =~= Seq::<Seq<char>>::empty());
    while start < v.len()
        invariant
            0 <= start <= v.len(),
            lines_of(v@) == r@.map_values(|l: Vec<char>| l@) + lines_of(v@.skip(start as int)),
        decreases v.len() - start,
    {
        let ghost s = v@.skip(start as int);
        let mut i = start;
        while i < v.len() && v[i] != '\n'
            invariant
                start <= i <= v.len(),
                forall|j: int| start <= j < i ==> #[trigger] v@[j] != '\n',
            decreases v.len() - i,
        {
            i = i + 1;
        }
        proof {
            assert forall|j: int| 0 <= j < i - start implies #[trigger] s[j] != '\n' by {
                assert(s[j] == v@[start + j]);
            }
            if i < v.len() {
                assert(s[i - start] == v@[i as int]);
            }
            lemma_first_newline(s, i - start);
        }
        let mut end = i;
        if i < v.len() && i > start && v[i - 1] == '\r' {
            end = i - 1;
        }
        let mut line: Vec<char> = Vec::new();
        let mut k = start;
        while k < end
            invariant
                start <= k <= end <= v.len(),
                line@ == v@.subrange(start as int, k as int),
            decreases end - k,
        {
            line.push(v[k]);
            k = k + 1;
            assert(line@ =~= v@.subrange(start as int, k as int));
        }
        let ghost old_r = r@;
        proof {
            if i >= v.len() {
                assert(s.len() == i - start);
                assert(lines_of(s) == seq![s]);
                assert(line@ =~= s);
                assert(v@.skip(v@.len() as int) =~= Seq::<char>::empty());
            } else {
                let tk = s.take(i - start);
                assert(tk =~= v@.subrange(start as int, i as int));
                if i > start && v@[i - 1] == '\r' {
                    assert(strip_cr(tk) =~= line@);
                } else {
                    assert(strip_cr(tk) =~= line@);
                }
                assert(s.skip(i - start + 1) =~= v@.skip(i + 1));
            }
        }
        r.push(line);
        proof {
            assert(r@.map_values(|l: Vec<char>| l@) =~= old_r.map_values(|l: Vec<char>| l@).push(line@));
        }
        if i >= v.len() {
            start = v.len();
        } else {
            start = i + 1;
        }
        proof {
            if start == v.len() {
                assert(lines_of(v@.skip(start as int)) =~= Seq::<Seq<char>>::empty());
            }
            assert(lines_of(v@) =~= r@.map_values(|l: Vec<char>| l@) + lines_of(v@.skip(start as int)));
        }
    }
    proof {
        assert(v@.skip(start as int).len() == 0);
        assert(lines_of(v@.skip(start as int)) =~= Seq::<Seq<char>>::empty());
        assert(lines_of(v@) =~= r@.map_values(|l: Vec<char>| l@));
    }
    r
}

/// Strict lexicographic comparison of two strings.
pub fn string_lt(a: &Vec<char>, b: &Vec<char>) -> (r: bool)
    ensures
        r == str_lt(a@, b@),
{
    let mut i: usize = 0;
    assert(a@.skip(0) =~= a@);
    assert(b@.skip(0) =~= b@);
    while i < a.len() && i < b.len() && a[i] == b[i]
        invariant
            0 <= i <= a.len(),
            i <= b.len(),
            str_lt(a@, b@) == str_lt(a@.skip(i as int), b@.skip(i as int)),
        decreases a.len() - i,
    {
        proof {
            let sa = a@.skip(i as int);
            let sb = b@.skip(i as int);
            assert(sa.drop_first() =~= a@.skip(i + 1));
            assert(sb.drop_first() =~= b@.skip(i + 1));
        }
        i = i + 1;
    }
    if i == b.len() {
        false
    } else if i == a.len() {
        true
    } else {
        a[i] < b[i]
    }
}

/// `to_ascii_lowercase` of a char.
pub fn lower_char(c: char) -> (r: char)
    ensures
        r == ascii_lower(c),
{
    if 'A' <= c && c <= 'Z' {
        proof {
            assert((c as u32) + 32 <= 0x7A);
        }
        ((c as u8) + 32) as char
    } else {
        c
    }
}

/// `to_ascii_lowercase` of a string.
pub fn lower_string(s: &str) -> (r: String)
    ensures
        r@ == lower_seq(s@),
{
    let v = chars_of(s);
    let mut r = String::new();
    let mut i: usize = 0;
    while i < v.len()
        invariant
            0 <= i <= v.len(),
            v@ == s@,
            r@ == lower_seq(v@.take(i as int)),
        decreases v.len() - i,
    {
        push_char(&mut r, lower_char(v[i]));
        i = i + 1;
        assert(r@ =~= lower_seq(v@.take(i as int)));
    }
    assert(v@.take(v@.len() as int) =~= v@);
    r
}

/// `str::eq_ignore_ascii_case`.
pub fn eq_ignore_ascii_case(a: &str, b: &str) -> (r: bool)
    ensures
        r == eq_ignore_case(a@, b@),
{
    let x = lower_string(a);
    let y = lower_string(b);
    x == y
}


/// `str::trim` as an owned string.
pub fn trim_text(s: &str) -> (r: String)
    ensures
        r@ == trim(s@),
{
    let v = chars_of(s);
    let (a, b) = trim_bounds(&v, 0, v.len());
    assert(v@.subrange(0, v@.len() as int) =~= v@);
    string_from_range(&v, a, b)
}


// ---------------------------------------------------------------------------
// Searching
// ---------------------------------------------------------------------------

/// Index of the first `c` in `s`.
pub open spec fn find_char(s: Seq<char>, c: char) -> Option<nat>
    decreases s.len(),
{
    if s.len() == 0 {
        None
    } else if s[0] == c {
        Some(0)
    } else {
        match find_char(s.drop_first(), c) {
            Some(i) => Some(i + 1),
            None => None,
        }
    }
}

/// Index of the last `c` in `s`.
pub open spec fn rfind_char(s: Seq<char>, c: char) -> Option<nat>
    decreases s.len(),
{
    if s.len() == 0 {
        None
    } else if s.last() == c {
        Some((s.len() - 1) as nat)
    } else {
        rfind_char(s.drop_last(), c)
    }
}

/// Index of the first occurrence of `p` in `s`.
pub open spec fn find_sub(s: Seq<char>, p: Seq<char>) -> Option<nat>
    decreases s.len(),
{
    if s.len() < p.len() {
        None
    } else if s.take(p.len() as int) == p {
        Some(0)
    } else if s.len() == 0 {
        None
    } else {
        match find_sub(s.drop_first(), p) {
            Some(i) => Some(i + 1),
            None => None,
        }
    }
}

proof fn lemma_find_char(s: Seq<char>, c: char, k: int)
    requires
        0 <= k <= s.len(),
        forall|j: int| 0 <= j < k ==> s[j] != c,
    ensures
        k < s.len() && s[k] == c ==> find_char(s, c) == Some(k as nat),
        k == s.len() ==> find_char(s, c) is None,
    decreases k,
{
    if k > 0 {
        lemma_find_char(s.drop_first(), c, k - 1);
    }
}

/// The first index of `c` in `v`.
pub fn index_of_char(v: &Vec<char>, c: char) -> (r: Option<usize>)
    ensures
        r matches Some(i) ==> find_char(v@, c) == Some(i as nat) && i < v@.len(),
        r is None ==> find_char(v@, c) is None,
{
    let mut i: usize = 0;
    while i < v.len()
        invariant
            0 <= i <= v.len(),
            forall|j: int| 0 <= j < i ==> v@[j] != c,
        decreases v.len() - i,
    {
        if v[i] == c {
            proof {
                lemma_find_char(v@, c, i as int);
            }
            return Some(i);
        }
        i = i + 1;
    }
    proof {
        lemma_find_char(v@, c, i as int);
    }
    None
}

proof fn lemma_rfind_char(s: Seq<char>, c: char, k: int)
    requires
        0 <= k <= s.len(),
        forall|j: int| k <= j < s.len() ==> s[j] != c,
    ensures
        k > 0 && s[k - 1] == c ==> rfind_char(s, c) == Some((k - 1) as nat),
        k == 0 ==> rfind_char(s, c) is None,
    decreases s.len(),
{
    if s.len() > 0 && k < s.len() {
        lemma_rfind_char(s.drop_last(), c, k);
    }
}

/// The last index of `c` in `v`.
pub fn last_index_of_char(v: &Vec<char>, c: char) -> (r: Option<usize>)
    ensures
        r matches Some(i) ==> rfind_char(v@, c) == Some(i as nat) && i < v@.len(),
        r is None ==> rfind_char(v@, c) is None,
{
    let mut k: usize = v.len();
    while k > 0
        invariant
            0 <= k <= v.len(),
            forall|j: int| k <= j < v@.len() ==> v@[j] != c,
        decreases k,
    {
        if v[k - 1] == c {
            proof {
                lemma_rfind_char(v@, c, k as int);
            }
            return Some(k - 1);
        }
        k = k - 1;
    }
    proof {
        lemma_rfind_char(v@, c, 0);
    }
    None
}

proof fn lemma_find_sub(s: Seq<char>, p: Seq<char>, k: int)
    requires
        0 <= k,
        k + p.len() <= s.len(),
        forall|j: int| 0 <= j < k ==> #[trigger] s.subrange(j, j + p.len()) != p,
        s.subrange(k, k + p.len()) == p,
    ensures
        find_sub(s, p) == Some(k as nat),
    decreases k,
{
    assert(s.take(p.len() as int) =~= s.subrange(0, p.len() as int));
    if k > 0 {
        assert(s.subrange(0int, 0int + p.len()) != p);
        assert forall|j: int| 0 <= j < k - 1 implies #[trigger] s.drop_first().subrange(j, j + p.len()) != p by {
            assert(s.drop_first().subrange(j, j + p.len()) =~= s.subrange(j + 1, j + 1 + p.len()));
        }
        assert(s.drop_first().subrange(k - 1, k - 1 + p.len()) =~= s.subrange(k, k + p.len()));
        lemma_find_sub(s.drop_first(), p, k - 1);
    }
}

proof fn lemma_find_sub_none(s: Seq<char>, p: Seq<char>)
    requires
        forall|j: int| 0 <= j && j + p.len() <= s.len() ==> #[trigger] s.subrange(j, j + p.len()) != p,
    ensures
        find_sub(s, p) is None,
    decreases s.len(),
{
    if s.len() >= p.len() {
        assert(s.take(p.len() as int) =~= s.subrange(0int, 0int + p.len()));
        if s.len() > 0 {
            assert forall|j: int| 0 <= j && j + p.len() <= s.drop_first().len() implies #[trigger] s.drop_first().subrange(j, j + p.len()) != p by {
                assert(s.drop_first().subrange(j, j + p.len()) =~= s.subrange(j + 1, j + 1 + p.len()));
            }
            lemma_find_sub_none(s.drop_first(), p);
        }
    }
}

/// The first index at which `p` occurs in `v`.
pub fn index_of_sub(v: &Vec<char>, p: &Vec<char>) -> (r: Option<usize>)
    ensures
        r matches Some(i) ==> find_sub(v@, p@) == Some(i as nat) && i + p@.len() <= v@.len(),
        r is None ==> find_sub(v@, p@) is None,
{
    if p.len() > v.len() {
        return None;
    }
    let last = v.len() - p.len();
    let mut i: usize = 0;
    loop
        invariant
            p.len() <= v.len(),
            last == v.len() - p.len(),
            0 <= i <= last,
            forall|j: int| 0 <= j < i ==> #[trigger] v@.subrange(j, j + p@.len()) != p@,
        decreases last - i,
    {
        if range_eq(v, i, i + p.len(), p) {
            proof {
                lemma_find_sub(v@, p@, i as int);
            }
            return Some(i);
        }
        if i == last {
            proof {
                lemma_find_sub_none(v@, p@);
            }
            return None;
        }
        i = i + 1;
    }
}


// ---------------------------------------------------------------------------
// Decimal text
// ---------------------------------------------------------------------------

/// The decimal digits of `n`, as `to_string` writes an unsigned integer.
pub open spec fn dec_text(n: nat) -> Seq<char>
    decreases n,
{
    if n < 10 {
        seq![(48 + n) as char]
    } else {
        dec_text(n / 10).push((48 + n % 10) as char)
    }
}

/// `n.to_string()` for an unsigned integer.
pub fn usize_text(n: usize) -> (r: String)
    ensures
        r@ == dec_text(n as nat),
    decreases n,
{
    if n < 10 {
        let mut s = String::new();
        push_char(&mut s, ((48 + n) as u8) as char);
        assert(s@ =~= seq![(48 + n) as char]);
        s
    } else {
        let mut s = usize_text(n / 10);
        push_char(&mut s, ((48 + n % 10) as u8) as char);
        s
    }
}

} // verus!
