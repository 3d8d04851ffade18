//! Text pass over a YAML override: every `short-id` inside the
//! `reality-opts` of a proxy gets the `!!str` tag, so that a value such as
//! `0123` or `1e3` stays a string.
use crate::text::{
    chars_of, contains_sub, eq_ignore_case, is_whitespace, join_with, lead_ws, lemma_join_push,
    lemma_lead_ws_bound, lines_of, lower_char, lower_seq, push_char, push_range, push_str,
    range_starts_with, split_lines, starts_with, trim, trim_bounds, trim_start, vec_contains,
    is_ws, trail_ws,
};
use vstd::prelude::*;

verus! {

/// Where the scan stands: inside a top-level `proxies:` list, inside one of
/// its items, inside that item's `reality-opts:`, with the indent of each.
#[derive(Clone, Copy)]
pub struct TagScan {
    pub proxies: bool,
    pub item: bool,
    pub reality: bool,
    pub proxies_indent: i128,
    pub item_indent: i128,
    pub reality_indent: i128,
}

pub open spec fn scan_start() -> TagScan {
    TagScan {
        proxies: false,
        item: false,
        reality: false,
        proxies_indent: -1i128,
        item_indent: -1i128,
        reality_indent: -1i128,
    }
}

/// Bytes of `c` in UTF-8.
pub open spec fn char_width(c: char) -> nat {
    if (c as u32) < 0x80 {
        1
    } else if (c as u32) < 0x800 {
        2
    } else if (c as u32) < 0x10000 {
        3
    } else {
        4
    }
}

/// Bytes of `s` in UTF-8.
pub open spec fn utf8_width(s: Seq<char>) -> nat
    decreases s.len(),
{
    if s.len() == 0 {
        0
    } else {
        utf8_width(s.drop_last()) + char_width(s.last())
    }
}

/// The indent of a line: the byte length of its leading whitespace.
pub open spec fn indent_of(line: Seq<char>) -> int {
    utf8_width(line.take(lead_ws(line) as int)) as int
}

/// Chars before the first whitespace or `#`.
pub open spec fn value_end(s: Seq<char>) -> nat
    decreases s.len(),
{
    if s.len() == 0 || is_ws(s[0]) || s[0] == '#' {
        0
    } else {
        1 + value_end(s.drop_first())
    }
}

/// A value that YAML would not read as null, a tagged node or a collection.
pub open spec fn plain_value(value: Seq<char>) -> bool {
    &&& !eq_ignore_case(value, "null"@)
    &&& value != "~"@
    &&& !starts_with(value, "!!"@)
    &&& !(value.len() > 0 && (value[0] == '{' || value[0] == '['))
}

/// The line with its `short-id` value tagged `!!str`, when the value is plain.
/// The key starts the trimmed line, so it stands right after the indent.
pub open spec fn tag_line(line: Seq<char>) -> Option<Seq<char>> {
    let k = (lead_ws(line) + "short-id:"@.len()) as int;
    let prefix = line.take(k);
    let after = line.skip(k);
    let ta = trim_start(after);
    let gap = after.take(lead_ws(after) as int);
    let ve = value_end(ta) as int;
    let value = ta.take(ve);
    let suffix = ta.skip(ve);
    if plain_value(value) {
        Some(prefix + gap + "!!str "@ + value + suffix)
    } else {
        None
    }
}

/// One line of the scan: the new state and the line written out.
pub open spec fn tag_step(st: TagScan, line: Seq<char>, nested: bool) -> (TagScan, Seq<char>) {
    let t = trim(line);
    if t.len() == 0 || t[0] == '#' {
        (st, line)
    } else {
        let indent = indent_of(line);
        let dash = t[0] == '-';
        let st1 = if starts_with(t, "proxies:"@) && (nested || indent == 0) {
            TagScan { proxies: true, item: false, reality: false, proxies_indent: indent as i128, ..st }
        } else if st.proxies && indent <= st.proxies_indent && !dash {
            TagScan { proxies: false, item: false, reality: false, ..st }
        } else {
            st
        };
        if !st1.proxies {
            (st1, line)
        } else {
            let st2 = if dash {
                TagScan { item: true, reality: false, item_indent: indent as i128, ..st1 }
            } else if st1.item && indent <= st1.item_indent {
                TagScan { item: false, reality: false, ..st1 }
            } else {
                st1
            };
            if !st2.item {
                (st2, line)
            } else {
                let st3 = if starts_with(t, "reality-opts:"@) {
                    TagScan { reality: true, reality_indent: indent as i128, ..st2 }
                } else if st2.reality && indent <= st2.reality_indent {
                    TagScan { reality: false, ..st2 }
                } else {
                    st2
                };
                if st3.reality && starts_with(trim_start(line), "short-id:"@) {
                    match tag_line(line) {
                        Some(l) => (st3, l),
                        None => (st3, line),
                    }
                } else {
                    (st3, line)
                }
            }
        }
    }
}

/// A line whose text starts with `-`, inside a `proxies:` list, never closes
/// the list, whatever its indent: it opens a new item of the list, outside
/// any `reality-opts:`, and is written out unchanged.
pub proof fn dash_lines_stay_in_proxies(st: TagScan, line: Seq<char>, nested: bool)
    requires
        st.proxies,
        trim(line).len() > 0,
        trim(line)[0] == '-',
    ensures
        tag_step(st, line, nested).0.proxies,
        tag_step(st, line, nested).0.proxies_indent == st.proxies_indent,
        tag_step(st, line, nested).0.item,
        !tag_step(st, line, nested).0.reality,
        tag_step(st, line, nested).1 == line,
{
    let t = trim(line);
    reveal_strlit("proxies:");
    reveal_strlit("short-id:");
    assert(!starts_with(t, "proxies:"@)) by {
        if starts_with(t, "proxies:"@) {
            assert(t[0] == "proxies:"@[0]);
        }
    }
    reveal_strlit("reality-opts:");
    assert(!starts_with(t, "reality-opts:"@)) by {
        if starts_with(t, "reality-opts:"@) {
            assert(t[0] == "reality-opts:"@[0]);
        }
    }
}

proof fn lemma_trail_ws_before(s: Seq<char>, i: int)
    requires
        0 <= i < s.len(),
        !is_ws(s[i]),
    ensures
        trail_ws(s) <= s.len() - 1 - i,
    decreases s.len(),
{
    if is_ws(s.last()) {
        lemma_trail_ws_before(s.drop_last(), i);
    }
}

/// The value after the `short-id:` key of a line: the first word after the
/// key and the blanks that follow it.
pub open spec fn short_id_value(line: Seq<char>) -> Seq<char> {
    let ta = trim_start(line.skip(lead_ws(line) + 9int));
    ta.take(value_end(ta) as int)
}

/// Inside the `reality-opts:` of an item of a `proxies:` list, a line more
/// indented than all three whose text starts with `short-id:` and whose value
/// is plain comes out with `!!str ` written right before the value (after the
/// key and the blanks that follow it); the rest of the line is unchanged,
/// and the scan stays where it was.
pub proof fn short_ids_in_reality_opts_are_tagged(st: TagScan, line: Seq<char>, nested: bool)
    requires
        st.proxies && st.item && st.reality,
        indent_of(line) > st.proxies_indent,
        indent_of(line) > st.item_indent,
        indent_of(line) > st.reality_indent,
        starts_with(trim_start(line), "short-id:"@),
        plain_value(short_id_value(line)),
    ensures
        ({
            let k = lead_ws(line) + 9int;
            let g = lead_ws(line.skip(k)) as int;
            tag_step(st, line, nested) == (st, line.take(k + g) + "!!str "@ + line.skip(k + g))
        }),
{
    reveal_strlit("short-id:");
    reveal_strlit("proxies:");
    reveal_strlit("reality-opts:");
    lemma_lead_ws_bound(line);
    let ts = trim_start(line);
    assert("short-id:"@.is_prefix_of(ts));
    assert("short-id:"@[8] == ':');
    assert(ts[8] == "short-id:"@[8]);
    assert(!is_ws(ts[8]));
    lemma_trail_ws_before(ts, 8);
    let t = trim(line);
    assert(t.len() > 8);
    assert(t[0] == 's');
    assert(!starts_with(t, "proxies:"@)) by {
        if starts_with(t, "proxies:"@) {
            assert(t[0] == "proxies:"@[0]);
        }
    }
    assert(!starts_with(t, "reality-opts:"@)) by {
        if starts_with(t, "reality-opts:"@) {
            assert(t[0] == "reality-opts:"@[0]);
        }
    }
    let k = lead_ws(line) + 9int;
    let after = line.skip(k);
    let g = lead_ws(after) as int;
    lemma_lead_ws_bound(after);
    let ta = trim_start(after);
    let ve = value_end(ta) as int;
    lemma_value_end_bound(ta);
    assert(ta.take(ve) + ta.skip(ve) =~= ta);
    assert(line.take(k) + after.take(g) =~= line.take(k + g));
    assert(ta =~= line.skip(k + g));
}

/// The lines written out for `ls`, scanning from state `st`.
pub open spec fn tag_lines(st: TagScan, ls: Seq<Seq<char>>, nested: bool) -> Seq<Seq<char>>
    decreases ls.len(),
{
    if ls.len() == 0 {
        seq![]
    } else {
        let (st2, out) = tag_step(st, ls[0], nested);
        seq![out] + tag_lines(st2, ls.drop_first(), nested)
    }
}

/// The whole pass: a document without both `proxies:` and `short-id:` is
/// returned unchanged; otherwise its lines are scanned and joined with `\n`.
pub open spec fn tagged_yaml(content: Seq<char>, nested: bool) -> Seq<char> {
    if !contains_sub(content, "proxies:"@) || !contains_sub(content, "short-id:"@) {
        content
    } else {
        join_with(tag_lines(scan_start(), lines_of(content), nested), "\n"@)
    }
}

// ---------------------------------------------------------------------------
// Executable pass
// ---------------------------------------------------------------------------

proof fn lemma_value_end(s: Seq<char>, k: int)
    requires
        0 <= k <= s.len(),
        forall|j: int| 0 <= j < k ==> !is_ws(#[trigger] s[j]) && s[j] != '#',
        k == s.len() || is_ws(s[k]) || s[k] == '#',
    ensures
        value_end(s) == k,
    decreases k,
{
    if k > 0 {
        lemma_value_end(s.drop_first(), k - 1);
    }
}

fn char_bytes(c: char) -> (r: u8)
    ensures
        r == char_width(c),
{
    let n = c as u32;
    if n < 0x80 {
        1
    } else if n < 0x800 {
        2
    } else if n < 0x10000 {
        3
    } else {
        4
    }
}

/// The byte width of `v[0..k]`.
fn width_of(v: &Vec<char>, k: usize) -> (r: i128)
    requires
        k <= v.len(),
    ensures
        r == utf8_width(v@.take(k as int)),
{
    let mut w: i128 = 0;
    let mut i: usize = 0;
    assert(v@.take(0) =~= Seq::<char>::empty());
    while i < k
        invariant
            0 <= i <= k <= v.len(),
            w == utf8_width(v@.take(i as int)),
            0 <= w <= 4 * i,
        decreases k - i,
    {
        assert(v@.take(i + 1).drop_last() =~= v@.take(i as int));
        w = w + char_bytes(v[i]) as i128;
        i = i + 1;
    }
    w
}

fn is_null_word(v: &Vec<char>, lo: usize, hi: usize) -> (r: bool)
    requires
        lo <= hi <= v.len(),
    ensures
        r == eq_ignore_case(v@.subrange(lo as int, hi as int), "null"@),
{
    let ghost s = v@.subrange(lo as int, hi as int);
    proof {
        reveal_strlit("null");
        assert(lower_seq("null"@) =~= "null"@);
    }
    if hi - lo != 4 {
        assert(lower_seq(s).len() != lower_seq("null"@).len());
        return false;
    }
    let r = lower_char(v[lo]) == 'n' && lower_char(v[lo + 1]) == 'u' && lower_char(v[lo + 2]) == 'l'
        && lower_char(v[lo + 3]) == 'l';
    proof {
        if r {
            assert(lower_seq(s) =~= "null"@);
        } else {
            if lower_seq(s) == "null"@ {
                assert(lower_seq(s)[0] == 'n');
                assert(lower_seq(s)[1] == 'u');
                assert(lower_seq(s)[2] == 'l');
                assert(lower_seq(s)[3] == 'l');
                assert(false);
            }
        }
    }
    r
}

fn is_plain_value(v: &Vec<char>, lo: usize, hi: usize) -> (r: bool)
    requires
        lo <= hi <= v.len(),
    ensures
        r == plain_value(v@.subrange(lo as int, hi as int)),
{
    let ghost s = v@.subrange(lo as int, hi as int);
    proof {
        reveal_strlit("~");
        reveal_strlit("!!");
    }
    let null = is_null_word(v, lo, hi);
    let tilde = hi - lo == 1 && v[lo] == '~';
    let tagged = hi - lo >= 2 && v[lo] == '!' && v[lo + 1] == '!';
    let collection = hi > lo && (v[lo] == '{' || v[lo] == '[');
    proof {
        if hi - lo == 1 {
            assert(s[0] == v@[lo as int]);
            assert(tilde == (s == "~"@)) by {
                if s == "~"@ {
                    assert(s[0] == '~');
                }
                if tilde {
                    assert(s =~= "~"@);
                }
            }
        } else {
            assert(s.len() != "~"@.len());
        }
        if hi - lo >= 2 {
            assert(s[0] == v@[lo as int]);
            assert(s[1] == v@[lo + 1]);
            assert(tagged == starts_with(s, "!!"@)) by {
                if tagged {
                    assert(s.take(2) =~= "!!"@);
                }
                if starts_with(s, "!!"@) {
                    assert(s.take(2)[0] == '!');
                    assert(s.take(2)[1] == '!');
                }
            }
        }
        if hi > lo {
            assert(s[0] == v@[lo as int]);
        }
    }
    !null && !tilde && !tagged && !collection
}

/// The tagged form of a `short-id` line.
fn short_id_tagged(line: &Vec<char>, lead: usize, key: &Vec<char>) -> (r: Option<String>)
    requires
        lead == lead_ws(line@),
        key@ == "short-id:"@,
        starts_with(trim_start(line@), "short-id:"@),
    ensures
        r matches Some(s) ==> tag_line(line@) == Some(s@),
        r is None ==> tag_line(line@) is None,
{
    proof {
        lemma_lead_ws_bound(line@);
        reveal_strlit("!!str ");
    }
    let n = line.len();
    let k = lead + key.len();
    let ghost after = line@.skip(k as int);
    let (a2, _b2) = trim_bounds(line, k, n);
    proof {
        assert(line@.subrange(k as int, n as int) =~= after);
        lemma_lead_ws_bound(after);
        assert(line@.subrange(a2 as int, n as int) == trim_start(after));
        assert(a2 == k + lead_ws(after));
    }
    let ghost ta = trim_start(after);
    let mut j = a2;
    while j < n && !(is_whitespace(line[j]) || line[j] == '#')
        invariant
            a2 <= j <= n,
            n == line.len(),
            forall|x: int| a2 <= x < j ==> !is_ws(#[trigger] line@[x]) && line@[x] != '#',
        decreases n - j,
    {
        j = j + 1;
    }
    proof {
        assert(ta =~= line@.subrange(a2 as int, n as int));
        assert forall|x: int| 0 <= x < j - a2 implies !is_ws(#[trigger] ta[x]) && ta[x] != '#' by {
            assert(ta[x] == line@[a2 + x]);
        }
        if j < n {
            assert(ta[j - a2] == line@[j as int]);
        }
        lemma_value_end(ta, j - a2);
        assert(ta.take(j - a2) =~= line@.subrange(a2 as int, j as int));
        assert(ta.skip(j - a2) =~= line@.subrange(j as int, n as int));
        assert(after.take(lead_ws(after) as int) =~= line@.subrange(k as int, a2 as int));
        assert(line@.take(k as int) =~= line@.subrange(0, k as int));
    }
    if !is_plain_value(line, a2, j) {
        return None;
    }
    let mut out = String::new();
    push_range(&mut out, line, 0, a2);
    push_str(&mut out, "!!str ");
    push_range(&mut out, line, a2, n);
    proof {
        assert(line@.subrange(0, a2 as int) =~= line@.subrange(0, k as int) + line@.subrange(k as int, a2 as int));
        assert(line@.subrange(a2 as int, n as int) =~= line@.subrange(a2 as int, j as int) + line@.subrange(j as int, n as int));
        assert(out@ =~= line@.take(k as int) + after.take(lead_ws(after) as int) + "!!str "@ + ta.take(j - a2) + ta.skip(j - a2));
    }
    Some(out)
}

/// One step of the scan on an executable state.
fn scan_line(st: TagScan, line: &Vec<char>, nested: bool, keys: &ScanKeys) -> (r: (TagScan, String))
    requires
        keys.wf(),
    ensures
        (r.0, r.1@) == tag_step(st, line@, nested),
{
    let n = line.len();
    let (a, b) = trim_bounds(line, 0, n);
    proof {
        assert(line@.subrange(0, n as int) =~= line@);
        lemma_lead_ws_bound(line@);
    }
    let ghost t = trim(line@);
    let ghost ts = trim_start(line@);
    proof {
        assert(t =~= line@.subrange(a as int, b as int));
        assert(ts =~= line@.subrange(a as int, n as int));
        assert(a == lead_ws(line@));
        if a < b {
            assert(t[0] == line@[a as int]);
        }
    }
    if a == b || line[a] == '#' {
        return (st, string_of(line));
    }
    let indent = width_of(line, a);
    let dash = line[a] == '-';
    let mut s1 = st;
    if range_starts_with(line, a, b, &keys.proxies) && (nested || indent == 0) {
        s1 = TagScan { proxies: true, item: false, reality: false, proxies_indent: indent, ..st };
    } else if st.proxies && indent <= st.proxies_indent && !dash {
        s1 = TagScan { proxies: false, item: false, reality: false, ..st };
    }
    if !s1.proxies {
        return (s1, string_of(line));
    }
    let mut s2 = s1;
    if dash {
        s2 = TagScan { item: true, reality: false, item_indent: indent, ..s1 };
    } else if s1.item && indent <= s1.item_indent {
        s2 = TagScan { item: false, reality: false, ..s1 };
    }
    if !s2.item {
        return (s2, string_of(line));
    }
    let mut s3 = s2;
    if range_starts_with(line, a, b, &keys.reality) {
        s3 = TagScan { reality: true, reality_indent: indent, ..s2 };
    } else if s2.reality && indent <= s2.reality_indent {
        s3 = TagScan { reality: false, ..s2 };
    }
    if s3.reality && range_starts_with(line, a, n, &keys.short_id) {
        match short_id_tagged(line, a, &keys.short_id) {
            Some(l) => {
                return (s3, l);
            },
            None => {},
        }
    }
    (s3, string_of(line))
}

fn string_of(v: &Vec<char>) -> (r: String)
    ensures
        r@ == v@,
{
    crate::text::string_from_chars(v)
}

/// The key texts the scan looks for.
pub struct ScanKeys {
    pub proxies: Vec<char>,
    pub reality: Vec<char>,
    pub short_id: Vec<char>,
}

impl ScanKeys {
    pub open spec fn wf(&self) -> bool {
        &&& self.proxies@ == "proxies:"@
        &&& self.reality@ == "reality-opts:"@
        &&& self.short_id@ == "short-id:"@
    }

    pub fn new() -> (r: Self)
        ensures
            r.wf(),
    {
        ScanKeys {
            proxies: chars_of("proxies:"),
            reality: chars_of("reality-opts:"),
            short_id: chars_of("short-id:"),
        }
    }
}

proof fn lemma_tag_lines_step(st: TagScan, ls: Seq<Seq<char>>, i: int, nested: bool)
    requires
        0 <= i < ls.len(),
    ensures
        tag_lines(st, ls.skip(i), nested) == seq![tag_step(st, ls[i], nested).1] + tag_lines(
            tag_step(st, ls[i], nested).0,
            ls.skip(i + 1),
            nested,
        ),
{
    assert(ls.skip(i).drop_first() =~= ls.skip(i + 1));
    assert(ls.skip(i)[0] == ls[i]);
}

/// Tags every `short-id` value under `proxies: - reality-opts:` with `!!str`.
/// With `include_nested_proxies`, a `proxies:` key at any indent opens a list.
pub fn add_yaml_tags_to_proxies_short_id(yaml_content: &str, include_nested_proxies: bool) -> (r: String)
    ensures
        r@ == tagged_yaml(yaml_content@, include_nested_proxies),
{
    let keys = ScanKeys::new();
    let v = chars_of(yaml_content);
    if !vec_contains(&v, &keys.proxies) || !vec_contains(&v, &keys.short_id) {
        return crate::text::copy_string(yaml_content);
    }
    let lines = split_lines(&v);
    let ghost ls = lines_of(v@);
    let ghost outs: Seq<Seq<char>> = seq![];
    let mut st = TagScan {
        proxies: false,
        item: false,
        reality: false,
        proxies_indent: -1i128,
        item_indent: -1i128,
        reality_indent: -1i128,
    };
    let mut out = String::new();
    let mut i: usize = 0;
    proof {
        assert(ls.skip(0) =~= ls);
    }
    while i < lines.len()
        invariant
            0 <= i <= lines.len(),
            keys.wf(),
            lines@.len() == ls.len(),
            forall|x: int| 0 <= x < lines@.len() ==> #[trigger] lines@[x]@ == ls[x],
            outs.len() == i,
            outs + tag_lines(st, ls.skip(i as int), include_nested_proxies) == tag_lines(
                scan_start(),
                ls,
                include_nested_proxies,
            ),
            out@ == join_with(outs, "\n"@),
        decreases lines.len() - i,
    {
        proof {
            lemma_tag_lines_step(st, ls, i as int, include_nested_proxies);
        }
        let ghost old_st = st;
        let (next, text) = scan_line(st, &lines[i], include_nested_proxies, &keys);
        proof {
            reveal_strlit("\n");
            lemma_join_push(outs, "\n"@, text@);
        }
        if i > 0 {
            push_char(&mut out, '\n');
        }
        push_str(&mut out, text.as_str());
        proof {
            assert(outs.push(text@) + tag_lines(next, ls.skip(i + 1), include_nested_proxies) =~= outs + (seq![text@] + tag_lines(next, ls.skip(i + 1), include_nested_proxies)));
            outs = outs.push(text@);
        }
        st = next;
        i = i + 1;
    }
    proof {
        assert(ls.skip(i as int) =~= Seq::<Seq<char>>::empty());
        assert(outs + Seq::<Seq<char>>::empty() =~= outs);
    }
    out
}


/// The pass keeps the lines: as many lines come out as went in, and each is
/// either unchanged or its `short-id` value tagged.
pub proof fn tagging_keeps_lines(st: TagScan, ls: Seq<Seq<char>>, nested: bool)
    ensures
        tag_lines(st, ls, nested).len() == ls.len(),
        forall|i: int|
            0 <= i < ls.len() ==> #[trigger] tag_lines(st, ls, nested)[i] == ls[i] || (starts_with(
                trim_start(ls[i]),
                "short-id:"@,
            ) && tag_line(ls[i]) == Some(tag_lines(st, ls, nested)[i])),
    decreases ls.len(),
{
    if ls.len() > 0 {
        let (st2, out) = tag_step(st, ls[0], nested);
        tagging_keeps_lines(st2, ls.drop_first(), nested);
        let rest = tag_lines(st2, ls.drop_first(), nested);
        assert(tag_lines(st, ls, nested) == seq![out] + rest);
        assert forall|i: int| 0 <= i < ls.len() implies #[trigger] tag_lines(st, ls, nested)[i] == ls[i]
            || (starts_with(trim_start(ls[i]), "short-id:"@) && tag_line(ls[i]) == Some(
            tag_lines(st, ls, nested)[i],
        )) by {
            if i > 0 {
                assert(tag_lines(st, ls, nested)[i] == rest[i - 1]);
                assert(ls[i] == ls.drop_first()[i - 1]);
            }
        }
    }
}

/// The trimmed form of a line whose trimmed start is `short-id:` starts with `s`.
proof fn lemma_key_line_trim(line: Seq<char>)
    requires
        starts_with(trim_start(line), "short-id:"@),
    ensures
        trim(line).len() > 0,
        trim(line)[0] == 's',
        lead_ws(line) + 9 <= line.len(),
{
    reveal_strlit("short-id:");
    lemma_lead_ws_bound(line);
    let x = trim_start(line);
    assert("short-id:"@[0] == 's');
    assert(x.len() >= 9);
    assert(x[0] == x.subrange(0, 9)[0]);
    assert(x[0] == 's');
    crate::text::lemma_trail_ws_bound(x);
    if crate::text::trail_ws(x) == x.len() {
        assert(x.len() > 0);
        assert(crate::text::trail_ws(x) > 0);
        lemma_trail_all_ws(x);
    }
}

proof fn lemma_trail_all_ws(x: Seq<char>)
    requires
        x.len() > 0,
        crate::text::trail_ws(x) == x.len(),
    ensures
        is_ws(x[0]),
    decreases x.len(),
{
    if x.len() > 1 {
        crate::text::lemma_trail_ws_bound(x.drop_last());
        assert(is_ws(x.last()));
        assert(crate::text::trail_ws(x.drop_last()) == x.drop_last().len());
        lemma_trail_all_ws(x.drop_last());
        assert(x.drop_last()[0] == x[0]);
    }
}

/// A tagged line is scanned as the line it came from, and is not tagged again.
proof fn lemma_tagged_line_step(st: TagScan, line: Seq<char>, nested: bool)
    requires
        tag_step(st, line, nested).1 != line,
    ensures
        tag_step(st, tag_step(st, line, nested).1, nested) == tag_step(st, line, nested),
{
    reveal_strlit("short-id:");
    reveal_strlit("!!str ");
    reveal_strlit("!!");
    reveal_strlit("proxies:");
    reveal_strlit("reality-opts:");
    let out = tag_step(st, line, nested).1;
    assert(starts_with(trim_start(line), "short-id:"@));
    assert(tag_line(line) == Some(out));
    lemma_key_line_trim(line);
    lemma_lead_ws_bound(line);
    let l = lead_ws(line) as int;
    let k = l + 9;
    let after = line.skip(k);
    let ta = trim_start(after);
    let gap = after.take(lead_ws(after) as int);
    let ve = value_end(ta) as int;
    let value = ta.take(ve);
    let suffix = ta.skip(ve);
    let tag = "!!str "@;
    assert(out == line.take(k) + gap + tag + value + suffix);
    let rest = gap + tag + value + suffix;
    assert(out =~= line.take(k) + rest);
    assert(out.take(k) =~= line.take(k));
    // the same leading whitespace
    assert forall|j: int| 0 <= j < l implies is_ws(#[trigger] out[j]) by {
        assert(out[j] == line[j]);
    }
    assert(out[l] == line[l]);
    assert(line[l] == trim_start(line)[0]);
    crate::text::lemma_lead_ws(out, l);
    assert(out.take(l) =~= line.take(l));
    assert(indent_of(out) == indent_of(line));
    // the key still opens the trimmed line
    assert(trim_start(out).take(9) =~= trim_start(line).take(9));
    assert(starts_with(trim_start(out), "short-id:"@));
    lemma_key_line_trim(out);
    // the tag reads as a value starting with `!!`
    let after2 = out.skip(k);
    assert(after2 =~= rest);
    lemma_lead_ws_bound(after);
    assert forall|j: int| 0 <= j < gap.len() implies is_ws(#[trigger] after2[j]) by {
        assert(after2[j] == gap[j]);
        assert(gap[j] == after[j]);
    }
    assert(after2[gap.len() as int] == '!');
    crate::text::lemma_lead_ws(after2, gap.len() as int);
    let ta2 = trim_start(after2);
    assert(ta2 =~= tag + value + suffix);
    assert forall|j: int| 0 <= j < 5 implies !is_ws(#[trigger] ta2[j]) && ta2[j] != '#' by {
        assert(ta2[j] == tag[j]);
    }
    assert(ta2[5] == ' ');
    lemma_value_end(ta2, 5);
    assert(ta2.take(5).take(2) =~= "!!"@);
    assert(starts_with(ta2.take(5), "!!"@));
    assert(tag_line(out) is None);
    // the scan decides the same for both lines
    lemma_not_other_keys(line);
    lemma_not_other_keys(out);
}

/// A line whose trimmed form starts with `s` opens no `proxies:` or
/// `reality-opts:` block, and is no list item or comment.
proof fn lemma_not_other_keys(line: Seq<char>)
    requires
        trim(line).len() > 0,
        trim(line)[0] == 's',
    ensures
        !starts_with(trim(line), "proxies:"@),
        !starts_with(trim(line), "reality-opts:"@),
        trim(line)[0] != '-',
        trim(line)[0] != '#',
{
    reveal_strlit("proxies:");
    reveal_strlit("reality-opts:");
    let t = trim(line);
    if starts_with(t, "proxies:"@) {
        assert(t[0] == t.subrange(0, 8)[0]);
    }
    if starts_with(t, "reality-opts:"@) {
        assert(t[0] == t.subrange(0, 13)[0]);
    }
}

/// Tagging is idempotent: a pass over its own output changes nothing.
pub proof fn tagging_is_idempotent(st: TagScan, ls: Seq<Seq<char>>, nested: bool)
    ensures
        tag_lines(st, tag_lines(st, ls, nested), nested) == tag_lines(st, ls, nested),
    decreases ls.len(),
{
    if ls.len() > 0 {
        let (st2, out) = tag_step(st, ls[0], nested);
        if out != ls[0] {
            lemma_tagged_line_step(st, ls[0], nested);
        }
        let t = tag_lines(st, ls, nested);
        assert(t == seq![out] + tag_lines(st2, ls.drop_first(), nested));
        assert(t[0] == out);
        assert(t.drop_first() =~= tag_lines(st2, ls.drop_first(), nested));
        tagging_is_idempotent(st2, ls.drop_first(), nested);
    }
}

proof fn lemma_value_end_bound(s: Seq<char>)
    ensures
        value_end(s) <= s.len(),
    decreases s.len(),
{
    if s.len() > 0 && !is_ws(s[0]) && s[0] != '#' {
        lemma_value_end_bound(s.drop_first());
    }
}

/// A tagged line is the line with `!!str ` put in after the key and the
/// whitespace that follows it.
proof fn lemma_tag_shape(l: Seq<char>) -> (a: int)
    requires
        starts_with(trim_start(l), "short-id:"@),
        tag_line(l) is Some,
    ensures
        lead_ws(l) + 9 <= a <= l.len(),
        tag_line(l)->0 == l.take(a) + "!!str "@ + l.skip(a),
        forall|x: int| 0 <= x < lead_ws(l) ==> is_ws(#[trigger] l[x]),
        forall|x: int| lead_ws(l) + 9 <= x < a ==> is_ws(#[trigger] l[x]),
        l.subrange(lead_ws(l) as int, lead_ws(l) + 9int) == "short-id:"@,
{
    reveal_strlit("short-id:");
    lemma_key_line_trim(l);
    lemma_lead_ws_bound(l);
    let k = lead_ws(l) + 9int;
    let after = l.skip(k);
    lemma_lead_ws_bound(after);
    let g = lead_ws(after) as int;
    let ta = trim_start(after);
    let gap = after.take(g);
    let ve = value_end(ta) as int;
    let value = ta.take(ve);
    let suffix = ta.skip(ve);
    let a = k + g;
    assert(ta =~= l.skip(a));
    assert(gap =~= l.subrange(k, a));
    lemma_value_end_bound(ta);
    assert(value + suffix =~= ta);
    assert(tag_line(l)->0 =~= l.take(a) + "!!str "@ + l.skip(a));
    assert forall|x: int| k <= x < a implies is_ws(#[trigger] l[x]) by {
        assert(l[x] == after[x - k]);
    }
    let x = trim_start(l);
    assert(x =~= l.skip(lead_ws(l) as int));
    assert(l.subrange(lead_ws(l) as int, k) =~= x.subrange(0, 9));
    a
}

/// A tagged line keeps every occurrence of the keys `proxies:` and `short-id:`.
proof fn lemma_tag_keeps_key(l: Seq<char>, p: Seq<char>)
    requires
        starts_with(trim_start(l), "short-id:"@),
        tag_line(l) is Some,
        p == "proxies:"@ || p == "short-id:"@,
        contains_sub(l, p),
    ensures
        contains_sub(tag_line(l)->0, p),
{
    reveal_strlit("short-id:");
    reveal_strlit("proxies:");
    reveal_strlit("!!str ");
    let a = lemma_tag_shape(l);
    let t = tag_line(l)->0;
    let lead = lead_ws(l) as int;
    let m = p.len() as int;
    let key = "short-id:"@;
    let q = choose|q: int| 0 <= q <= l.len() - m && #[trigger] l.subrange(q, q + m) == p;
    assert forall|y: int| 0 <= y < m implies !is_ws(#[trigger] p[y]) by {}
    if q + m <= a {
        assert(t.subrange(q, q + m) =~= l.subrange(q, q + m));
    } else if q >= a {
        assert(t.subrange(q + 6, q + 6 + m) =~= l.subrange(q, q + m));
    } else {
        let k = lead + 9;
        if a > k {
            assert(p[a - 1 - q] == l[a - 1]);
            assert(is_ws(l[a - 1]));
        } else if q < lead {
            assert(p[lead - 1 - q] == l[lead - 1]);
            assert(is_ws(l[lead - 1]));
        } else {
            assert(p[0] == l[q]);
            assert(l[q] == key[q - lead]);
            assert forall|j: int| 0 <= j < 9 implies #[trigger] key[j] != 'p' by {}
            assert forall|j: int| 0 < j < 9 implies #[trigger] key[j] != 's' by {}
        }
    }
}

/// The tagged form of a plain line is a plain, non-empty line when the line is.
proof fn lemma_tag_plain(l: Seq<char>)
    requires
        starts_with(trim_start(l), "short-id:"@),
        tag_line(l) is Some,
        crate::text::plain_line(l),
    ensures
        crate::text::plain_line(tag_line(l)->0),
        tag_line(l)->0.len() >= l.len(),
{
    reveal_strlit("!!str ");
    let a = lemma_tag_shape(l);
    let t = tag_line(l)->0;
    let tag = "!!str "@;
    assert forall|x: int| 0 <= x < t.len() implies #[trigger] t[x] != '\n' && t[x] != '\r' by {
        if x < a {
            assert(t[x] == l[x]);
        } else if x >= a + 6 {
            assert(t[x] == l[x - 6]);
        } else {
            assert(t[x] == tag[x - a]);
        }
    }
}

/// Tagging a text a second time changes nothing, for a text without carriage
/// returns that does not end in an empty line.
pub proof fn tagged_text_is_idempotent(s: Seq<char>, nested: bool)
    requires
        !s.contains('\r'),
        !("\n\n"@.is_suffix_of(s)),
    ensures
        tagged_yaml(tagged_yaml(s, nested), nested) == tagged_yaml(s, nested),
{
    reveal_strlit("proxies:");
    reveal_strlit("short-id:");
    if contains_sub(s, "proxies:"@) && contains_sub(s, "short-id:"@) {
        assert(s != seq!['\n']) by {
            if s == seq!['\n'] {
                let q = choose|q: int| 0 <= q <= s.len() - 8 && #[trigger] s.subrange(q, q + 8) == "proxies:"@;
            }
        }
        let ls = lines_of(s);
        crate::text::lemma_lines_plain(s);
        let st = scan_start();
        let out = tag_lines(st, ls, nested);
        tagging_keeps_lines(st, ls, nested);
        assert forall|i: int| 0 <= i < out.len() implies crate::text::plain_line(#[trigger] out[i]) && out[i].len()
            >= ls[i].len() by {
            if out[i] != ls[i] {
                lemma_tag_plain(ls[i]);
            }
        }
        if out.len() > 0 {
            assert(out.last() == out[out.len() - 1]);
            assert(ls.last() == ls[ls.len() - 1]);
        }
        crate::text::lemma_lines_of_join(out);
        let t = join_with(out, "\n"@);
        assert forall|p: Seq<char>| p == "proxies:"@ || p == "short-id:"@ implies #[trigger] contains_sub(t, p) by {
            assert(!p.contains('\n')) by {
                if p.contains('\n') {
                    let j = choose|j: int| 0 <= j < p.len() && p[j] == '\n';
                }
            }
            let k = crate::text::lemma_line_with(s, p);
            if out[k] != ls[k] {
                lemma_tag_keeps_key(ls[k], p);
            }
            crate::text::lemma_join_keeps(out, "\n"@, k, p);
        }
        assert(contains_sub(t, "proxies:"@));
        assert(contains_sub(t, "short-id:"@));
        tagging_is_idempotent(st, ls, nested);
    }
}

} // verus!
