//! Unix paths as the compiler uses them: components, lexical normalisation,
//! joining, relative paths, and the provider-file path rules.
//!
//! A path is its text. Its components are those of `std::path::Path` on Unix:
//! a leading `/` is the root, a leading `.` segment is the current directory,
//! empty and other `.` segments are dropped, `..` is the parent directory.
use crate::text::{
    chars_of, concat2, copy_string, is_ws, lead_ws, push_char, push_str, replace_char, str_eq,
    string_from_range, trail_ws, trim, trim_end, trim_start,
};
use vstd::prelude::*;

verus! {

/// The view of one path component.
pub enum Comp {
    RootDir,
    CurDir,
    ParentDir,
    Normal(Seq<char>),
}

/// One path component.
#[derive(Debug)]
pub enum PathPart {
    RootDir,
    CurDir,
    ParentDir,
    Normal(String),
}

pub open spec fn part_v(p: PathPart) -> Comp {
    match p {
        PathPart::RootDir => Comp::RootDir,
        PathPart::CurDir => Comp::CurDir,
        PathPart::ParentDir => Comp::ParentDir,
        PathPart::Normal(s) => Comp::Normal(s@),
    }
}

pub open spec fn parts_v(ps: Seq<PathPart>) -> Seq<Comp> {
    Seq::new(ps.len(), |i: int| part_v(ps[i]))
}

// ---------------------------------------------------------------------------
// Components
// ---------------------------------------------------------------------------

/// Index of the first `'/'` in `s`, or `s.len()`.
pub open spec fn first_slash(s: Seq<char>) -> nat
    decreases s.len(),
{
    if s.len() == 0 || s[0] == '/' {
        0
    } else {
        1 + first_slash(s.drop_first())
    }
}

/// The component a segment between separators stands for, if any.
pub open spec fn seg_comp(seg: Seq<char>) -> Option<Comp> {
    if seg.len() == 0 || seg == seq!['.'] {
        None
    } else if seg == seq!['.', '.'] {
        Some(Comp::ParentDir)
    } else {
        Some(Comp::Normal(seg))
    }
}

pub open spec fn opt_seq(c: Option<Comp>) -> Seq<Comp> {
    match c {
        Some(x) => seq![x],
        None => seq![],
    }
}

/// The components of the segments of `s`.
pub open spec fn body_comps(s: Seq<char>) -> Seq<Comp>
    decreases s.len(),
{
    if s.len() == 0 {
        seq![]
    } else {
        let i = first_slash(s) as int;
        if i < s.len() {
            opt_seq(seg_comp(s.take(i))) + body_comps(s.skip(i + 1))
        } else {
            opt_seq(seg_comp(s))
        }
    }
}

pub open spec fn is_abs(p: Seq<char>) -> bool {
    p.len() > 0 && p[0] == '/'
}

/// `Path::components` on Unix.
pub open spec fn path_comps(p: Seq<char>) -> Seq<Comp> {
    if is_abs(p) {
        seq![Comp::RootDir] + body_comps(p)
    } else if p.len() > 0 && p[0] == '.' && (p.len() == 1 || p[1] == '/') {
        seq![Comp::CurDir] + body_comps(p)
    } else {
        body_comps(p)
    }
}

// ---------------------------------------------------------------------------
// Building paths
// ---------------------------------------------------------------------------

/// `PathBuf::push` of the text `p`: an absolute `p` replaces the buffer,
/// otherwise a separator is added when the buffer does not end in one.
pub open spec fn push_path(buf: Seq<char>, p: Seq<char>) -> Seq<char> {
    if is_abs(p) {
        p
    } else if buf.len() > 0 && buf.last() != '/' {
        buf + seq!['/'] + p
    } else {
        buf + p
    }
}

pub open spec fn comp_text(c: Comp) -> Seq<char> {
    match c {
        Comp::RootDir => seq!['/'],
        Comp::CurDir => seq!['.'],
        Comp::ParentDir => seq!['.', '.'],
        Comp::Normal(x) => x,
    }
}

/// The text of a `PathBuf` built by pushing the components in order.
pub open spec fn render(cs: Seq<Comp>) -> Seq<char>
    decreases cs.len(),
{
    if cs.len() == 0 {
        seq![]
    } else {
        push_path(render(cs.drop_last()), comp_text(cs.last()))
    }
}

/// One step of lexical normalisation: `.` is skipped, `..` pops the last
/// component (never the root), the root restarts the path.
pub open spec fn norm_step(acc: Seq<Comp>, c: Comp) -> Seq<Comp> {
    match c {
        Comp::CurDir => acc,
        Comp::ParentDir => if acc.len() > 0 && acc.last() != Comp::RootDir {
            acc.drop_last()
        } else {
            acc
        },
        Comp::RootDir => seq![Comp::RootDir],
        Comp::Normal(x) => acc.push(Comp::Normal(x)),
    }
}

/// Lexical normalisation of a component list.
pub open spec fn norm(cs: Seq<Comp>) -> Seq<Comp>
    decreases cs.len(),
{
    if cs.len() == 0 {
        seq![]
    } else {
        norm_step(norm(cs.drop_last()), cs.last())
    }
}

/// One step of cleaning a relative path: like [`norm_step`], but the root is dropped.
pub open spec fn clean_step(acc: Seq<Comp>, c: Comp) -> Seq<Comp> {
    match c {
        Comp::CurDir => acc,
        Comp::ParentDir => if acc.len() > 0 {
            acc.drop_last()
        } else {
            acc
        },
        Comp::RootDir => acc,
        Comp::Normal(x) => acc.push(Comp::Normal(x)),
    }
}

pub open spec fn clean(cs: Seq<Comp>) -> Seq<Comp>
    decreases cs.len(),
{
    if cs.len() == 0 {
        seq![]
    } else {
        clean_step(clean(cs.drop_last()), cs.last())
    }
}

/// Length of the longest common prefix of two component lists.
pub open spec fn common_len(a: Seq<Comp>, b: Seq<Comp>) -> nat
    decreases a.len(),
{
    if a.len() == 0 || b.len() == 0 || a[0] != b[0] {
        0
    } else {
        1 + common_len(a.drop_first(), b.drop_first())
    }
}

/// One `..` for every normal component of `bs`.
pub open spec fn ups(bs: Seq<Comp>) -> Seq<Comp>
    decreases bs.len(),
{
    if bs.len() == 0 {
        seq![]
    } else {
        ups(bs.drop_last()) + if bs.last() is Normal {
            seq![Comp::ParentDir]
        } else {
            seq![]
        }
    }
}

/// The path that leads from `base` to `path`; none when they share no first component.
pub open spec fn relative_from(path: Seq<Comp>, base: Seq<Comp>) -> Option<Seq<Comp>> {
    let c = common_len(path, base) as int;
    if c == 0 {
        None
    } else {
        Some(ups(base.skip(c)) + path.skip(c))
    }
}

pub open spec fn has_parent(cs: Seq<Comp>) -> bool {
    cs.len() > 0 && cs.last() != Comp::RootDir
}

/// The components of the runtime home: the grandparent of the profile
/// directory joined with `mihomo`, or the profile directory itself when it has
/// no grandparent.
pub open spec fn runtime_home(pd: Seq<char>) -> Seq<Comp> {
    let cs = path_comps(pd);
    if has_parent(cs) && has_parent(cs.drop_last()) {
        cs.drop_last().drop_last().push(Comp::Normal("mihomo"@))
    } else {
        cs
    }
}

// ---------------------------------------------------------------------------
// Executable path operations
// ---------------------------------------------------------------------------

proof fn lemma_first_slash(s: Seq<char>, k: int)
    requires
        0 <= k <= s.len(),
        forall|j: int| 0 <= j < k ==> #[trigger] s[j] != '/',
        k == s.len() || s[k] == '/',
    ensures
        first_slash(s) == k,
    decreases k,
{
    if k > 0 {
        lemma_first_slash(s.drop_first(), k - 1);
    }
}

fn seg_part(v: &Vec<char>, lo: usize, hi: usize) -> (r: Option<PathPart>)
    requires
        lo <= hi <= v.len(),
    ensures
        r matches Some(p) ==> seg_comp(v@.subrange(lo as int, hi as int)) == Some(part_v(p)),
        r is None ==> seg_comp(v@.subrange(lo as int, hi as int)) is None,
{
    let ghost seg = v@.subrange(lo as int, hi as int);
    if hi == lo {
        None
    } else if hi - lo == 1 && v[lo] == '.' {
        assert(seg =~= seq!['.']);
        None
    } else if hi - lo == 2 && v[lo] == '.' && v[lo + 1] == '.' {
        assert(seg =~= seq!['.', '.']);
        Some(PathPart::ParentDir)
    } else {
        let s = string_from_range(v, lo, hi);
        proof {
            assert(seg.len() == hi - lo);
            assert(seg.len() > 0);
            if seg.len() == 1 {
                assert(seg[0] == v@[lo as int]);
                assert(seg[0] != '.');
                assert(seg != seq!['.']);
            }
            if seg.len() == 2 {
                assert(seg[0] == v@[lo as int]);
                assert(seg[1] == v@[lo + 1]);
                assert(seg != seq!['.', '.']);
            }
            assert(seg.len() == 1 || seg != seq!['.']);
            assert(seg.len() == 2 || seg != seq!['.', '.']);
            assert(seg_comp(seg) == Some(Comp::Normal(seg)));
        }
        Some(PathPart::Normal(s))
    }
}

/// The components of the path text `p`.
pub fn path_components(p: &str) -> (r: Vec<PathPart>)
    ensures
        parts_v(r@) == path_comps(p@),
{
    let v = chars_of(p);
    let mut out: Vec<PathPart> = Vec::new();
    if v.len() > 0 && v[0] == '/' {
        out.push(PathPart::RootDir);
    } else if v.len() > 0 && v[0] == '.' && (v.len() == 1 || v[1] == '/') {
        out.push(PathPart::CurDir);
    }
    let ghost head = parts_v(out@);
    proof {
        assert(v@.skip(0) =~= v@);
        assert(parts_v(out@) =~= head + Seq::<Comp>::empty());
    }
    let mut start: usize = 0;
    while start < v.len()
        invariant
            0 <= start <= v.len(),
            v@ == p@,
            head + body_comps(v@) == parts_v(out@) + body_comps(v@.skip(start as int)),
        decreases v.len() - start,
    {
        let ghost s = v@.skip(start as int);
        let mut i = start;
        while i < v.len() && v[i] != '/'
            invariant
                start <= i <= v.len(),
                forall|j: int| start <= j < i ==> #[trigger] v@[j] != '/',
            decreases v.len() - i,
        {
            i = i + 1;
        }
        proof {
            assert forall|j: int| 0 <= j < i - start implies #[trigger] s[j] != '/' by {
                assert(s[j] == v@[start + j]);
            }
            if i < v.len() {
                assert(s[i - start] == v@[i as int]);
            }
            lemma_first_slash(s, i - start);
            assert(s.take(i - start) =~= v@.subrange(start as int, i as int));
        }
        let ghost before = parts_v(out@);
        let seg = seg_part(&v, start, i);
        match seg {
            Some(part) => {
                out.push(part);
            },
            None => {},
        }
        proof {
            assert(parts_v(out@) =~= before + opt_seq(seg_comp(v@.subrange(start as int, i as int))));
            if i >= v.len() {
                assert(s =~= v@.subrange(start as int, i as int));
                assert(v@.skip(v@.len() as int) =~= Seq::<char>::empty());
            } else {
                assert(s.skip(i - start + 1) =~= v@.skip(i + 1));
            }
        }
        if i >= v.len() {
            start = v.len();
        } else {
            start = i + 1;
        }
        proof {
            if start == v.len() {
                assert(body_comps(v@.skip(start as int)) =~= Seq::<Comp>::empty());
            }
            assert(head + body_comps(v@) =~= parts_v(out@) + body_comps(v@.skip(start as int)));
        }
    }
    proof {
        assert(body_comps(v@.skip(start as int)) =~= Seq::<Comp>::empty());
        assert(parts_v(out@) =~= parts_v(out@) + body_comps(v@.skip(start as int)));
    }
    out
}

/// Appends `p` to `buf` as `PathBuf::push` does.
pub fn push_path_text(buf: &mut String, p: &str)
    ensures
        final(buf)@ == push_path(old(buf)@, p@),
{
    let pv = chars_of(p);
    if pv.len() > 0 && pv[0] == '/' {
        *buf = copy_string(p);
        return;
    }
    let bv = chars_of(buf.as_str());
    if bv.len() > 0 && bv[bv.len() - 1] != '/' {
        push_char(buf, '/');
    }
    push_str(buf, p);
}

/// `Path::join` of two path texts.
pub fn join_path(a: &str, b: &str) -> (r: String)
    ensures
        r@ == push_path(a@, b@),
{
    let mut r = copy_string(a);
    push_path_text(&mut r, b);
    r
}

fn part_text(p: &PathPart) -> (r: String)
    ensures
        r@ == comp_text(part_v(*p)),
{
    match p {
        PathPart::RootDir => {
            proof {
                reveal_strlit("/");
            }
            copy_string("/")
        },
        PathPart::CurDir => {
            proof {
                reveal_strlit(".");
            }
            copy_string(".")
        },
        PathPart::ParentDir => {
            proof {
                reveal_strlit("..");
            }
            copy_string("..")
        },
        PathPart::Normal(s) => copy_string(s.as_str()),
    }
}

/// The text of the components, joined as a `PathBuf` joins them.
pub fn render_parts(cs: &Vec<PathPart>) -> (r: String)
    ensures
        r@ == render(parts_v(cs@)),
{
    let mut r = String::new();
    let mut i: usize = 0;
    proof {
        reveal_strlit("/");
        reveal_strlit(".");
        reveal_strlit("..");
        assert(parts_v(cs@).take(0) =~= Seq::<Comp>::empty());
    }
    while i < cs.len()
        invariant
            0 <= i <= cs.len(),
            r@ == render(parts_v(cs@).take(i as int)),
        decreases cs.len() - i,
    {
        let t = part_text(&cs[i]);
        push_path_text(&mut r, t.as_str());
        proof {
            let q = parts_v(cs@).take(i + 1);
            assert(q.drop_last() =~= parts_v(cs@).take(i as int));
        }
        i = i + 1;
    }
    assert(parts_v(cs@).take(cs@.len() as int) =~= parts_v(cs@));
    r
}

fn copy_part(p: &PathPart) -> (r: PathPart)
    ensures
        part_v(r) == part_v(*p),
{
    match p {
        PathPart::RootDir => PathPart::RootDir,
        PathPart::CurDir => PathPart::CurDir,
        PathPart::ParentDir => PathPart::ParentDir,
        PathPart::Normal(s) => PathPart::Normal(s.clone()),
    }
}

/// Lexical normalisation, as `normalize_path` computes it.
pub fn normalize_path(cs: &Vec<PathPart>) -> (r: Vec<PathPart>)
    ensures
        parts_v(r@) == norm(parts_v(cs@)),
{
    let mut out: Vec<PathPart> = Vec::new();
    let mut i: usize = 0;
    proof {
        assert(parts_v(cs@).take(0) =~= Seq::<Comp>::empty());
        assert(parts_v(out@) =~= Seq::<Comp>::empty());
    }
    while i < cs.len()
        invariant
            0 <= i <= cs.len(),
            parts_v(out@) == norm(parts_v(cs@).take(i as int)),
        decreases cs.len() - i,
    {
        let ghost acc = parts_v(out@);
        proof {
            let q = parts_v(cs@).take(i + 1);
            assert(q.drop_last() =~= parts_v(cs@).take(i as int));
            assert(q.last() == part_v(cs@[i as int]));
        }
        match &cs[i] {
            PathPart::CurDir => {},
            PathPart::ParentDir => {
                if out.len() > 0 {
                    let last_is_root = match &out[out.len() - 1] {
                        PathPart::RootDir => true,
                        _ => false,
                    };
                    if !last_is_root {
                        out.pop();
                        assert(parts_v(out@) =~= acc.drop_last());
                    }
                }
            },
            PathPart::RootDir => {
                out = Vec::new();
                out.push(PathPart::RootDir);
                assert(parts_v(out@) =~= seq![Comp::RootDir]);
            },
            PathPart::Normal(s) => {
                out.push(PathPart::Normal(s.clone()));
                assert(parts_v(out@) =~= acc.push(Comp::Normal(s@)));
            },
        }
        i = i + 1;
    }
    assert(parts_v(cs@).take(cs@.len() as int) =~= parts_v(cs@));
    out
}

/// Cleaning of a relative path, as `clean_relative_path` computes it.
pub fn clean_relative_path(cs: &Vec<PathPart>) -> (r: Vec<PathPart>)
    ensures
        parts_v(r@) == clean(parts_v(cs@)),
{
    let mut out: Vec<PathPart> = Vec::new();
    let mut i: usize = 0;
    proof {
        assert(parts_v(cs@).take(0) =~= Seq::<Comp>::empty());
        assert(parts_v(out@) =~= Seq::<Comp>::empty());
    }
    while i < cs.len()
        invariant
            0 <= i <= cs.len(),
            parts_v(out@) == clean(parts_v(cs@).take(i as int)),
        decreases cs.len() - i,
    {
        let ghost acc = parts_v(out@);
        proof {
            let q = parts_v(cs@).take(i + 1);
            assert(q.drop_last() =~= parts_v(cs@).take(i as int));
            assert(q.last() == part_v(cs@[i as int]));
        }
        match &cs[i] {
            PathPart::ParentDir => {
                if out.len() > 0 {
                    out.pop();
                    assert(parts_v(out@) =~= acc.drop_last());
                }
            },
            PathPart::Normal(s) => {
                out.push(PathPart::Normal(s.clone()));
                assert(parts_v(out@) =~= acc.push(Comp::Normal(s@)));
            },
            _ => {},
        }
        i = i + 1;
    }
    assert(parts_v(cs@).take(cs@.len() as int) =~= parts_v(cs@));
    out
}

fn part_eq(a: &PathPart, b: &PathPart) -> (r: bool)
    ensures
        r == (part_v(*a) == part_v(*b)),
{
    match (a, b) {
        (PathPart::RootDir, PathPart::RootDir) => true,
        (PathPart::CurDir, PathPart::CurDir) => true,
        (PathPart::ParentDir, PathPart::ParentDir) => true,
        (PathPart::Normal(x), PathPart::Normal(y)) => *x == *y,
        _ => false,
    }
}

proof fn lemma_common_len(a: Seq<Comp>, b: Seq<Comp>, k: int)
    requires
        0 <= k <= a.len(),
        k <= b.len(),
        forall|j: int| 0 <= j < k ==> a[j] == b[j],
        k == a.len() || k == b.len() || a[k] != b[k],
    ensures
        common_len(a, b) == k,
    decreases k,
{
    if k > 0 {
        lemma_common_len(a.drop_first(), b.drop_first(), k - 1);
    }
}

proof fn lemma_ups_push(bs: Seq<Comp>, c: Comp)
    ensures
        ups(bs.push(c)) == ups(bs) + if c is Normal {
            seq![Comp::ParentDir]
        } else {
            seq![]
        },
{
    assert(bs.push(c).drop_last() =~= bs);
}

/// The path from `base` to `path`, as `relative_path_from` computes it.
pub fn relative_path_from(path: &Vec<PathPart>, base: &Vec<PathPart>) -> (r: Option<Vec<PathPart>>)
    ensures
        r matches Some(x) ==> relative_from(parts_v(path@), parts_v(base@)) == Some(parts_v(x@)),
        r is None ==> relative_from(parts_v(path@), parts_v(base@)) is None,
{
    let ghost pv = parts_v(path@);
    let ghost bv = parts_v(base@);
    let mut common: usize = 0;
    while common < path.len() && common < base.len() && part_eq(&path[common], &base[common])
        invariant
            0 <= common <= path.len(),
            common <= base.len(),
            pv == parts_v(path@),
            bv == parts_v(base@),
            forall|j: int| 0 <= j < common ==> pv[j] == bv[j],
        decreases path.len() - common,
    {
        common = common + 1;
    }
    proof {
        lemma_common_len(pv, bv, common as int);
    }
    if common == 0 {
        return None;
    }
    let mut result: Vec<PathPart> = Vec::new();
    let mut i = common;
    proof {
        assert(bv.skip(common as int).take(0) =~= Seq::<Comp>::empty());
        assert(parts_v(result@) =~= ups(bv.skip(common as int).take(0)));
    }
    while i < base.len()
        invariant
            common <= i <= base.len(),
            bv == parts_v(base@),
            parts_v(result@) == ups(bv.skip(common as int).take(i - common)),
        decreases base.len() - i,
    {
        let ghost before = parts_v(result@);
        proof {
            let q = bv.skip(common as int).take(i - common + 1);
            assert(q =~= bv.skip(common as int).take(i - common).push(bv[i as int]));
            lemma_ups_push(bv.skip(common as int).take(i - common), bv[i as int]);
        }
        if let PathPart::Normal(_) = &base[i] {
            result.push(PathPart::ParentDir);
            assert(parts_v(result@) =~= before + seq![Comp::ParentDir]);
        } else {
            assert(parts_v(result@) =~= before + Seq::<Comp>::empty());
        }
        i = i + 1;
    }
    proof {
        assert(bv.skip(common as int).take(base@.len() - common) =~= bv.skip(common as int));
    }
    let ghost ups_part = parts_v(result@);
    let mut j = common;
    proof {
        assert(parts_v(result@) =~= ups_part + pv.skip(common as int).take(0));
    }
    while j < path.len()
        invariant
            common <= j <= path.len(),
            pv == parts_v(path@),
            parts_v(result@) == ups_part + pv.skip(common as int).take(j - common),
        decreases path.len() - j,
    {
        let ghost before = parts_v(result@);
        result.push(copy_part(&path[j]));
        assert(parts_v(result@) =~= before.push(pv[j as int]));
        proof {
            assert(pv.skip(common as int).take(j - common + 1) =~= pv.skip(common as int).take(j - common).push(pv[j as int]));
        }
        j = j + 1;
        assert(parts_v(result@) =~= ups_part + pv.skip(common as int).take(j - common));
    }
    assert(pv.skip(common as int).take(path@.len() - common) =~= pv.skip(common as int));
    Some(result)
}

/// The components of the runtime home of `profile_dir`.
pub fn runtime_home_dir(profile_dir: &str) -> (r: Vec<PathPart>)
    ensures
        parts_v(r@) == runtime_home(profile_dir@),
{
    let mut cs = path_components(profile_dir);
    let ghost all = parts_v(cs@);
    let n = cs.len();
    let p1 = n > 0 && !matches!(cs[n - 1], PathPart::RootDir);
    let p2 = n > 1 && !matches!(cs[n - 2], PathPart::RootDir);
    proof {
        if n > 0 {
            assert(all.last() == part_v(cs@[n - 1]));
        }
        if n > 1 {
            assert(all.drop_last().last() == part_v(cs@[n - 2]));
        }
    }
    if p1 && p2 {
        cs.pop();
        cs.pop();
        cs.push(PathPart::Normal(copy_string("mihomo")));
        assert(parts_v(cs@) =~= all.drop_last().drop_last().push(Comp::Normal("mihomo"@)));
    }
    cs
}

/// `s` with every backslash turned into a slash.
pub fn backslash_to_slash(s: &str) -> (r: String)
    ensures
        r@ == replace_char(s@, '\\', '/'),
{
    let v = chars_of(s);
    let mut r = String::new();
    let mut i: usize = 0;
    while i < v.len()
        invariant
            0 <= i <= v.len(),
            v@ == s@,
            r@ == replace_char(v@.take(i as int), '\\', '/'),
        decreases v.len() - i,
    {
        if v[i] == '\\' {
            push_char(&mut r, '/');
        } else {
            push_char(&mut r, v[i]);
        }
        i = i + 1;
        assert(r@ =~= replace_char(v@.take(i as int), '\\', '/'));
    }
    assert(v@.take(v@.len() as int) =~= v@);
    r
}


// ---------------------------------------------------------------------------
// Provider files
// ---------------------------------------------------------------------------

/// Directory names that a provider path may start with and that are dropped.
pub open spec fn is_provider_dir(n: Seq<char>) -> bool {
    n == "providers"@ || n == "provider"@ || n == "clash"@ || n == "ruleset"@ || n == "rules"@
        || n == "proxies"@
}

/// `cs` with its leading provider directory names removed.
pub open spec fn trim_dirs(cs: Seq<Comp>) -> Seq<Comp>
    decreases cs.len(),
{
    if cs.len() > 0 && (match cs[0] {
        Comp::Normal(n) => is_provider_dir(n),
        _ => false,
    }) {
        trim_dirs(cs.drop_first())
    } else {
        cs
    }
}

/// A file name has an extension when it holds a `.` after its first character.
pub open spec fn has_dot_ext(n: Seq<char>) -> bool {
    exists|i: int| 1 <= i < n.len() && n[i] == '.'
}

/// `Path::extension` is some: the last component is a name with an extension.
pub open spec fn has_extension(p: Seq<char>) -> bool {
    let cs = path_comps(p);
    cs.len() > 0 && match cs.last() {
        Comp::Normal(n) => has_dot_ext(n),
        _ => false,
    }
}

/// The provider file name with `ext` added where it has none.
pub open spec fn with_provider_ext(p: Seq<char>, ext: Seq<char>) -> Seq<char> {
    if p.len() == 0 {
        "provider."@ + ext
    } else if has_extension(p) {
        p
    } else {
        p + seq!['.'] + ext
    }
}

/// The text of `profile_dir/providers/prefix`.
pub open spec fn provider_base(pd: Seq<char>, prefix: Seq<char>) -> Seq<char> {
    push_path(push_path(pd, "providers"@), prefix)
}

/// `p` written relative to the runtime home of `pd` where the two share a
/// first component, `p` itself otherwise; backslashes become slashes.
pub open spec fn home_relative(pd: Seq<char>, p: Seq<char>) -> Seq<char> {
    let shown = match relative_from(norm(path_comps(p)), norm(runtime_home(pd))) {
        Some(r) => render(r),
        None => p,
    };
    replace_char(shown, '\\', '/')
}

/// The stored path of the provider file `rel` (or `provider.yaml`) of group `prefix`.
pub open spec fn provider_file(pd: Seq<char>, prefix: Seq<char>, rel: Seq<char>) -> Seq<char> {
    let tail = if rel.len() == 0 {
        "provider.yaml"@
    } else {
        rel
    };
    home_relative(pd, push_path(provider_base(pd, prefix), tail))
}

/// The last component when it is a name: `Path::file_name`.
pub open spec fn file_name_comps(cs: Seq<Comp>) -> Seq<Comp> {
    if cs.len() > 0 && cs.last() is Normal {
        seq![cs.last()]
    } else {
        seq![]
    }
}

/// The provider path that `path` is rewritten to.
pub open spec fn provider_path_spec(path: Seq<char>, pd: Seq<char>, prefix: Seq<char>, ext: Seq<char>) -> Seq<char> {
    let raw = path_comps(path);
    if is_abs(path) && path_comps(provider_base(pd, prefix)).is_prefix_of(raw) {
        home_relative(pd, path)
    } else {
        let cleaned = if is_abs(path) {
            file_name_comps(raw)
        } else {
            trim_dirs(clean(raw))
        };
        provider_file(pd, prefix, with_provider_ext(render(trim_dirs(cleaned)), ext))
    }
}

fn is_provider_dir_name(n: &str) -> (r: bool)
    ensures
        r == is_provider_dir(n@),
{
    str_eq(n, "providers") || str_eq(n, "provider") || str_eq(n, "clash") || str_eq(n, "ruleset")
        || str_eq(n, "rules") || str_eq(n, "proxies")
}

fn part_is_provider_dir(p: &PathPart) -> (r: bool)
    ensures
        r == (match part_v(*p) {
            Comp::Normal(n) => is_provider_dir(n),
            _ => false,
        }),
{
    match p {
        PathPart::Normal(n) => is_provider_dir_name(n.as_str()),
        _ => false,
    }
}

/// Drops leading provider directory names.
pub fn trim_provider_prefix(path: Vec<PathPart>) -> (r: Vec<PathPart>)
    ensures
        parts_v(r@) == trim_dirs(parts_v(path@)),
{
    let ghost all = parts_v(path@);
    let mut k: usize = 0;
    proof {
        assert(all.skip(0) =~= all);
    }
    while k < path.len() && part_is_provider_dir(&path[k])
        invariant
            0 <= k <= path.len(),
            all == parts_v(path@),
            trim_dirs(all.skip(k as int)) == trim_dirs(all),
        decreases path.len() - k,
    {
        proof {
            assert(all.skip(k as int)[0] == part_v(path@[k as int]));
            assert(all.skip(k as int).drop_first() =~= all.skip(k + 1));
        }
        k = k + 1;
    }
    let mut out: Vec<PathPart> = Vec::new();
    let mut j = k;
    proof {
        if k < path.len() {
            assert(all.skip(k as int)[0] == part_v(path@[k as int]));
        } else {
            assert(all.skip(k as int) =~= Seq::<Comp>::empty());
        }
        assert(parts_v(out@) =~= all.skip(k as int).take(0));
    }
    while j < path.len()
        invariant
            k <= j <= path.len(),
            all == parts_v(path@),
            parts_v(out@) == all.skip(k as int).take(j - k),
        decreases path.len() - j,
    {
        let ghost before = parts_v(out@);
        out.push(copy_part(&path[j]));
        assert(parts_v(out@) =~= before.push(all[j as int]));
        assert(all.skip(k as int).take(j - k + 1) =~= all.skip(k as int).take(j - k).push(all[j as int]));
        j = j + 1;
    }
    assert(all.skip(k as int).take(path@.len() - k) =~= all.skip(k as int));
    out
}

fn name_has_dot_ext(n: &str) -> (r: bool)
    ensures
        r == has_dot_ext(n@),
{
    let v = chars_of(n);
    let mut i: usize = 1;
    while i < v.len()
        invariant
            1 <= i,
            v@ == n@,
            forall|j: int| 1 <= j < i && j < v@.len() ==> v@[j] != '.',
        decreases v.len() - i,
    {
        if v[i] == '.' {
            return true;
        }
        i = i + 1;
    }
    false
}

/// Whether the path text has an extension.
pub fn path_has_extension(p: &str) -> (r: bool)
    ensures
        r == has_extension(p@),
{
    let cs = path_components(p);
    if cs.len() == 0 {
        return false;
    }
    proof {
        assert(parts_v(cs@).last() == part_v(cs@[cs@.len() - 1]));
    }
    match &cs[cs.len() - 1] {
        PathPart::Normal(n) => name_has_dot_ext(n.as_str()),
        _ => false,
    }
}

/// Gives a provider file name its extension.
pub fn ensure_provider_extension(path: &str, extension: &str) -> (r: String)
    ensures
        r@ == with_provider_ext(path@, extension@),
{
    if path.is_empty() {
        return concat2("provider.", extension);
    }
    if path_has_extension(path) {
        return copy_string(path);
    }
    let mut r = copy_string(path);
    push_char(&mut r, '.');
    push_str(&mut r, extension);
    r
}

/// Writes `path` relative to the runtime home of `profile_dir`.
pub fn relative_to_runtime_home(profile_dir: &str, path: &str) -> (r: String)
    ensures
        r@ == home_relative(profile_dir@, path@),
{
    let home = normalize_path(&runtime_home_dir(profile_dir));
    let target = normalize_path(&path_components(path));
    let shown = match relative_path_from(&target, &home) {
        Some(rel) => render_parts(&rel),
        None => copy_string(path),
    };
    backslash_to_slash(shown.as_str())
}

/// The text of `profile_dir/providers/prefix`.
pub fn provider_base_dir(profile_dir: &str, prefix: &str) -> (r: String)
    ensures
        r@ == provider_base(profile_dir@, prefix@),
{
    let a = join_path(profile_dir, "providers");
    join_path(a.as_str(), prefix)
}

/// The stored path of provider file `relative` in group `prefix`.
pub fn profile_provider_path(profile_dir: &str, prefix: &str, relative: &str) -> (r: String)
    ensures
        r@ == provider_file(profile_dir@, prefix@, relative@),
{
    let base = provider_base_dir(profile_dir, prefix);
    let full = if relative.is_empty() {
        join_path(base.as_str(), "provider.yaml")
    } else {
        join_path(base.as_str(), relative)
    };
    relative_to_runtime_home(profile_dir, full.as_str())
}

/// Whether `prefix` lists the first components of `path`.
pub fn parts_start_with(path: &Vec<PathPart>, prefix: &Vec<PathPart>) -> (r: bool)
    ensures
        r == parts_v(prefix@).is_prefix_of(parts_v(path@)),
{
    if prefix.len() > path.len() {
        return false;
    }
    let mut i: usize = 0;
    while i < prefix.len()
        invariant
            0 <= i <= prefix.len(),
            prefix.len() <= path.len(),
            forall|j: int| 0 <= j < i ==> parts_v(prefix@)[j] == parts_v(path@)[j],
        decreases prefix.len() - i,
    {
        if !part_eq(&prefix[i], &path[i]) {
            assert(parts_v(prefix@)[i as int] != parts_v(path@)[i as int]);
            return false;
        }
        i = i + 1;
    }
    assert(parts_v(prefix@) =~= parts_v(path@).take(prefix@.len() as int));
    true
}

/// The provider path that the configured `path` is rewritten to.
pub fn normalize_provider_path(path: &str, profile_dir: &str, prefix: &str, extension: &str) -> (r: String)
    ensures
        r@ == provider_path_spec(path@, profile_dir@, prefix@, extension@),
{
    let raw = path_components(path);
    let absolute = !path.is_empty() && path_first_is_slash(path);
    let base = provider_base_dir(profile_dir, prefix);
    let base_parts = path_components(base.as_str());
    if absolute && parts_start_with(&raw, &base_parts) {
        return relative_to_runtime_home(profile_dir, path);
    }
    let cleaned = if absolute {
        let mut f: Vec<PathPart> = Vec::new();
        let n = raw.len();
        if n > 0 {
            proof {
                assert(parts_v(raw@).last() == part_v(raw@[n - 1]));
            }
            if let PathPart::Normal(s) = &raw[n - 1] {
                f.push(PathPart::Normal(s.clone()));
                assert(parts_v(f@) =~= seq![parts_v(raw@).last()]);
            } else {
                assert(parts_v(f@) =~= Seq::<Comp>::empty());
            }
        } else {
            assert(parts_v(f@) =~= Seq::<Comp>::empty());
        }
        f
    } else {
        trim_provider_prefix(clean_relative_path(&raw))
    };
    let trimmed = trim_provider_prefix(cleaned);
    let text = render_parts(&trimmed);
    let named = ensure_provider_extension(text.as_str(), extension);
    profile_provider_path(profile_dir, prefix, named.as_str())
}

fn path_first_is_slash(p: &str) -> (r: bool)
    requires
        p@.len() > 0,
    ensures
        r == is_abs(p@),
{
    let v = chars_of(p);
    v[0] == '/'
}


// ---------------------------------------------------------------------------
// Path algebra
// ---------------------------------------------------------------------------

proof fn lemma_first_slash_cat(a: Seq<char>, b: Seq<char>)
    ensures
        first_slash(a + b) == if first_slash(a) < a.len() {
            first_slash(a)
        } else {
            a.len() + first_slash(b)
        },
        first_slash(a) <= a.len(),
    decreases a.len(),
{
    if a.len() == 0 {
        assert(a + b =~= b);
    } else {
        assert((a + b).drop_first() =~= a.drop_first() + b);
        lemma_first_slash_cat(a.drop_first(), b);
    }
}

proof fn lemma_first_slash_none(s: Seq<char>)
    ensures
        forall|j: int| 0 <= j < first_slash(s) ==> #[trigger] s[j] != '/',
        first_slash(s) < s.len() ==> s[first_slash(s) as int] == '/',
        first_slash(s) <= s.len(),
    decreases s.len(),
{
    if s.len() > 0 && s[0] != '/' {
        lemma_first_slash_none(s.drop_first());
        assert forall|j: int| 0 <= j < first_slash(s) implies #[trigger] s[j] != '/' by {
            if j > 0 {
                assert(s[j] == s.drop_first()[j - 1]);
            }
        }
    }
}

/// The components of `x/y` are those of `x`, then those of `y`.
pub proof fn lemma_body_cat(x: Seq<char>, y: Seq<char>)
    ensures
        body_comps(x + seq!['/'] + y) == body_comps(x) + body_comps(y),
    decreases x.len(),
{
    let s = x + seq!['/'] + y;
    lemma_first_slash_cat(x, seq!['/'] + y);
    assert(s =~= x + (seq!['/'] + y));
    let i = first_slash(x) as int;
    if i < x.len() {
        lemma_first_slash_none(x);
        assert(s.take(i) =~= x.take(i));
        assert(s.skip(i + 1) =~= x.skip(i + 1) + seq!['/'] + y);
        lemma_body_cat(x.skip(i + 1), y);
        assert(body_comps(s) == opt_seq(seg_comp(x.take(i))) + body_comps(x.skip(i + 1) + seq!['/'] + y));
        assert(body_comps(x) == opt_seq(seg_comp(x.take(i))) + body_comps(x.skip(i + 1)));
        assert(body_comps(s) =~= body_comps(x) + body_comps(y));
    } else {
        assert(first_slash(seq!['/'] + y) == 0);
        assert(s.take(x.len() as int) =~= x);
        assert(s.skip((x.len() + 1) as int) =~= y);
        if x.len() == 0 {
            assert(seg_comp(x) is None);
            assert(body_comps(x) =~= Seq::<Comp>::empty());
            assert(body_comps(s) =~= body_comps(x) + body_comps(y));
        } else {
            assert(body_comps(s) =~= body_comps(x) + body_comps(y));
        }
    }
}

/// A component text: no separator, not empty, not `.` or `..`.
pub open spec fn valid_name(n: Seq<char>) -> bool {
    n.len() > 0 && n != seq!['.'] && n != seq!['.', '.'] && !n.contains('/')
}

/// A component of a relative path.
pub open spec fn rel_comp(c: Comp) -> bool {
    match c {
        Comp::Normal(n) => valid_name(n),
        Comp::ParentDir => true,
        _ => false,
    }
}

pub open spec fn rel_comps(cs: Seq<Comp>) -> bool {
    forall|i: int| 0 <= i < cs.len() ==> rel_comp(#[trigger] cs[i])
}

/// The root, then components of a relative path.
pub open spec fn abs_comps(cs: Seq<Comp>) -> bool {
    cs.len() > 0 && cs[0] == Comp::RootDir && forall|i: int| 1 <= i < cs.len() ==> rel_comp(#[trigger] cs[i])
}

/// A name without separators stands for itself.
pub proof fn lemma_body_name(n: Seq<char>)
    requires
        valid_name(n),
    ensures
        body_comps(n) == seq![Comp::Normal(n)],
{
    lemma_first_slash_none(n);
    if first_slash(n) < n.len() {
        assert(n.contains('/'));
    }
}

proof fn lemma_body_parent()
    ensures
        body_comps(seq!['.', '.']) == seq![Comp::ParentDir],
{
    let n = seq!['.', '.'];
    lemma_first_slash_none(n);
    assert(n[0] != '/' && n[1] != '/');
    assert(first_slash(n) == 2) by {
        reveal_with_fuel(first_slash, 3);
    }
}

proof fn lemma_body_comp_text(c: Comp)
    requires
        rel_comp(c),
    ensures
        body_comps(comp_text(c)) == seq![c],
{
    match c {
        Comp::Normal(n) => lemma_body_name(n),
        _ => lemma_body_parent(),
    }
}

/// Pushing a relative path adds its components.
pub proof fn lemma_body_push(a: Seq<char>, b: Seq<char>)
    requires
        a.len() > 0,
        !is_abs(b),
    ensures
        body_comps(push_path(a, b)) == body_comps(a) + body_comps(b),
        push_path(a, b).len() > 0,
        push_path(a, b)[0] == a[0],
{
    if a.last() != '/' {
        lemma_body_cat(a, b);
    } else {
        let a0 = a.drop_last();
        assert(a =~= a0 + seq!['/'] + Seq::<char>::empty());
        assert(a + b =~= a0 + seq!['/'] + b);
        lemma_body_cat(a0, b);
        lemma_body_cat(a0, Seq::<char>::empty());
        assert(body_comps(Seq::<char>::empty()) =~= Seq::<Comp>::empty());
        assert(body_comps(a0) + Seq::<Comp>::empty() =~= body_comps(a0));
    }
}

/// Pushing a relative path onto a non-empty path adds its components.
pub proof fn lemma_comps_push(a: Seq<char>, b: Seq<char>)
    requires
        a.len() > 0,
        !is_abs(b),
    ensures
        path_comps(push_path(a, b)) == path_comps(a) + body_comps(b),
{
    lemma_body_push(a, b);
    let s = push_path(a, b);
    if a.len() >= 2 {
        assert(s[1] == a[1]);
    }
    if a.len() == 1 {
        if a.last() != '/' {
            assert(s.len() > 1 && s[1] == '/');
        }
    }
    assert(is_abs(s) == is_abs(a));
    assert((s.len() > 0 && s[0] == '.' && (s.len() == 1 || s[1] == '/')) == (a.len() > 0 && a[0] == '.' && (
    a.len() == 1 || a[1] == '/')));
}

/// Every component is a name.
pub open spec fn all_names(cs: Seq<Comp>) -> bool {
    forall|i: int| 0 <= i < cs.len() ==> #[trigger] cs[i] is Normal
}

/// Normalisation continued from `acc` over `cs`.
pub open spec fn norm_from(acc: Seq<Comp>, cs: Seq<Comp>) -> Seq<Comp>
    decreases cs.len(),
{
    if cs.len() == 0 {
        acc
    } else {
        norm_step(norm_from(acc, cs.drop_last()), cs.last())
    }
}

/// `k` parent-directory components.
pub open spec fn parents(k: nat) -> Seq<Comp> {
    Seq::new(k, |i: int| Comp::ParentDir)
}

proof fn lemma_norm_cat(a: Seq<Comp>, b: Seq<Comp>)
    ensures
        norm(a + b) == norm_from(norm(a), b),
    decreases b.len(),
{
    if b.len() == 0 {
        assert(a + b =~= a);
    } else {
        assert((a + b).drop_last() =~= a + b.drop_last());
        lemma_norm_cat(a, b.drop_last());
    }
}

proof fn lemma_norm_from_cat(acc: Seq<Comp>, a: Seq<Comp>, b: Seq<Comp>)
    ensures
        norm_from(acc, a + b) == norm_from(norm_from(acc, a), b),
    decreases b.len(),
{
    if b.len() == 0 {
        assert(a + b =~= a);
    } else {
        assert((a + b).drop_last() =~= a + b.drop_last());
        lemma_norm_from_cat(acc, a, b.drop_last());
    }
}

proof fn lemma_norm_from_names(acc: Seq<Comp>, b: Seq<Comp>)
    requires
        all_names(b),
    ensures
        norm_from(acc, b) == acc + b,
    decreases b.len(),
{
    if b.len() == 0 {
        assert(acc + b =~= acc);
    } else {
        assert(b.last() == b[b.len() - 1]);
        lemma_norm_from_names(acc, b.drop_last());
        assert((acc + b.drop_last()).push(b.last()) =~= acc + b);
    }
}

/// A root followed by names is already normal.
proof fn lemma_norm_rooted_names(cs: Seq<Comp>)
    requires
        cs.len() > 0,
        cs[0] == Comp::RootDir,
        all_names(cs.drop_first()),
    ensures
        norm(cs) == cs,
{
    let root = seq![Comp::RootDir];
    assert(cs =~= root + cs.drop_first());
    lemma_norm_cat(root, cs.drop_first());
    assert(root.drop_last() =~= Seq::<Comp>::empty());
    assert(norm(root) == root);
    lemma_norm_from_names(root, cs.drop_first());
}

proof fn lemma_norm_from_parents(p: Seq<Comp>, q: Seq<Comp>, k: nat)
    requires
        p.len() > 0,
        all_names(q),
        k <= q.len(),
    ensures
        norm_from(p + q, parents(k)) == p + q.take(q.len() - k),
    decreases k,
{
    if k == 0 {
        assert(q.take(q.len() as int) =~= q);
    } else {
        assert(parents(k).drop_last() =~= parents((k - 1) as nat));
        lemma_norm_from_parents(p, q, (k - 1) as nat);
        let acc = p + q.take(q.len() - (k - 1));
        assert(acc.last() == q[q.len() - k]);
        assert(acc.drop_last() =~= p + q.take(q.len() - k));
    }
}

proof fn lemma_ups_names(bs: Seq<Comp>)
    requires
        all_names(bs),
    ensures
        ups(bs) == parents(bs.len()),
    decreases bs.len(),
{
    if bs.len() > 0 {
        assert(bs.last() == bs[bs.len() - 1]);
        lemma_ups_names(bs.drop_last());
        assert(parents((bs.len() - 1) as nat) + seq![Comp::ParentDir] =~= parents(bs.len()));
    }
}

proof fn lemma_common_len_props(a: Seq<Comp>, b: Seq<Comp>)
    ensures
        common_len(a, b) <= a.len(),
        common_len(a, b) <= b.len(),
        a.take(common_len(a, b) as int) == b.take(common_len(a, b) as int),
        common_len(a, b) < a.len() && common_len(a, b) < b.len() ==> a[common_len(a, b) as int]
            != b[common_len(a, b) as int],
    decreases a.len(),
{
    if !(a.len() == 0 || b.len() == 0 || a[0] != b[0]) {
        lemma_common_len_props(a.drop_first(), b.drop_first());
        let c = common_len(a, b) as int;
        if c < a.len() && c < b.len() {
            assert(a[c] == a.drop_first()[c - 1]);
            assert(b[c] == b.drop_first()[c - 1]);
        }
        assert(a.take(c) =~= seq![a[0]] + a.drop_first().take(c - 1));
        assert(b.take(c) =~= seq![b[0]] + b.drop_first().take(c - 1));
    } else {
        assert(a.take(0) =~= b.take(0));
    }
}

/// Names, each one a valid component text.
pub open spec fn valid_names(cs: Seq<Comp>) -> bool {
    forall|i: int| 0 <= i < cs.len() ==> (#[trigger] cs[i] is Normal && valid_name(cs[i]->Normal_0))
}

/// A root, then valid names.
pub open spec fn rooted_names(cs: Seq<Comp>) -> bool {
    cs.len() > 0 && cs[0] == Comp::RootDir && valid_names(cs.drop_first())
}

proof fn lemma_seg_rel(seg: Seq<char>)
    requires
        !seg.contains('/'),
    ensures
        rel_comps(opt_seq(seg_comp(seg))),
{
}

/// Every component of a path body is a valid name or `..`.
pub proof fn lemma_body_rel(s: Seq<char>)
    ensures
        rel_comps(body_comps(s)),
    decreases s.len(),
{
    if s.len() > 0 {
        let i = first_slash(s) as int;
        lemma_first_slash_none(s);
        if i < s.len() {
            lemma_body_rel(s.skip(i + 1));
            let seg = s.take(i);
            assert(!seg.contains('/')) by {
                if seg.contains('/') {
                    let j = choose|j: int| 0 <= j < seg.len() && seg[j] == '/';
                    assert(s[j] == '/');
                }
            }
            lemma_seg_rel(seg);
            let a = opt_seq(seg_comp(seg));
            let b = body_comps(s.skip(i + 1));
            assert forall|k: int| 0 <= k < (a + b).len() implies rel_comp(#[trigger] (a + b)[k]) by {
                if k >= a.len() {
                    assert((a + b)[k] == b[k - a.len()]);
                }
            }
        } else {
            assert(!s.contains('/')) by {
                if s.contains('/') {
                    let j = choose|j: int| 0 <= j < s.len() && s[j] == '/';
                    assert(s[j] == '/');
                }
            }
            lemma_seg_rel(s);
        }
    }
}

/// The text of a root followed by names reads back as those components.
pub proof fn lemma_render_rooted(cs: Seq<Comp>)
    requires
        rooted_names(cs),
    ensures
        path_comps(render(cs)) == cs,
        is_abs(render(cs)),
    decreases cs.len(),
{
    if cs.len() == 1 {
        assert(cs.drop_last() =~= Seq::<Comp>::empty());
        let t = seq!['/'];
        assert(render(cs) == t);
        assert(first_slash(t) == 0);
        assert(t.take(0) =~= Seq::<char>::empty());
        assert(t.skip(1) =~= Seq::<char>::empty());
        assert(body_comps(t.skip(1)) =~= Seq::<Comp>::empty());
        assert(seg_comp(t.take(0)) is None);
        assert(body_comps(t) =~= Seq::<Comp>::empty());
        assert(path_comps(t) =~= cs);
    } else {
        let d = cs.drop_last();
        assert(d.drop_first() =~= cs.drop_first().drop_last());
        assert forall|i: int| 0 <= i < d.drop_first().len() implies (#[trigger] d.drop_first()[i] is Normal
            && valid_name(d.drop_first()[i]->Normal_0)) by {
            assert(d.drop_first()[i] == cs.drop_first()[i]);
        }
        lemma_render_rooted(d);
        let t = render(d);
        assert(cs.last() == cs.drop_first()[cs.len() - 2]);
        let n = cs.last()->Normal_0;
        assert(valid_name(n));
        assert(n[0] != '/') by {
            if n[0] == '/' {
                assert(n.contains('/'));
            }
        }
        lemma_comps_push(t, n);
        lemma_body_name(n);
        assert(path_comps(render(cs)) =~= cs);
        lemma_body_push(t, n);
    }
}

/// The text of relative components reads back as those components.
pub proof fn lemma_render_rel(r: Seq<Comp>)
    requires
        rel_comps(r),
    ensures
        body_comps(render(r)) == r,
        r.len() > 0 ==> render(r).len() > 0 && render(r)[0] != '/' && render(r)[0] == comp_text(r[0])[0],
    decreases r.len(),
{
    if r.len() == 0 {
        assert(body_comps(render(r)) =~= r);
    } else {
        let d = r.drop_last();
        assert forall|i: int| 0 <= i < d.len() implies rel_comp(#[trigger] d[i]) by {
            assert(d[i] == r[i]);
        }
        lemma_render_rel(d);
        let c = r.last();
        assert(rel_comp(r[r.len() - 1]));
        let text = comp_text(c);
        assert(text.len() > 0 && text[0] != '/') by {
            match c {
                Comp::Normal(n) => {
                    if n[0] == '/' {
                        assert(n.contains('/'));
                    }
                },
                _ => {},
            }
        }
        lemma_body_comp_text(c);
        if r.len() == 1 {
            assert(d =~= Seq::<Comp>::empty());
            assert(render(r) == text);
            assert(body_comps(render(r)) =~= r);
        } else {
            lemma_body_push(render(d), text);
            assert(body_comps(render(r)) =~= r);
            assert(r[0] == d[0]);
        }
    }
}

/// The character at `i` is no backslash, and is whitespace only inside a
/// name: never at either end of the text, never next to a separator.
pub open spec fn plain_at(s: Seq<char>, i: int) -> bool {
    s[i] != '\\' && (is_ws(s[i]) ==> 0 < i < s.len() - 1 && s[i - 1] != '/' && s[i + 1] != '/')
}

/// A text without backslashes whose whitespace stands only inside names.
pub open spec fn plain(s: Seq<char>) -> bool {
    forall|i: int| 0 <= i < s.len() ==> #[trigger] plain_at(s, i)
}

/// Both ends of a non-empty plain text are no whitespace.
proof fn lemma_plain_ends(s: Seq<char>)
    requires
        plain(s),
        s.len() > 0,
    ensures
        !is_ws(s[0]),
        !is_ws(s.last()),
{
    assert(plain_at(s, 0));
    assert(plain_at(s, s.len() - 1));
}

/// Plain texts joined without a separator stay plain.
pub proof fn lemma_plain_cat(a: Seq<char>, b: Seq<char>)
    requires
        plain(a),
        plain(b),
    ensures
        plain(a + b),
{
    let s = a + b;
    if a.len() > 0 {
        lemma_plain_ends(a);
    }
    if b.len() > 0 {
        lemma_plain_ends(b);
    }
    assert forall|i: int| 0 <= i < s.len() implies #[trigger] plain_at(s, i) by {
        if i < a.len() {
            assert(s[i] == a[i]);
            assert(plain_at(a, i));
            if i > 0 {
                assert(s[i - 1] == a[i - 1]);
            }
            if i + 1 < a.len() {
                assert(s[i + 1] == a[i + 1]);
            }
        } else {
            let j = i - a.len();
            assert(s[i] == b[j]);
            assert(plain_at(b, j));
            if j > 0 {
                assert(s[i - 1] == b[j - 1]);
            }
            if j + 1 < b.len() {
                assert(s[i + 1] == b[j + 1]);
            }
        }
    }
}

proof fn lemma_names_of_body(s: Seq<char>)
    requires
        !body_comps(s).contains(Comp::ParentDir),
    ensures
        valid_names(body_comps(s)),
{
    lemma_body_rel(s);
    let b = body_comps(s);
    assert forall|i: int| 0 <= i < b.len() implies (#[trigger] b[i] is Normal && valid_name(b[i]->Normal_0)) by {
        assert(rel_comp(b[i]));
        if b[i] == Comp::ParentDir {
            assert(b.contains(Comp::ParentDir));
        }
    }
}

/// A valid name does not start with a separator.
pub proof fn lemma_valid_not_abs(n: Seq<char>)
    requires
        valid_name(n),
    ensures
        !is_abs(n),
{
    if n[0] == '/' {
        assert(n.contains('/'));
    }
}

/// A literal name of plain characters without separators.
pub proof fn lemma_literal_name(n: Seq<char>)
    requires
        n.len() > 0,
        n != seq!['.'],
        n != seq!['.', '.'],
        forall|i: int| 0 <= i < n.len() ==> #[trigger] n[i] != '/' && !is_ws(n[i]) && n[i] != '\\',
    ensures
        valid_name(n),
        plain(n),
        body_comps(n) == seq![Comp::Normal(n)],
{
    lemma_body_name(n);
    assert forall|i: int| 0 <= i < n.len() implies #[trigger] plain_at(n, i) by {
        assert(n[i] != '\\' && !is_ws(n[i]));
    }
}

proof fn lemma_rooted_cat(a: Seq<Comp>, b: Seq<Comp>)
    requires
        rooted_names(a),
        valid_names(b),
    ensures
        rooted_names(a + b),
        (a + b).drop_first() == a.drop_first() + b,
{
    assert((a + b).drop_first() =~= a.drop_first() + b);
    let d = a.drop_first() + b;
    assert forall|i: int| 0 <= i < d.len() implies (#[trigger] d[i] is Normal && valid_name(d[i]->Normal_0)) by {
        if i < a.drop_first().len() {
            assert(d[i] == a.drop_first()[i]);
        } else {
            assert(d[i] == b[i - a.drop_first().len()]);
        }
    }
}

/// The file a provider path names, before it is written relative to the
/// runtime home: the profile directory, `providers`, the group, then `rel`
/// (or `provider.yaml`).
proof fn lemma_provider_target(pd: Seq<char>, prefix: Seq<char>, rel: Seq<char>)
    requires
        is_abs(pd),
        !path_comps(pd).contains(Comp::ParentDir),
        valid_name(prefix),
        plain(prefix),
        !is_abs(rel),
        !body_comps(rel).contains(Comp::ParentDir),
        no_backslash(rel),
    ensures
        ({
            let tail = if rel.len() == 0 {
                "provider.yaml"@
            } else {
                rel
            };
            let base = provider_base(pd, prefix);
            let x = push_path(base, tail);
            &&& rooted_names(path_comps(pd))
            &&& rooted_names(path_comps(base))
            &&& path_comps(base).len() == path_comps(pd).len() + 2
            &&& rooted_names(path_comps(x))
            &&& path_comps(base).is_prefix_of(path_comps(x))
            &&& path_comps(x).len() >= path_comps(base).len()
            &&& is_abs(x)
            &&& tail_no_backslash(x, base)
            &&& path_comps(base).last() == Comp::Normal(prefix)
        }),
{
    let tail = if rel.len() == 0 {
        "provider.yaml"@
    } else {
        rel
    };
    let prov = "providers"@;
    reveal_strlit("providers");
    reveal_strlit("provider.yaml");
    lemma_literal_name(prov);
    let cs = path_comps(pd);
    let bd = body_comps(pd);
    assert(cs == seq![Comp::RootDir] + bd);
    assert(!bd.contains(Comp::ParentDir)) by {
        if bd.contains(Comp::ParentDir) {
            let j = choose|j: int| 0 <= j < bd.len() && bd[j] == Comp::ParentDir;
            assert(cs[j + 1] == Comp::ParentDir);
        }
    }
    lemma_names_of_body(pd);
    assert(cs.drop_first() =~= bd);
    let bt = body_comps(tail);
    if rel.len() == 0 {
        lemma_literal_name(tail);
    } else {
        lemma_names_of_body(rel);
    }
    assert(valid_names(bt));
    assert(!is_abs(tail)) by {
        if rel.len() == 0 {
            lemma_valid_not_abs(tail);
        }
    }
    lemma_valid_not_abs(prov);
    lemma_valid_not_abs(prefix);
    lemma_body_name(prefix);
    let b1 = push_path(pd, prov);
    lemma_comps_push(pd, prov);
    lemma_body_push(pd, prov);
    let base = push_path(b1, prefix);
    assert(base == provider_base(pd, prefix));
    lemma_comps_push(b1, prefix);
    lemma_body_push(b1, prefix);
    let x = push_path(base, tail);
    lemma_comps_push(base, tail);
    lemma_body_push(base, tail);
    let two = seq![Comp::Normal(prov), Comp::Normal(prefix)];
    assert(path_comps(base) =~= cs + two);
    assert(valid_names(two));
    lemma_rooted_cat(cs, two);
    lemma_rooted_cat(path_comps(base), bt);
    assert((path_comps(base) + bt).subrange(0, path_comps(base).len() as int) =~= path_comps(base));
    assert(no_backslash(tail)) by {
        if rel.len() == 0 {
            lemma_plain_nb(tail);
        }
    }
    lemma_body_nb(tail);
    assert(path_comps(x).skip(path_comps(base).len() as int) =~= bt);
    assert(path_comps(base).last() == two.last());
}

proof fn lemma_runtime_home_rooted(pd: Seq<char>)
    requires
        rooted_names(path_comps(pd)),
    ensures
        rooted_names(runtime_home(pd)),
        runtime_home(pd).len() <= path_comps(pd).len(),
{
    let cs = path_comps(pd);
    if has_parent(cs) && has_parent(cs.drop_last()) {
        reveal_strlit("mihomo");
        lemma_literal_name("mihomo"@);
        assert(cs.drop_last().len() >= 2) by {
            if cs.drop_last().len() == 1 {
                assert(cs.drop_last().last() == cs[0]);
            }
        }
        let h = runtime_home(pd);
        let keep = cs.drop_last().drop_last();
        assert(h == keep.push(Comp::Normal("mihomo"@)));
        assert(h[0] == cs[0]);
        assert forall|i: int| 0 <= i < h.drop_first().len() implies (#[trigger] h.drop_first()[i] is Normal
            && valid_name(h.drop_first()[i]->Normal_0)) by {
            if i + 1 < keep.len() {
                assert(h.drop_first()[i] == cs.drop_first()[i]);
            } else {
                assert(h.drop_first()[i] == Comp::Normal("mihomo"@));
            }
        }
    }
}

/// The provider directory of group `prefix` lies below the runtime home, and
/// its first name there starts with whitespace: a path stored relative to the
/// home would start with a blank, which the scope check trims away.
pub open spec fn blank_below_home(pd: Seq<char>, prefix: Seq<char>) -> bool {
    let h = runtime_home(pd);
    let bc = path_comps(provider_base(pd, prefix));
    &&& h.len() < bc.len()
    &&& h.is_prefix_of(bc)
    &&& bc[h.len() as int] is Normal
    &&& bc[h.len() as int]->Normal_0.len() > 0
    &&& is_ws(bc[h.len() as int]->Normal_0[0])
}

/// A name of the provider directory of group `prefix` that lies past the
/// runtime home holds a backslash: a path stored relative to the home would
/// have it turned into a separator.
pub open spec fn backslash_below_home(pd: Seq<char>, prefix: Seq<char>) -> bool {
    let h = runtime_home(pd);
    let bc = path_comps(provider_base(pd, prefix));
    exists|i: int|
        1 <= i < bc.len() && #[trigger] bc[i] is Normal && bc[i]->Normal_0.contains('\\') && !(i < h.len()
            && h.take(i + 1) == bc.take(i + 1))
}

/// No name of `x` past the provider directory `base` holds a backslash.
pub open spec fn tail_no_backslash(x: Seq<char>, base: Seq<char>) -> bool {
    names_no_backslash(path_comps(x).skip(path_comps(base).len() as int))
}

/// The file a provider path names: `provider.yaml` when the path is empty.
pub open spec fn provider_tail(rel: Seq<char>) -> Seq<char> {
    if rel.len() == 0 {
        "provider.yaml"@
    } else {
        rel
    }
}

/// The path stored for a provider file, trimmed as the scope check reads
/// it, is relative and resolves, against the runtime home, to a path under
/// the profile's provider directory of its group.
pub proof fn provider_file_in_scope(pd: Seq<char>, prefix: Seq<char>, rel: Seq<char>)
    requires
        is_abs(pd),
        !path_comps(pd).contains(Comp::ParentDir),
        !backslash_below_home(pd, prefix),
        !blank_below_home(pd, prefix),
        valid_name(prefix),
        plain(prefix),
        !is_abs(rel),
        !body_comps(rel).contains(Comp::ParentDir),
        no_backslash(rel),
        !lone_blank_parent(push_path(provider_base(pd, prefix), provider_tail(rel)), provider_base(pd, prefix)),
    ensures
        ({
            let t = trim(provider_file(pd, prefix, rel));
            &&& t.len() > 0
            &&& !is_abs(t)
            &&& norm(path_comps(provider_base(pd, prefix))).is_prefix_of(
                norm(path_comps(push_path(render(runtime_home(pd)), t))),
            )
        }),
{
    lemma_provider_target(pd, prefix, rel);
    lemma_home_relative_trimmed(pd, prefix, push_path(provider_base(pd, prefix), provider_tail(rel)));
}

/// An absolute provider path under the group's provider directory, written
/// relative to the runtime home and trimmed, stays under that directory.
pub proof fn absolute_provider_path_in_scope(pd: Seq<char>, prefix: Seq<char>, path: Seq<char>)
    requires
        is_abs(pd),
        !path_comps(pd).contains(Comp::ParentDir),
        !backslash_below_home(pd, prefix),
        !blank_below_home(pd, prefix),
        valid_name(prefix),
        plain(prefix),
        is_abs(path),
        !path_comps(path).contains(Comp::ParentDir),
        tail_no_backslash(path, provider_base(pd, prefix)),
        path_comps(provider_base(pd, prefix)).is_prefix_of(path_comps(path)),
        !lone_blank_parent(path, provider_base(pd, prefix)),
    ensures
        ({
            let t = trim(home_relative(pd, path));
            &&& t.len() > 0
            &&& !is_abs(t)
            &&& norm(path_comps(provider_base(pd, prefix))).is_prefix_of(
                norm(path_comps(push_path(render(runtime_home(pd)), t))),
            )
        }),
{
    reveal_strlit("");
    lemma_provider_target(pd, prefix, ""@);
    let cs = path_comps(path);
    let bd = body_comps(path);
    assert(cs == seq![Comp::RootDir] + bd);
    assert(!bd.contains(Comp::ParentDir)) by {
        if bd.contains(Comp::ParentDir) {
            let j = choose|j: int| 0 <= j < bd.len() && bd[j] == Comp::ParentDir;
            assert(cs[j + 1] == Comp::ParentDir);
        }
    }
    lemma_names_of_body(path);
    assert(cs.drop_first() =~= bd);
    lemma_home_relative_trimmed(pd, prefix, path);
}

/// Every name among `cs` is a valid component text without backslashes.
pub open spec fn good_names(cs: Seq<Comp>) -> bool {
    forall|i: int| 0 <= i < cs.len() ==> (#[trigger] cs[i] is Normal ==> valid_name(cs[i]->Normal_0) && no_backslash(
        cs[i]->Normal_0,
    ))
}

proof fn lemma_good_path_comps(s: Seq<char>)
    requires
        no_backslash(s),
    ensures
        good_names(path_comps(s)),
{
    lemma_body_rel(s);
    lemma_body_nb(s);
    let b = body_comps(s);
    let cs = path_comps(s);
    let h = if is_abs(s) {
        seq![Comp::RootDir]
    } else if s.len() > 0 && s[0] == '.' && (s.len() == 1 || s[1] == '/') {
        seq![Comp::CurDir]
    } else {
        Seq::<Comp>::empty()
    };
    assert(cs == h + b);
    assert forall|i: int| 0 <= i < cs.len() && #[trigger] cs[i] is Normal implies valid_name(cs[i]->Normal_0)
        && no_backslash(cs[i]->Normal_0) by {
        if i >= h.len() {
            assert(cs[i] == b[i - h.len()]);
            assert(rel_comp(b[i - h.len()]));
        }
    }
}

proof fn lemma_clean_names(cs: Seq<Comp>)
    requires
        good_names(cs),
    ensures
        valid_names(clean(cs)),
        names_no_backslash(clean(cs)),
    decreases cs.len(),
{
    if cs.len() > 0 {
        let d = cs.drop_last();
        assert forall|i: int| 0 <= i < d.len() && #[trigger] d[i] is Normal implies valid_name(d[i]->Normal_0)
            && no_backslash(d[i]->Normal_0) by {
            assert(d[i] == cs[i]);
        }
        lemma_clean_names(d);
        let acc = clean(d);
        assert(cs.last() == cs[cs.len() - 1]);
        let r = clean(cs);
        assert forall|i: int| 0 <= i < r.len() implies (#[trigger] r[i] is Normal && valid_name(r[i]->Normal_0)
            && no_backslash(r[i]->Normal_0)) by {
            if i < acc.len() {
                assert(r[i] == acc[i]);
            }
        }
    }
}

proof fn lemma_trim_dirs_names(cs: Seq<Comp>)
    requires
        valid_names(cs),
        names_no_backslash(cs),
    ensures
        valid_names(trim_dirs(cs)),
        names_no_backslash(trim_dirs(cs)),
    decreases cs.len(),
{
    if cs.len() > 0 && (match cs[0] {
        Comp::Normal(n) => is_provider_dir(n),
        _ => false,
    }) {
        let d = cs.drop_first();
        assert forall|i: int| 0 <= i < d.len() implies (#[trigger] d[i] is Normal && valid_name(d[i]->Normal_0)
            && no_backslash(d[i]->Normal_0)) by {
            assert(d[i] == cs[i + 1]);
        }
        lemma_trim_dirs_names(d);
    }
}

/// Adding `.ext` to the last name of a rendered path renders the extended name.
proof fn lemma_render_extend(n: Seq<Comp>, u: Seq<char>)
    requires
        n.len() > 0,
        n.last() is Normal,
        valid_name(n.last()->Normal_0),
        valid_name(n.last()->Normal_0 + u),
    ensures
        render(n) + u == render(n.drop_last().push(Comp::Normal(n.last()->Normal_0 + u))),
{
    let d = n.drop_last();
    let a = n.last()->Normal_0;
    let n2 = d.push(Comp::Normal(a + u));
    assert(n2.drop_last() =~= d);
    assert(n.last() == Comp::Normal(a));
    lemma_valid_not_abs(a);
    lemma_valid_not_abs(a + u);
    let b = render(d);
    if b.len() > 0 && b.last() != '/' {
        assert(render(n) + u =~= b + seq!['/'] + (a + u));
    } else {
        assert(render(n) + u =~= b + (a + u));
    }
}

proof fn lemma_nb_cat(a: Seq<char>, b: Seq<char>)
    requires
        no_backslash(a),
        no_backslash(b),
    ensures
        no_backslash(a + b),
{
    assert forall|i: int| 0 <= i < (a + b).len() implies #[trigger] (a + b)[i] != '\\' by {
        if i < a.len() {
            assert((a + b)[i] == a[i]);
        } else {
            assert((a + b)[i] == b[i - a.len()]);
        }
    }
}

/// The provider file name made from names and an extension is a relative
/// path without `..` or backslashes; its names are those names, the last one
/// extended when the extension is added.
proof fn lemma_with_ext(n: Seq<Comp>, ext: Seq<char>)
    requires
        valid_names(n),
        names_no_backslash(n),
        valid_name(ext),
        plain(ext),
    ensures
        ({
            let r = with_provider_ext(render(n), ext);
            &&& !is_abs(r)
            &&& !body_comps(r).contains(Comp::ParentDir)
            &&& no_backslash(r)
        }),
{
    let t = render(n);
    let r = with_provider_ext(t, ext);
    assert(rel_comps(n));
    lemma_render_rel(n);
    lemma_render_nb(n);
    lemma_plain_nb(ext);
    lemma_plain_ends(ext);
    if t.len() == 0 {
        reveal_strlit("provider.");
        let lit = "provider."@;
        assert(r == lit + ext);
        lemma_literal_name(lit);
        lemma_plain_nb(lit);
        lemma_nb_cat(lit, ext);
        assert(!r.contains('/')) by {
            if r.contains('/') {
                let j = choose|j: int| 0 <= j < r.len() && r[j] == '/';
                if j >= lit.len() {
                    assert(r[j] == ext[j - lit.len()]);
                    assert(ext.contains('/'));
                } else {
                    assert(lit[j] != '/');
                }
            }
        }
        assert(r.len() > 2);
        lemma_body_name(r);
        lemma_valid_not_abs(r);
        assert(r.last() == ext.last());
    } else if has_extension(t) {
        assert(n.len() > 0);
        assert(!body_comps(r).contains(Comp::ParentDir)) by {
            if body_comps(r).contains(Comp::ParentDir) {
                let j = choose|j: int| 0 <= j < n.len() && n[j] == Comp::ParentDir;
                assert(n[j] is Normal);
            }
        }
    } else {
        assert(n.len() > 0);
        let u = seq!['.'] + ext;
        assert(n.last() == n[n.len() - 1]);
        let a = n.last()->Normal_0;
        let a2 = a + u;
        assert(r =~= t + u);
        assert(!a2.contains('/')) by {
            if a2.contains('/') {
                let j = choose|j: int| 0 <= j < a2.len() && a2[j] == '/';
                if j < a.len() {
                    assert(a[j] == '/');
                    assert(a.contains('/'));
                } else if j > a.len() {
                    assert(ext[j - a.len() - 1] == '/');
                    assert(ext.contains('/'));
                }
            }
        }
        assert(a2.len() >= 3);
        assert(valid_name(a2));
        assert(a2.last() == ext.last());
        lemma_render_extend(n, u);
        let n2 = n.drop_last().push(Comp::Normal(a2));
        assert(no_backslash(seq!['.']));
        lemma_nb_cat(seq!['.'], ext);
        assert(no_backslash(a)) by {
            assert(n[n.len() - 1] is Normal);
        }
        lemma_nb_cat(a, u);
        assert(valid_names(n2)) by {
            assert forall|i: int| 0 <= i < n2.len() implies (#[trigger] n2[i] is Normal && valid_name(
                n2[i]->Normal_0)) by {
                if i < n.len() - 1 {
                    assert(n2[i] == n[i]);
                }
            }
        }
        assert(names_no_backslash(n2)) by {
            assert forall|i: int| 0 <= i < n2.len() && #[trigger] n2[i] is Normal implies no_backslash(
                n2[i]->Normal_0) by {
                if i < n.len() - 1 {
                    assert(n2[i] == n[i]);
                }
            }
        }
        assert(rel_comps(n2));
        lemma_render_rel(n2);
        lemma_render_nb(n2);
        assert(n2.last() == n2[n2.len() - 1]);
        assert(!body_comps(r).contains(Comp::ParentDir)) by {
            if body_comps(r).contains(Comp::ParentDir) {
                let j = choose|j: int| 0 <= j < n2.len() && n2[j] == Comp::ParentDir;
                assert(n2[j] is Normal);
            }
        }
    }
}

/// The absolute path of the file that `normalize_provider_path` gives the
/// provider path `path`.
pub open spec fn provider_target(path: Seq<char>, pd: Seq<char>, prefix: Seq<char>, ext: Seq<char>) -> Seq<char> {
    let raw = path_comps(path);
    if is_abs(path) && path_comps(provider_base(pd, prefix)).is_prefix_of(raw) {
        path
    } else {
        let cleaned = if is_abs(path) {
            file_name_comps(raw)
        } else {
            trim_dirs(clean(raw))
        };
        push_path(provider_base(pd, prefix), provider_tail(with_provider_ext(render(trim_dirs(cleaned)), ext)))
    }
}

/// A provider path rewritten by `normalize_provider_path`, trimmed as the
/// scope check reads it, is relative and resolves, against the runtime home,
/// to a path under the provider directory of its group.
pub proof fn normalized_provider_path_in_scope(path: Seq<char>, pd: Seq<char>, prefix: Seq<char>, ext: Seq<char>)
    requires
        is_abs(pd),
        !path_comps(pd).contains(Comp::ParentDir),
        !backslash_below_home(pd, prefix),
        !blank_below_home(pd, prefix),
        valid_name(prefix),
        plain(prefix),
        valid_name(ext),
        plain(ext),
        no_backslash(path),
        is_abs(path) ==> !path_comps(path).contains(Comp::ParentDir),
        !lone_blank_parent(provider_target(path, pd, prefix, ext), provider_base(pd, prefix)),
    ensures
        ({
            let t = trim(provider_path_spec(path, pd, prefix, ext));
            &&& t.len() > 0
            &&& !is_abs(t)
            &&& norm(path_comps(provider_base(pd, prefix))).is_prefix_of(
                norm(path_comps(push_path(render(runtime_home(pd)), t))),
            )
        }),
{
    let raw = path_comps(path);
    if is_abs(path) && path_comps(provider_base(pd, prefix)).is_prefix_of(raw) {
        lemma_body_nb(path);
        let n = path_comps(provider_base(pd, prefix)).len() as int;
        assert(raw == seq![Comp::RootDir] + body_comps(path));
        assert(n >= 1);
        assert forall|i: int| 0 <= i < raw.skip(n).len() && #[trigger] raw.skip(n)[i] is Normal implies no_backslash(
            raw.skip(n)[i]->Normal_0) by {
            assert(raw.skip(n)[i] == body_comps(path)[n - 1 + i]);
        }
        absolute_provider_path_in_scope(pd, prefix, path);
    } else {
        lemma_good_path_comps(path);
        let cleaned = if is_abs(path) {
            file_name_comps(raw)
        } else {
            trim_dirs(clean(raw))
        };
        if is_abs(path) {
            if raw.len() > 0 && raw.last() is Normal {
                assert(raw.last() == raw[raw.len() - 1]);
            }
            assert(valid_names(cleaned));
            assert(names_no_backslash(cleaned));
        } else {
            lemma_clean_names(raw);
            lemma_trim_dirs_names(clean(raw));
        }
        lemma_trim_dirs_names(cleaned);
        lemma_with_ext(trim_dirs(cleaned), ext);
        provider_file_in_scope(pd, prefix, with_provider_ext(render(trim_dirs(cleaned)), ext));
    }
}

// ---------------------------------------------------------------------------
// Laws of the path operations
// ---------------------------------------------------------------------------

/// The shape of a normalised path: names, or the root and then names.
pub open spec fn normal_form(cs: Seq<Comp>) -> bool {
    all_names(cs) || (cs.len() > 0 && cs[0] == Comp::RootDir && all_names(cs.drop_first()))
}

proof fn lemma_norm_shape(cs: Seq<Comp>)
    ensures
        normal_form(norm(cs)),
    decreases cs.len(),
{
    if cs.len() > 0 {
        lemma_norm_shape(cs.drop_last());
        let acc = norm(cs.drop_last());
        let r = norm(cs);
        match cs.last() {
            Comp::ParentDir => {
                if acc.len() > 0 && acc.last() != Comp::RootDir {
                    if !all_names(acc) {
                        assert(acc.len() >= 2);
                        assert(r.drop_first() =~= acc.drop_first().drop_last());
                        assert forall|i: int| 0 <= i < r.drop_first().len() implies #[trigger] r.drop_first()[i] is Normal by {
                            assert(r.drop_first()[i] == acc.drop_first()[i]);
                        }
                    }
                }
            },
            Comp::RootDir => {
                assert(r.drop_first() =~= Seq::<Comp>::empty());
            },
            Comp::Normal(x) => {
                if all_names(acc) {
                    assert forall|i: int| 0 <= i < r.len() implies #[trigger] r[i] is Normal by {
                        if i < acc.len() {
                            assert(r[i] == acc[i]);
                        }
                    }
                } else {
                    assert(r.drop_first() =~= acc.drop_first().push(Comp::Normal(x)));
                    assert forall|i: int| 0 <= i < r.drop_first().len() implies #[trigger] r.drop_first()[i] is Normal by {
                        if i < acc.drop_first().len() {
                            assert(r.drop_first()[i] == acc.drop_first()[i]);
                        }
                    }
                }
            },
            Comp::CurDir => {},
        }
    }
}

/// Normalisation gives names, or the root and then names, and normalising
/// again changes nothing.
pub proof fn normalization_is_canonical(cs: Seq<Comp>)
    ensures
        normal_form(norm(cs)),
        norm(norm(cs)) == norm(cs),
{
    lemma_norm_shape(cs);
    let n = norm(cs);
    if all_names(n) {
        lemma_norm_cat(Seq::<Comp>::empty(), n);
        assert(Seq::<Comp>::empty() + n =~= n);
        lemma_norm_from_names(Seq::<Comp>::empty(), n);
        assert(Seq::<Comp>::empty() + n =~= n);
    } else {
        lemma_norm_rooted_names(n);
    }
}

/// Cleaning a relative path leaves names only, and cleaning again changes
/// nothing.
pub proof fn cleaning_is_canonical(cs: Seq<Comp>)
    ensures
        all_names(clean(cs)),
        clean(clean(cs)) == clean(cs),
    decreases cs.len(),
{
    if cs.len() > 0 {
        cleaning_is_canonical(cs.drop_last());
        let acc = clean(cs.drop_last());
        let r = clean(cs);
        assert forall|i: int| 0 <= i < r.len() implies #[trigger] r[i] is Normal by {
            if i < acc.len() {
                assert(r[i] == acc[i]);
            }
        }
    }
    lemma_clean_names_fixed(clean(cs));
}

proof fn lemma_clean_names_fixed(cs: Seq<Comp>)
    requires
        all_names(cs),
    ensures
        clean(cs) == cs,
    decreases cs.len(),
{
    if cs.len() > 0 {
        lemma_clean_names_fixed(cs.drop_last());
        assert(cs.last() == cs[cs.len() - 1]);
        assert(cs.drop_last().push(cs.last()) =~= cs);
    }
}

/// The relative path from one normalised absolute path to another leads
/// back: joined onto the base and normalised, it gives the path.
pub proof fn relative_path_leads_back(path: Seq<Comp>, base: Seq<Comp>)
    requires
        path.len() > 0,
        path[0] == Comp::RootDir,
        all_names(path.drop_first()),
        base.len() > 0,
        base[0] == Comp::RootDir,
        all_names(base.drop_first()),
    ensures
        relative_from(path, base) is Some,
        norm(base + relative_from(path, base)->0) == path,
{
    lemma_common_len_props(path, base);
    let c = common_len(path, base) as int;
    assert(c >= 1);
    let bs = base.skip(c);
    assert(all_names(bs)) by {
        assert forall|i: int| 0 <= i < bs.len() implies #[trigger] bs[i] is Normal by {
            assert(bs[i] == base.drop_first()[c - 1 + i]);
        }
    }
    let tc = path.skip(c);
    assert(all_names(tc)) by {
        assert forall|i: int| 0 <= i < tc.len() implies #[trigger] tc[i] is Normal by {
            assert(tc[i] == path.drop_first()[c - 1 + i]);
        }
    }
    let k = bs.len();
    lemma_ups_names(bs);
    let r = ups(bs) + tc;
    lemma_norm_rooted_names(base);
    lemma_norm_cat(base, r);
    lemma_norm_from_cat(base, parents(k), tc);
    assert(base =~= base.take(c) + bs);
    lemma_norm_from_parents(base.take(c), bs, k);
    assert(bs.take(0) =~= Seq::<Comp>::empty());
    assert(base.take(c) + bs.take(0) =~= base.take(c));
    lemma_norm_from_names(base.take(c), tc);
    assert(path.take(c) + tc =~= path);
}

/// Trimming provider directory names drops a prefix of the components, and
/// what is left does not start with such a name.
pub proof fn trimmed_paths_skip_provider_dirs(cs: Seq<Comp>)
    ensures
        trim_dirs(cs).is_suffix_of(cs),
        trim_dirs(cs).len() > 0 ==> !(match trim_dirs(cs)[0] {
            Comp::Normal(n) => is_provider_dir(n),
            _ => false,
        }),
    decreases cs.len(),
{
    if cs.len() > 0 && (match cs[0] {
        Comp::Normal(n) => is_provider_dir(n),
        _ => false,
    }) {
        trimmed_paths_skip_provider_dirs(cs.drop_first());
        let t = trim_dirs(cs);
        assert(cs.subrange(cs.len() - t.len(), cs.len() as int) =~= cs.drop_first().subrange(
            cs.drop_first().len() - t.len(),
            cs.drop_first().len() as int,
        ));
    } else {
        assert(cs.subrange(0, cs.len() as int) =~= cs);
    }
}

proof fn lemma_last_slash(p: Seq<char>) -> (r: (Seq<char>, Seq<char>))
    requires
        p.contains('/'),
    ensures
        p == r.0 + seq!['/'] + r.1,
        !r.1.contains('/'),
    decreases p.len(),
{
    if p.last() == '/' {
        assert(p =~= p.drop_last() + seq!['/'] + Seq::<char>::empty());
        (p.drop_last(), Seq::<char>::empty())
    } else {
        let j = choose|j: int| 0 <= j < p.len() && p[j] == '/';
        assert(p.drop_last()[j] == '/');
        let (a, seg) = lemma_last_slash(p.drop_last());
        let seg2 = seg.push(p.last());
        assert(p =~= p.drop_last().push(p.last()));
        assert((a + seq!['/'] + seg).push(p.last()) =~= a + seq!['/'] + seg2);
        assert(p =~= a + seq!['/'] + seg2);
        assert(!seg2.contains('/')) by {
            if seg2.contains('/') {
                let k = choose|k: int| 0 <= k < seg2.len() && seg2[k] == '/';
                if k < seg.len() {
                    assert(seg[k] == '/');
                }
            }
        }
        (a, seg2)
    }
}

proof fn lemma_body_no_slash(s: Seq<char>)
    requires
        !s.contains('/'),
    ensures
        body_comps(s) == opt_seq(seg_comp(s)),
{
    if s.len() > 0 {
        lemma_first_slash_none(s);
        if first_slash(s) < s.len() {
            assert(s.contains('/'));
        }
    }
}

/// The last component of a path whose body ends in the name `n` is `n`.
proof fn lemma_last_comp(r: Seq<char>, n: Seq<char>)
    requires
        body_comps(r).len() > 0,
        body_comps(r).last() == Comp::Normal(n),
    ensures
        path_comps(r).len() > 0,
        path_comps(r).last() == Comp::Normal(n),
{
}

/// Joined with a non-empty extension, a provider file name has an extension,
/// unless it ends in a separator.
pub proof fn provider_extension_is_ensured(p: Seq<char>, ext: Seq<char>)
    requires
        ext.len() > 0,
        !ext.contains('/'),
        p.len() == 0 || p.last() != '/',
    ensures
        has_extension(with_provider_ext(p, ext)),
{
    let r = with_provider_ext(p, ext);
    if p.len() == 0 {
        reveal_strlit("provider.");
        let lit = "provider."@;
        assert(lit.len() == 9 && lit[0] == 'p' && lit[8] == '.');
        assert(r == lit + ext);
        assert(!r.contains('/')) by {
            if r.contains('/') {
                let j = choose|j: int| 0 <= j < r.len() && r[j] == '/';
                if j >= 9 {
                    assert(r[j] == ext[j - 9]);
                    assert(ext.contains('/'));
                }
            }
        }
        lemma_body_no_slash(r);
        assert(r != seq!['.'] && r != seq!['.', '.']) by {
            assert(r.len() > 2);
        }
        assert(body_comps(r) == seq![Comp::Normal(r)]);
        assert(path_comps(r) == body_comps(r));
        assert(r[8] == '.');
    } else if has_extension(p) {
    } else {
        let u = seq!['.'] + ext;
        assert(!u.contains('/')) by {
            if u.contains('/') {
                let j = choose|j: int| 0 <= j < u.len() && u[j] == '/';
                assert(j > 0);
                assert(ext[j - 1] == '/');
                assert(ext.contains('/'));
            }
        }
        if p.contains('/') {
            let (a, seg) = lemma_last_slash(p);
            assert(seg.len() > 0) by {
                if seg.len() == 0 {
                    assert(p.last() == '/');
                }
            }
            let n = seg + u;
            assert(r =~= a + seq!['/'] + n);
            assert(!n.contains('/')) by {
                if n.contains('/') {
                    let j = choose|j: int| 0 <= j < n.len() && n[j] == '/';
                    if j < seg.len() {
                        assert(seg[j] == '/');
                        assert(seg.contains('/'));
                    } else {
                        assert(u[j - seg.len()] == '/');
                        assert(u.contains('/'));
                    }
                }
            }
            lemma_body_cat(a, n);
            lemma_body_no_slash(n);
            assert(n.len() > 2);
            assert(n != seq!['.'] && n != seq!['.', '.']);
            assert(body_comps(n) == seq![Comp::Normal(n)]);
            assert(body_comps(r).last() == Comp::Normal(n));
            lemma_last_comp(r, n);
            assert(n[seg.len() as int] == '.');
        } else {
            let n = p + u;
            assert(r =~= n);
            assert(!n.contains('/')) by {
                if n.contains('/') {
                    let j = choose|j: int| 0 <= j < n.len() && n[j] == '/';
                    if j < p.len() {
                        assert(p[j] == '/');
                        assert(p.contains('/'));
                    } else {
                        assert(u[j - p.len()] == '/');
                        assert(u.contains('/'));
                    }
                }
            }
            lemma_body_no_slash(n);
            assert(n.len() > 2);
            assert(n != seq!['.'] && n != seq!['.', '.']);
            assert(body_comps(n) == seq![Comp::Normal(n)]);
            lemma_last_comp(r, n);
            assert(n[p.len() as int] == '.');
        }
    }
}

// ---------------------------------------------------------------------------
// Provider paths with whitespace in their names
// ---------------------------------------------------------------------------

/// A text without backslashes.
pub open spec fn no_backslash(s: Seq<char>) -> bool {
    forall|i: int| 0 <= i < s.len() ==> #[trigger] s[i] != '\\'
}

/// No name among `cs` holds a backslash.
pub open spec fn names_no_backslash(cs: Seq<Comp>) -> bool {
    forall|i: int| 0 <= i < cs.len() ==> (#[trigger] cs[i] is Normal ==> no_backslash(cs[i]->Normal_0))
}

/// The file that `x` names under the provider directory `base` is a single
/// name that reads `..` once its trailing whitespace is trimmed.
pub open spec fn lone_blank_parent(x: Seq<char>, base: Seq<char>) -> bool {
    let pc = path_comps(x);
    &&& pc.len() == path_comps(base).len() + 1
    &&& pc.last() is Normal
    &&& trim_end(pc.last()->Normal_0) == seq!['.', '.']
}

/// A plain text has no backslash.
pub proof fn lemma_plain_nb(s: Seq<char>)
    requires
        plain(s),
    ensures
        no_backslash(s),
{
    assert forall|i: int| 0 <= i < s.len() implies #[trigger] s[i] != '\\' by {
        assert(plain_at(s, i));
    }
}

proof fn lemma_body_nb(s: Seq<char>)
    requires
        no_backslash(s),
    ensures
        names_no_backslash(body_comps(s)),
    decreases s.len(),
{
    if s.len() > 0 {
        let i = first_slash(s) as int;
        lemma_first_slash_none(s);
        if i < s.len() {
            let rest = s.skip(i + 1);
            assert forall|j: int| 0 <= j < rest.len() implies #[trigger] rest[j] != '\\' by {
                assert(rest[j] == s[i + 1 + j]);
            }
            lemma_body_nb(rest);
            let hd = s.take(i);
            assert forall|j: int| 0 <= j < hd.len() implies #[trigger] hd[j] != '\\' by {
                assert(hd[j] == s[j]);
            }
            let a = opt_seq(seg_comp(hd));
            let b = body_comps(rest);
            assert forall|k: int| 0 <= k < (a + b).len() && #[trigger] (a + b)[k] is Normal implies no_backslash(
                (a + b)[k]->Normal_0) by {
                if k >= a.len() {
                    assert((a + b)[k] == b[k - a.len()]);
                }
            }
        }
    }
}

proof fn lemma_push_nb(a: Seq<char>, b: Seq<char>)
    requires
        no_backslash(a),
        no_backslash(b),
    ensures
        no_backslash(push_path(a, b)),
{
    let s = push_path(a, b);
    assert forall|i: int| 0 <= i < s.len() implies #[trigger] s[i] != '\\' by {
        if !is_abs(b) {
            if a.len() > 0 && a.last() != '/' {
                assert(s == a + seq!['/'] + b);
                if i < a.len() {
                    assert(s[i] == a[i]);
                } else if i > a.len() {
                    assert(s[i] == b[i - a.len() - 1]);
                }
            } else {
                if i < a.len() {
                    assert(s[i] == a[i]);
                } else {
                    assert(s[i] == b[i - a.len()]);
                }
            }
        }
    }
}

proof fn lemma_render_nb(cs: Seq<Comp>)
    requires
        names_no_backslash(cs),
    ensures
        no_backslash(render(cs)),
    decreases cs.len(),
{
    if cs.len() > 0 {
        let d = cs.drop_last();
        assert forall|i: int| 0 <= i < d.len() && #[trigger] d[i] is Normal implies no_backslash(d[i]->Normal_0) by {
            assert(d[i] == cs[i]);
        }
        lemma_render_nb(d);
        assert(cs.last() == cs[cs.len() - 1]);
        let t = comp_text(cs.last());
        assert(no_backslash(t)) by {
            match cs.last() {
                Comp::Normal(n) => {},
                Comp::RootDir => {
                    assert(t == seq!['/']);
                },
                Comp::CurDir => {
                    assert(t == seq!['.']);
                },
                Comp::ParentDir => {
                    assert(t == seq!['.', '.']);
                },
            }
        }
        lemma_push_nb(render(d), t);
    }
}

/// The text of relative components ends with the text of the last one.
proof fn lemma_render_last(r: Seq<Comp>)
    requires
        rel_comps(r),
        r.len() > 0,
    ensures
        render(r).len() >= comp_text(r.last()).len(),
        render(r).last() == comp_text(r.last()).last(),
        render(r).last() != '/',
        comp_text(r.last()).len() > 0,
{
    let d = r.drop_last();
    let t = comp_text(r.last());
    assert(rel_comp(r[r.len() - 1]));
    assert(t.len() > 0 && t.last() != '/' && !is_abs(t)) by {
        match r.last() {
            Comp::Normal(n) => {
                if t.last() == '/' {
                    assert(n.contains('/'));
                }
                lemma_valid_not_abs(n);
            },
            _ => {},
        }
    }
    let b = render(d);
    if b.len() > 0 && b.last() != '/' {
        assert(render(r) == b + seq!['/'] + t);
    } else {
        assert(render(r) == b + t);
    }
}

/// Trailing whitespace after a character that is none is counted in the tail.
proof fn lemma_trail_ws_cat(a: Seq<char>, b: Seq<char>)
    requires
        a.len() > 0,
        !is_ws(a.last()),
    ensures
        trail_ws(a + b) == trail_ws(b),
    decreases b.len(),
{
    if b.len() == 0 {
        assert(a + b =~= a);
    } else {
        assert((a + b).last() == b.last());
        if is_ws(b.last()) {
            assert((a + b).drop_last() =~= a + b.drop_last());
            lemma_trail_ws_cat(a, b.drop_last());
        }
    }
}

/// Joining the relative path from the runtime home onto the home leads back.
proof fn lemma_resolve(h: Seq<Comp>, c: int, tail: Seq<Comp>)
    requires
        rooted_names(h),
        1 <= c <= h.len(),
        all_names(tail),
    ensures
        norm(h + (ups(h.skip(c)) + tail)) == h.take(c) + tail,
{
    let hs = h.skip(c);
    assert(all_names(hs)) by {
        assert forall|i: int| 0 <= i < hs.len() implies #[trigger] hs[i] is Normal by {
            assert(hs[i] == h.drop_first()[c - 1 + i]);
        }
    }
    let k = hs.len();
    lemma_ups_names(hs);
    lemma_norm_rooted_names(h);
    lemma_norm_cat(h, ups(hs) + tail);
    lemma_norm_from_cat(h, parents(k), tail);
    assert(h =~= h.take(c) + hs);
    lemma_norm_from_parents(h.take(c), hs, k);
    assert(hs.take(0) =~= Seq::<Comp>::empty());
    assert(h.take(c) + hs.take(0) =~= h.take(c));
    lemma_norm_from_names(h.take(c), tail);
}

/// The stored path `p` ends in whitespace: trimmed, it still resolves under
/// the provider directory `bc`.
#[verifier::rlimit(100)]
proof fn lemma_trailing_blank(h: Seq<Comp>, c: int, pc: Seq<Comp>, bc: Seq<Comp>, r: Seq<Comp>, p: Seq<char>)
    requires
        rooted_names(h),
        rooted_names(pc),
        rooted_names(bc),
        bc.last() is Normal && plain(bc.last()->Normal_0),
        bc.is_prefix_of(pc),
        1 <= c <= h.len(),
        c < bc.len(),
        h.take(c) == pc.take(c),
        r == ups(h.skip(c)) + pc.skip(c),
        rel_comps(r),
        p == render(r),
        p.len() > 0,
        p[0] != '/',
        trim_start(p) == p,
        is_ws(p.last()),
        path_comps(render(h)) == h,
        is_abs(render(h)),
        !(pc.len() == bc.len() + 1 && pc.last() is Normal && trim_end(pc.last()->Normal_0) == seq!['.', '.']),
    ensures
        ({
            let t = trim(p);
            &&& t.len() > 0
            &&& !is_abs(t)
            &&& bc.is_prefix_of(norm(path_comps(push_path(render(h), t))))
        }),
{
    let hs = h.skip(c);
    let tc = pc.skip(c);
    let hp = render(h);
    lemma_render_last(r);
    assert(all_names(tc)) by {
        assert forall|i: int| 0 <= i < tc.len() implies #[trigger] tc[i] is Normal by {
            assert(tc[i] == pc.drop_first()[c - 1 + i]);
        }
    }
    // only the file name can end in whitespace
    assert(pc.len() > bc.len()) by {
        if pc.len() == bc.len() {
            assert(r.last() == pc.last());
            assert(pc.last() == bc.last());
            let nm = bc.last()->Normal_0;
            assert(plain(nm));
            assert(plain_at(nm, nm.len() - 1));
        }
    }
    let r0 = r.drop_last();
    assert(r.last() == tc.last());
    assert(tc.last() == pc.last());
    let n = pc.last()->Normal_0;
    assert(pc.last() == pc[pc.len() - 1]);
    assert(valid_name(n)) by {
        assert(pc[pc.len() - 1] == pc.drop_first()[pc.len() - 2]);
    }
    assert(r0 == ups(hs) + tc.drop_last());
    assert(rel_comps(r0)) by {
        assert forall|i: int| 0 <= i < r0.len() implies rel_comp(#[trigger] r0[i]) by {
            assert(r0[i] == r[i]);
        }
    }
    assert(r0.len() > 0);
    lemma_render_last(r0);
    let b = render(r0);
    lemma_render_rel(r0);
    assert(p == b + seq!['/'] + n);
    let a = b + seq!['/'];
    assert(p =~= a + n);
    lemma_trail_ws_cat(a, n);
    crate::text::lemma_trail_ws_bound(n);
    let m = trim_end(n);
    assert(trim(p) =~= a + m);
    let t = a + m;
    assert(!m.contains('/')) by {
        if m.contains('/') {
            let j = choose|j: int| 0 <= j < m.len() && m[j] == '/';
            assert(n[j] == '/');
            assert(n.contains('/'));
        }
    }
    lemma_body_cat(b, m);
    assert(t =~= b + seq!['/'] + m);
    lemma_body_no_slash(m);
    assert(t[0] == p[0]);
    lemma_comps_push(hp, t);
    let e = opt_seq(seg_comp(m));
    assert(path_comps(push_path(hp, t)) == h + (r0 + e));
    assert(h + (r0 + e) =~= (h + r0) + e);
    lemma_norm_cat(h + r0, e);
    lemma_resolve(h, c, tc.drop_last());
    assert(all_names(tc.drop_last())) by {
        assert forall|i: int| 0 <= i < tc.drop_last().len() implies #[trigger] tc.drop_last()[i] is Normal by {
            assert(tc.drop_last()[i] == tc[i]);
        }
    }
    let pcd = pc.drop_last();
    assert(h.take(c) + tc.drop_last() =~= pcd);
    assert(norm(h + r0) == pcd);
    assert(pcd.subrange(0, bc.len() as int) =~= bc);
    let res = norm(path_comps(push_path(hp, t)));
    assert(res == norm_from(pcd, e));
    if seg_comp(m) is None {
        assert(e =~= Seq::<Comp>::empty());
        assert(res == pcd);
        assert(bc.is_prefix_of(res));
    } else if seg_comp(m) == Some(Comp::ParentDir) {
        assert(m == seq!['.', '.']);
        assert(pc.len() > bc.len() + 1);
        assert(e =~= seq![Comp::ParentDir]);
        assert(pcd.last() == pcd[pcd.len() - 1]);
        assert(pcd[pcd.len() - 1] == pc.drop_first()[pcd.len() - 2]);
        assert(e.drop_last() =~= Seq::<Comp>::empty());
        assert(pc.drop_first()[pcd.len() - 2] is Normal);
        assert(pcd.last() != Comp::RootDir);
        assert(norm_from(pcd, e.drop_last()) == pcd);
        assert(e.last() == Comp::ParentDir);
        assert(norm_step(pcd, Comp::ParentDir) == pcd.drop_last());
        assert(res == pcd.drop_last());
        assert(pcd.drop_last().subrange(0, bc.len() as int) =~= bc);
        assert(bc.is_prefix_of(res));
    } else {
        assert(e =~= seq![Comp::Normal(m)]);
        assert(e.drop_last() =~= Seq::<Comp>::empty());
        assert(norm_from(pcd, e.drop_last()) == pcd);
        assert(res == pcd.push(Comp::Normal(m)));
        assert(pcd.push(Comp::Normal(m)).subrange(0, bc.len() as int) =~= bc);
        assert(bc.is_prefix_of(res));
    }
}

/// The relative path `r` from the runtime home `h` to `pc`, stored and then
/// trimmed as the scope check reads it, resolves under the provider
/// directory `bc`.
#[verifier::rlimit(100)]
proof fn lemma_stored_scope(h: Seq<Comp>, c: int, pc: Seq<Comp>, bc: Seq<Comp>, r: Seq<Comp>)
    requires
        rooted_names(h),
        rooted_names(pc),
        rooted_names(bc),
        bc.last() is Normal && plain(bc.last()->Normal_0),
        h.skip(c).len() == 0 ==> (bc[c] is Normal && bc[c]->Normal_0.len() > 0 && !is_ws(bc[c]->Normal_0[0])),
        bc.is_prefix_of(pc),
        1 <= c <= h.len(),
        c < bc.len(),
        h.take(c) == pc.take(c),
        r == ups(h.skip(c)) + pc.skip(c),
        all_names(h.skip(c)),
        ups(h.skip(c)) == parents(h.skip(c).len()),
        rel_comps(r),
        names_no_backslash(r),
        path_comps(render(h)) == h,
        is_abs(render(h)),
        !(pc.len() == bc.len() + 1 && pc.last() is Normal && trim_end(pc.last()->Normal_0) == seq!['.', '.']),
    ensures
        ({
            let t = trim(replace_char(render(r), '\\', '/'));
            &&& t.len() > 0
            &&& !is_abs(t)
            &&& bc.is_prefix_of(norm(path_comps(push_path(render(h), t))))
        }),
{
    let k = h.skip(c).len();
    let tc = pc.skip(c);
    assert(all_names(tc)) by {
        assert forall|i: int| 0 <= i < tc.len() implies #[trigger] tc[i] is Normal by {
            assert(tc[i] == pc.drop_first()[c - 1 + i]);
        }
    }
    let p = render(r);
    lemma_render_nb(r);
    assert(replace_char(p, '\\', '/') =~= p);
    lemma_render_rel(r);
    lemma_render_last(r);
    // the stored path starts with `..` or with a name of the provider directory
    assert(!is_ws(p[0])) by {
        if k > 0 {
            assert(r[0] == Comp::ParentDir);
        } else {
            assert(r[0] == tc[0]);
            assert(tc[0] == bc[c]);
        }
    }
    crate::text::lemma_lead_ws(p, 0);
    assert(p.skip(0) =~= p);
    assert(trim_start(p) == p);
    let hp = render(h);
    if !is_ws(p.last()) {
        crate::text::lemma_trail_ws(p, 0);
        assert(p.take(p.len() as int) =~= p);
        assert(trim(p) == p);
        lemma_comps_push(hp, p);
        lemma_resolve(h, c, tc);
        assert(pc.take(c) + tc =~= pc);
        assert(pc.subrange(0, bc.len() as int) =~= bc);
    } else {
        lemma_trailing_blank(h, c, pc, bc, r, p);
    }
}

/// `x`, written relative to the runtime home and trimmed as the scope check
/// reads it, is relative and resolves against the runtime home to a path
/// under the provider directory of group `prefix`.
#[verifier::rlimit(100)]
proof fn lemma_home_relative_trimmed(pd: Seq<char>, prefix: Seq<char>, x: Seq<char>)
    requires
        rooted_names(path_comps(pd)),
        rooted_names(path_comps(provider_base(pd, prefix))),
        path_comps(provider_base(pd, prefix)).last() == Comp::Normal(prefix),
        plain(prefix),
        !blank_below_home(pd, prefix),
        path_comps(provider_base(pd, prefix)).len() == path_comps(pd).len() + 2,
        is_abs(x),
        tail_no_backslash(x, provider_base(pd, prefix)),
        !backslash_below_home(pd, prefix),
        rooted_names(path_comps(x)),
        path_comps(provider_base(pd, prefix)).is_prefix_of(path_comps(x)),
        !lone_blank_parent(x, provider_base(pd, prefix)),
    ensures
        ({
            let t = trim(home_relative(pd, x));
            &&& t.len() > 0
            &&& !is_abs(t)
            &&& norm(path_comps(provider_base(pd, prefix))).is_prefix_of(
                norm(path_comps(push_path(render(runtime_home(pd)), t))),
            )
        }),
{
    let base = provider_base(pd, prefix);
    let bc = path_comps(base);
    let pc = path_comps(x);
    lemma_norm_rooted_names(bc);
    lemma_norm_rooted_names(pc);
    let h = runtime_home(pd);
    lemma_runtime_home_rooted(pd);
    lemma_norm_rooted_names(h);
    lemma_common_len_props(pc, h);
    let c = common_len(pc, h) as int;
    assert(c >= 1);
    assert(c < bc.len());
    let hs = h.skip(c);
    assert(all_names(hs)) by {
        assert forall|i: int| 0 <= i < hs.len() implies #[trigger] hs[i] is Normal by {
            assert(hs[i] == h.drop_first()[c - 1 + i]);
        }
    }
    let k = hs.len();
    lemma_ups_names(hs);
    let tc = pc.skip(c);
    assert(valid_names(tc)) by {
        assert forall|i: int| 0 <= i < tc.len() implies (#[trigger] tc[i] is Normal && valid_name(
            tc[i]->Normal_0)) by {
            assert(tc[i] == pc.drop_first()[c - 1 + i]);
        }
    }
    let r = ups(hs) + tc;
    assert(relative_from(pc, h) == Some(r));
    assert(rel_comps(r)) by {
        assert forall|i: int| 0 <= i < r.len() implies rel_comp(#[trigger] r[i]) by {
            if i < k {
                assert(r[i] == Comp::ParentDir);
            } else {
                assert(r[i] == tc[i - k]);
            }
        }
    }
    assert(names_no_backslash(r)) by {
        assert forall|i: int| 0 <= i < r.len() && #[trigger] r[i] is Normal implies no_backslash(
            r[i]->Normal_0) by {
            if i < k {
                assert(r[i] == Comp::ParentDir);
            } else {
                let j = c + i - k;
                assert(r[i] == tc[i - k]);
                assert(tc[i - k] == pc[j]);
                if j >= bc.len() {
                    assert(pc[j] == pc.skip(bc.len() as int)[j - bc.len()]);
                } else {
                    assert(pc[j] == bc[j]);
                    if !no_backslash(pc[j]->Normal_0) {
                        let n = pc[j]->Normal_0;
                        let w = choose|w: int| 0 <= w < n.len() && n[w] == '\\';
                        assert(n.contains('\\'));
                        assert(j < h.len() && h.take(j + 1) == bc.take(j + 1));
                        assert(h[c] == h.take(j + 1)[c]);
                        assert(bc[c] == bc.take(j + 1)[c]);
                        assert(pc[c] == bc[c]);
                    }
                }
            }
        }
    }
    lemma_render_rooted(h);
    if k == 0 {
        assert(c == h.len());
        assert(h =~= h.take(c));
        assert(pc.take(c) =~= bc.take(c));
        assert(h.is_prefix_of(bc)) by {
            assert(bc.take(h.len() as int) =~= h);
        }
        assert(bc[c] == bc.drop_first()[c - 1]);
    }
    lemma_stored_scope(h, c, pc, bc, r);
    assert(home_relative(pd, x) == replace_char(render(r), '\\', '/'));

}

} // verus!
