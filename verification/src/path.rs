//! Unix path model: splitting a path into components, component-wise
//! comparison, forced joining under a base, and normalisation of reported
//! paths.
//!
//! A path is a sequence of characters. Its components follow the rules of
//! Unix paths: `/` separates segments, a leading `/` is the root component
//! (written `"/"`), empty segments and `.` segments are dropped except that a
//! relative path that starts with `.` keeps that `.` as its first component.
use vstd::prelude::*;
use crate::text::{chars_of, string_of};

verus! {

/// The character sequences held by a sequence of character vectors.
pub open spec fn views(v: Seq<Vec<char>>) -> Seq<Seq<char>> {
    v.map_values(|x: Vec<char>| x@)
}

/// Whether `s` starts with the root separator.
pub open spec fn has_root(s: Seq<char>) -> bool {
    s.len() > 0 && s[0] == '/'
}

/// Whether a segment is kept as a component; `first` says that no separator
/// came before it.
pub open spec fn keep_segment(seg: Seq<char>, first: bool) -> bool {
    seg.len() > 0 && (seg != seq!['.'] || first)
}

/// `parts` with the segment `seg` appended when it is kept.
pub open spec fn close_segment(parts: Seq<Seq<char>>, seg: Seq<char>, first: bool) -> Seq<Seq<char>> {
    if keep_segment(seg, first) {
        parts.push(seg)
    } else {
        parts
    }
}

/// Left-to-right scan of `s`: the components closed so far, the segment being
/// read, and whether a separator has been seen.
pub open spec fn scan(s: Seq<char>) -> (Seq<Seq<char>>, Seq<char>, bool)
    decreases s.len(),
{
    if s.len() == 0 {
        (seq![], seq![], false)
    } else {
        let (parts, cur, seen) = scan(s.drop_last());
        if s.last() == '/' {
            (close_segment(parts, cur, !seen), seq![], true)
        } else {
            (parts, cur.push(s.last()), seen)
        }
    }
}

/// The components of `s` other than the root.
pub open spec fn relative_components(s: Seq<char>) -> Seq<Seq<char>> {
    let (parts, cur, seen) = scan(s);
    close_segment(parts, cur, !seen)
}

/// The components of `s`, the root (written `"/"`) first when `s` has one.
pub open spec fn components(s: Seq<char>) -> Seq<Seq<char>> {
    if has_root(s) {
        seq![seq!['/']] + relative_components(s)
    } else {
        relative_components(s)
    }
}

/// `base`'s components are a prefix of `path`'s components.
pub open spec fn path_starts_with(path: Seq<char>, base: Seq<char>) -> bool {
    components(base).is_prefix_of(components(path))
}

/// Appending one relative component, with a separator when `out` is
/// non-empty and does not already end with one.
pub open spec fn push_component(out: Seq<char>, comp: Seq<char>) -> Seq<char> {
    if out.len() > 0 && out.last() != '/' {
        out + seq!['/'] + comp
    } else {
        out + comp
    }
}

/// Appending each of `comps` in turn.
pub open spec fn push_all(out: Seq<char>, comps: Seq<Seq<char>>) -> Seq<char>
    decreases comps.len(),
{
    if comps.len() == 0 {
        out
    } else {
        push_component(push_all(out, comps.drop_last()), comps.last())
    }
}

/// `base` followed by every component of `p` except its root.
pub open spec fn spec_join_force(base: Seq<char>, p: Seq<char>) -> Seq<char> {
    push_all(base, relative_components(p))
}

/// Index of the first occurrence of `c` in `s`.
pub open spec fn find_char(s: Seq<char>, c: char) -> Option<int>
    decreases s.len(),
{
    if s.len() == 0 {
        None
    } else if s[0] == c {
        Some(0)
    } else {
        match find_char(s.drop_first(), c) {
            Some(i) => Some(i + 1),
            None => None,
        }
    }
}

/// `s` with every backslash turned into a slash.
pub open spec fn forward_slashes(s: Seq<char>) -> Seq<char> {
    s.map_values(|c: char| if c == '\\' { '/' } else { c })
}

/// `s` with a leading slash added when it has none.
pub open spec fn lead_slash(s: Seq<char>) -> Seq<char> {
    if has_root(s) {
        s
    } else {
        seq!['/'] + s
    }
}

/// `s` after its first colon, or `s` when it has none.
pub open spec fn after_colon(s: Seq<char>) -> Seq<char> {
    match find_char(s, ':') {
        Some(i) => s.skip(i + 1),
        None => s,
    }
}

/// The path reported for `path` by a backend rooted at `prefix`.
pub open spec fn spec_fix_path(path: Seq<char>, prefix: Seq<char>) -> Seq<char> {
    let p0 = after_colon(forward_slashes(path));
    let q = forward_slashes(prefix);
    let p1 = match find_char(q, ':') {
        Some(j) => {
            let q2 = q.skip(j + 1);
            let p = lead_slash(p0);
            if q2.is_prefix_of(p) {
                p.skip(q2.len() as int)
            } else {
                p
            }
        },
        None => p0,
    };
    let p2 = lead_slash(p1);
    if p2.len() > 1 && p2.last() == '/' {
        p2.drop_last()
    } else {
        p2
    }
}

proof fn lemma_take_push<A>(s: Seq<A>, i: int)
    requires
        0 <= i < s.len(),
    ensures
        s.take(i + 1).drop_last() == s.take(i),
        s.take(i + 1).last() == s[i],
{
    assert(s.take(i + 1).drop_last() =~= s.take(i));
}

/// Whether a segment is kept as a component.
fn keep_segment_exec(seg: &Vec<char>, first: bool) -> (r: bool)
    ensures
        r == keep_segment(seg@, first),
{
    if seg.len() == 0 {
        false
    } else if seg.len() == 1 && seg[0] == '.' {
        assert(seg@ =~= seq!['.']);
        first
    } else {
        assert(seg@ != seq!['.']) by {
            if seg@.len() == 1 {
                assert(seg@[0] != seq!['.'][0]);
            }
        }
        true
    }
}

/// The components of `s` other than the root.
pub fn relative_components_of(s: &Vec<char>) -> (parts: Vec<Vec<char>>)
    ensures
        views(parts@) == relative_components(s@),
{
    let mut parts: Vec<Vec<char>> = Vec::new();
    let mut cur: Vec<char> = Vec::new();
    let mut seen = false;
    let mut i: usize = 0;
    while i < s.len()
        invariant
            i <= s.len(),
            (views(parts@), cur@, seen) == scan(s@.take(i as int)),
        decreases s.len() - i,
    {
        proof {
            lemma_take_push(s@, i as int);
        }
        if s[i] == '/' {
            if keep_segment_exec(&cur, !seen) {
                let ghost before = views(parts@);
                parts.push(cur);
                assert(views(parts@) =~= before.push(cur@));
            }
            cur = Vec::new();
            seen = true;
        } else {
            cur.push(s[i]);
        }
        i = i + 1;
    }
    assert(s@.take(s.len() as int) == s@);
    if keep_segment_exec(&cur, !seen) {
        let ghost before = views(parts@);
        parts.push(cur);
        assert(views(parts@) =~= before.push(cur@));
    }
    parts
}

/// The components of `s`, the root (written `"/"`) first when `s` has one.
pub fn components_of(s: &Vec<char>) -> (parts: Vec<Vec<char>>)
    ensures
        views(parts@) == components(s@),
{
    let mut rel = relative_components_of(s);
    if s.len() > 0 && s[0] == '/' {
        let mut root: Vec<char> = Vec::new();
        root.push('/');
        let mut parts: Vec<Vec<char>> = Vec::new();
        parts.push(root);
        let ghost first = parts@;
        let ghost rest = rel@;
        parts.append(&mut rel);
        assert(views(parts@) =~= seq![seq!['/']] + views(rest)) by {
            assert(parts@ == first + rest);
            assert(first[0]@ =~= seq!['/']);
        }
        parts
    } else {
        rel
    }
}

/// Whether two character vectors hold the same characters.
fn same_chars(a: &Vec<char>, b: &Vec<char>) -> (r: bool)
    ensures
        r == (a@ == b@),
{
    if a.len() != b.len() {
        return false;
    }
    let mut i: usize = 0;
    while i < a.len()
        invariant
            i <= a.len(),
            a.len() == b.len(),
            forall|j: int| 0 <= j < i ==> a@[j] == b@[j],
        decreases a.len() - i,
    {
        if a[i] != b[i] {
            return false;
        }
        i = i + 1;
    }
    assert(a@ =~= b@);
    true
}

/// Whether `pre` is a prefix of `whole`, element by element.
pub(crate) fn parts_prefix(pre: &Vec<Vec<char>>, whole: &Vec<Vec<char>>) -> (r: bool)
    ensures
        r == views(pre@).is_prefix_of(views(whole@)),
{
    if pre.len() > whole.len() {
        return false;
    }
    let mut i: usize = 0;
    while i < pre.len()
        invariant
            i <= pre.len(),
            pre.len() <= whole.len(),
            forall|j: int| 0 <= j < i ==> views(pre@)[j] == views(whole@)[j],
        decreases pre.len() - i,
    {
        if !same_chars(&pre[i], &whole[i]) {
            assert(views(pre@)[i as int] != views(whole@)[i as int]);
            return false;
        }
        i = i + 1;
    }
    assert(views(pre@) =~= views(whole@).subrange(0, views(pre@).len() as int));
    true
}

/// Whether `path` lies under `base` component by component (`Path::starts_with`).
pub fn path_starts_with_exec(path: &Vec<char>, base: &Vec<char>) -> (r: bool)
    ensures
        r == path_starts_with(path@, base@),
{
    let cp = components_of(path);
    let cb = components_of(base);
    parts_prefix(&cb, &cp)
}

/// `out` with one relative component appended.
fn push_component_exec(out: &mut Vec<char>, comp: &Vec<char>)
    ensures
        final(out)@ == push_component(old(out)@, comp@),
{
    if out.len() > 0 && out[out.len() - 1] != '/' {
        out.push('/');
    }
    let ghost mid = out@;
    let mut i: usize = 0;
    while i < comp.len()
        invariant
            i <= comp.len(),
            out@ == mid + comp@.take(i as int),
        decreases comp.len() - i,
    {
        out.push(comp[i]);
        assert(mid + comp@.take(i + 1) =~= (mid + comp@.take(i as int)).push(comp@[i as int]));
        i = i + 1;
    }
    assert(comp@.take(comp.len() as int) =~= comp@);
}

/// Joins `p` under `base`, dropping the root of `p` so that the result is
/// always `base` followed by the remaining components of `p`.
pub fn join_force(base: &str, p: &str) -> (out: String)
    ensures
        out@ == spec_join_force(base@, p@),
{
    let mut out = chars_of(base);
    let pc = chars_of(p);
    let comps = relative_components_of(&pc);
    let mut i: usize = 0;
    while i < comps.len()
        invariant
            i <= comps.len(),
            views(comps@) == relative_components(p@),
            out@ == push_all(base@, views(comps@).take(i as int)),
        decreases comps.len() - i,
    {
        proof {
            lemma_take_push(views(comps@), i as int);
        }
        push_component_exec(&mut out, &comps[i]);
        i = i + 1;
    }
    assert(views(comps@).take(comps.len() as int) == views(comps@));
    string_of(&out)
}

/// What `find_char` returns: the first index holding `c`, if any.
proof fn lemma_find_char(s: Seq<char>, c: char)
    ensures
        match find_char(s, c) {
            Some(i) => 0 <= i < s.len() && s[i] == c && forall|j: int| 0 <= j < i ==> s[j] != c,
            None => forall|j: int| 0 <= j < s.len() ==> s[j] != c,
        },
    decreases s.len(),
{
    if s.len() > 0 && s[0] != c {
        lemma_find_char(s.drop_first(), c);
        match find_char(s.drop_first(), c) {
            Some(i) => {
                assert forall|j: int| 0 <= j < i + 1 implies s[j] != c by {
                    if j > 0 {
                        assert(s[j] == s.drop_first()[j - 1]);
                    }
                }
            },
            None => {
                assert forall|j: int| 0 <= j < s.len() implies s[j] != c by {
                    if j > 0 {
                        assert(s[j] == s.drop_first()[j - 1]);
                    }
                }
            },
        }
    }
}

/// Index of the first `c` in `v`.
fn find_char_exec(v: &Vec<char>, c: char) -> (r: Option<usize>)
    ensures
        match r {
            Some(i) => i < v.len() && find_char(v@, c) == Some(i as int),
            None => find_char(v@, c) is None,
        },
{
    proof {
        lemma_find_char(v@, c);
    }
    let mut i: usize = 0;
    while i < v.len()
        invariant
            i <= v.len(),
            forall|j: int| 0 <= j < i ==> v@[j] != c,
        decreases v.len() - i,
    {
        if v[i] == c {
            proof {
                lemma_find_char(v@, c);
            }
            return Some(i);
        }
        i = i + 1;
    }
    None
}

/// `v` with backslashes turned into slashes.
fn forward_slashes_exec(v: &Vec<char>) -> (r: Vec<char>)
    ensures
        r@ == forward_slashes(v@),
{
    let mut r: Vec<char> = Vec::new();
    let mut i: usize = 0;
    while i < v.len()
        invariant
            i <= v.len(),
            r@ == forward_slashes(v@.take(i as int)),
        decreases v.len() - i,
    {
        let c = if v[i] == '\\' { '/' } else { v[i] };
        r.push(c);
        assert(forward_slashes(v@.take(i + 1)) =~= forward_slashes(v@.take(i as int)).push(c));
        i = i + 1;
    }
    assert(v@.take(v.len() as int) =~= v@);
    r
}

/// `v` without its first `n` characters.
fn skip_exec(v: &Vec<char>, n: usize) -> (r: Vec<char>)
    requires
        n <= v.len(),
    ensures
        r@ == v@.skip(n as int),
{
    let mut r: Vec<char> = Vec::new();
    let mut i: usize = n;
    while i < v.len()
        invariant
            n <= i <= v.len(),
            r@ == v@.subrange(n as int, i as int),
        decreases v.len() - i,
    {
        r.push(v[i]);
        assert(v@.subrange(n as int, i + 1) =~= v@.subrange(n as int, i as int).push(v@[i as int]));
        i = i + 1;
    }
    assert(v@.subrange(n as int, v.len() as int) =~= v@.skip(n as int));
    r
}

/// Whether `pre` is a prefix of `whole`, character by character.
fn chars_prefix(pre: &Vec<char>, whole: &Vec<char>) -> (r: bool)
    ensures
        r == pre@.is_prefix_of(whole@),
{
    if pre.len() > whole.len() {
        return false;
    }
    let mut i: usize = 0;
    while i < pre.len()
        invariant
            i <= pre.len(),
            pre.len() <= whole.len(),
            forall|j: int| 0 <= j < i ==> pre@[j] == whole@[j],
        decreases pre.len() - i,
    {
        if pre[i] != whole[i] {
            return false;
        }
        i = i + 1;
    }
    assert(pre@ =~= whole@.subrange(0, pre@.len() as int));
    true
}

/// `v` with a leading slash added when it has none.
fn lead_slash_exec(v: Vec<char>) -> (r: Vec<char>)
    ensures
        r@ == lead_slash(v@),
{
    if v.len() > 0 && v[0] == '/' {
        v
    } else {
        let mut r: Vec<char> = Vec::new();
        r.push('/');
        let mut rest = v;
        let ghost tail = rest@;
        r.append(&mut rest);
        assert(r@ =~= seq!['/'] + tail);
        r
    }
}

/// Normalises a path reported by a backend rooted at `prefix`: backslashes
/// become slashes, a drive part up to the first colon is dropped (and, when
/// `prefix` has one too, the rest of `prefix` is stripped from the front), a
/// leading slash is ensured, and one trailing slash is removed unless the
/// result is the root alone.
pub fn fix_path(path: &str, prefix: &str) -> (out: String)
    ensures
        out@ == spec_fix_path(path@, prefix@),
{
    let pc = chars_of(path);
    let qc = chars_of(prefix);
    let p = forward_slashes_exec(&pc);
    let q = forward_slashes_exec(&qc);
    let p0 = match find_char_exec(&p, ':') {
        Some(i) => skip_exec(&p, i + 1),
        None => p,
    };
    let p1 = match find_char_exec(&q, ':') {
        Some(j) => {
            let q2 = skip_exec(&q, j + 1);
            let p = lead_slash_exec(p0);
            if chars_prefix(&q2, &p) {
                skip_exec(&p, q2.len())
            } else {
                p
            }
        },
        None => p0,
    };
    let mut p2 = lead_slash_exec(p1);
    if p2.len() > 1 && p2[p2.len() - 1] == '/' {
        p2.pop();
    }
    string_of(&p2)
}

/// `cs` without its `.` components.
pub open spec fn without_cur_dir(cs: Seq<Seq<char>>) -> Seq<Seq<char>>
    decreases cs.len(),
{
    if cs.len() == 0 {
        cs
    } else if cs.last() == seq!['.'] {
        without_cur_dir(cs.drop_last())
    } else {
        without_cur_dir(cs.drop_last()).push(cs.last())
    }
}

/// A segment: a non-empty run of characters without a separator.
pub open spec fn is_segment(c: Seq<char>) -> bool {
    c.len() > 0 && !c.contains('/')
}

proof fn lemma_scan_segment(s: Seq<char>, comp: Seq<char>)
    requires
        !comp.contains('/'),
    ensures
        scan(s + comp) == (scan(s).0, scan(s).1 + comp, scan(s).2),
    decreases comp.len(),
{
    if comp.len() == 0 {
        assert(s + comp =~= s);
        assert(scan(s).1 + comp =~= scan(s).1);
    } else {
        let front = comp.drop_last();
        assert(!front.contains('/')) by {
            if front.contains('/') {
                let k = choose|k: int| 0 <= k < front.len() && front[k] == '/';
                assert(comp[k] == '/');
            }
        }
        lemma_scan_segment(s, front);
        assert((s + comp).drop_last() =~= s + front);
        assert((s + comp).last() == comp.last());
        assert(comp.last() != '/') by {
            assert(comp[comp.len() - 1] == comp.last());
        }
        assert(scan(s).1 + front.push(comp.last()) =~= scan(s).1 + comp);
        assert((scan(s).1 + front).push(comp.last()) =~= scan(s).1 + comp);
    }
}

proof fn lemma_scan_parts_are_segments(s: Seq<char>)
    ensures
        forall|k: int| 0 <= k < scan(s).0.len() ==> is_segment(#[trigger] scan(s).0[k]),
        !scan(s).1.contains('/'),
    decreases s.len(),
{
    if s.len() > 0 {
        lemma_scan_parts_are_segments(s.drop_last());
        let (parts, cur, seen) = scan(s.drop_last());
        if s.last() != '/' {
            assert(!cur.push(s.last()).contains('/')) by {
                if cur.push(s.last()).contains('/') {
                    let k = choose|k: int| 0 <= k < cur.push(s.last()).len() && cur.push(s.last())[k] == '/';
                    if k < cur.len() {
                        assert(cur[k] == '/');
                    }
                }
            }
        } else {
            assert(scan(s).1 =~= seq![]);
        }
    }
}

/// Every relative component is a non-empty run without a separator.
proof fn lemma_relative_components_are_segments(s: Seq<char>)
    ensures
        forall|k: int| 0 <= k < relative_components(s).len()
            ==> is_segment(#[trigger] relative_components(s)[k]),
{
    lemma_scan_parts_are_segments(s);
}

/// Pushing a segment adds it as a component, unless it is `.`.
proof fn lemma_push_component(out: Seq<char>, comp: Seq<char>)
    requires
        out.len() > 0,
        is_segment(comp),
    ensures
        push_component(out, comp).len() > 0,
        components(push_component(out, comp)) == close_segment(components(out), comp, false),
{
    let r = push_component(out, comp);
    let (parts, cur, seen) = scan(out);
    if out.last() != '/' {
        let mid = out.push('/');
        assert(mid.drop_last() =~= out);
        assert(scan(mid) == (close_segment(parts, cur, !seen), Seq::<char>::empty(), true));
        assert(r =~= mid + comp);
        lemma_scan_segment(mid, comp);
        assert(Seq::<char>::empty() + comp =~= comp);
        assert(relative_components(r) == close_segment(relative_components(out), comp, false));
    } else {
        assert(out =~= out.drop_last().push('/'));
        assert(cur =~= Seq::<char>::empty());
        assert(r =~= out + comp);
        lemma_scan_segment(out, comp);
        assert(Seq::<char>::empty() + comp =~= comp);
        assert(close_segment(parts, cur, !seen) == parts);
        assert(relative_components(r) == close_segment(relative_components(out), comp, false));
    }
    assert(r[0] == out[0]);
    if has_root(out) {
        assert(components(r) =~= close_segment(components(out), comp, false));
    }
}

proof fn lemma_push_all(base: Seq<char>, comps: Seq<Seq<char>>)
    requires
        base.len() > 0,
        forall|k: int| 0 <= k < comps.len() ==> is_segment(#[trigger] comps[k]),
    ensures
        push_all(base, comps).len() > 0,
        components(push_all(base, comps)) == components(base) + without_cur_dir(comps),
    decreases comps.len(),
{
    if comps.len() == 0 {
        assert(components(base) + without_cur_dir(comps) =~= components(base));
    } else {
        let front = comps.drop_last();
        assert forall|k: int| 0 <= k < front.len() implies is_segment(#[trigger] front[k]) by {
            assert(front[k] == comps[k]);
        }
        lemma_push_all(base, front);
        assert(is_segment(comps.last())) by {
            assert(comps[comps.len() - 1] == comps.last());
        }
        lemma_push_component(push_all(base, front), comps.last());
        if comps.last() == seq!['.'] {
        } else {
            assert((components(base) + without_cur_dir(front)).push(comps.last())
                =~= components(base) + without_cur_dir(front).push(comps.last()));
        }
    }
}

proof fn lemma_scan_dots(s: Seq<char>)
    ensures
        !scan(s).2 ==> scan(s).0.len() == 0,
        forall|k: int| 0 < k < scan(s).0.len() ==> #[trigger] scan(s).0[k] != seq!['.'],
    decreases s.len(),
{
    if s.len() > 0 {
        lemma_scan_dots(s.drop_last());
        let (pb, cb, sb) = scan(s.drop_last());
        if s.last() == '/' {
            if keep_segment(cb, !sb) {
                assert forall|k: int| 0 < k < pb.push(cb).len() implies #[trigger] pb.push(cb)[k] != seq!['.'] by {
                    if k < pb.len() {
                        assert(pb.push(cb)[k] == pb[k]);
                    }
                }
            }
        }
    }
}

/// Only the first relative component can be `.`.
proof fn lemma_relative_dots(s: Seq<char>)
    ensures
        forall|k: int| 0 < k < relative_components(s).len() ==> #[trigger] relative_components(s)[k] != seq!['.'],
{
    lemma_scan_dots(s);
    let (pb, cb, sb) = scan(s);
    if keep_segment(cb, !sb) {
        assert forall|k: int| 0 < k < pb.push(cb).len() implies #[trigger] pb.push(cb)[k] != seq!['.'] by {
            if k < pb.len() {
                assert(pb.push(cb)[k] == pb[k]);
            }
        }
    }
}

/// When only the first component can be `.`, dropping every `.` is dropping a
/// leading one.
proof fn lemma_without_cur_dir_leading(cs: Seq<Seq<char>>)
    requires
        forall|k: int| 0 < k < cs.len() ==> #[trigger] cs[k] != seq!['.'],
    ensures
        without_cur_dir(cs) == drop_leading_cur_dir(cs),
    decreases cs.len(),
{
    let e = Seq::<Seq<char>>::empty();
    if cs.len() == 1 {
        assert(cs.drop_last() =~= e);
        assert(without_cur_dir(e) == e);
        assert(cs.last() == cs[0]);
        if cs[0] == seq!['.'] {
            assert(cs.skip(1) =~= e);
            assert(without_cur_dir(cs) == e);
        } else {
            assert(e.push(cs[0]) =~= cs);
            assert(without_cur_dir(cs) == cs);
        }
    } else if cs.len() > 1 {
        let front = cs.drop_last();
        assert forall|k: int| 0 < k < front.len() implies #[trigger] front[k] != seq!['.'] by {
            assert(front[k] == cs[k]);
        }
        lemma_without_cur_dir_leading(front);
        assert(cs.last() == cs[cs.len() - 1]);
        assert(cs.last() != seq!['.']);
        assert(without_cur_dir(cs) == without_cur_dir(front).push(cs.last()));
        assert(front[0] == cs[0]);
        if cs[0] == seq!['.'] {
            assert(front.skip(1).push(cs.last()) =~= cs.skip(1));
        } else {
            assert(front.push(cs.last()) =~= cs);
        }
    }
}

/// Collecting segments into a path from nothing gives back those segments as
/// its components, with no root.
proof fn lemma_push_all_empty(cs: Seq<Seq<char>>)
    requires
        forall|k: int| 0 <= k < cs.len() ==> is_segment(#[trigger] cs[k]),
        forall|k: int| 0 < k < cs.len() ==> #[trigger] cs[k] != seq!['.'],
    ensures
        components(push_all(Seq::<char>::empty(), cs)) == cs,
        !has_root(push_all(Seq::<char>::empty(), cs)),
        cs.len() > 0 ==> push_all(Seq::<char>::empty(), cs).len() > 0,
        cs.len() == 0 ==> push_all(Seq::<char>::empty(), cs) == Seq::<char>::empty(),
    decreases cs.len(),
{
    let e = Seq::<char>::empty();
    if cs.len() == 0 {
        assert(scan(e).0 =~= Seq::<Seq<char>>::empty());
        assert(components(e) =~= cs);
    } else {
        let front = cs.drop_last();
        let c = cs.last();
        assert(c == cs[cs.len() - 1]);
        assert(is_segment(c));
        if cs.len() == 1 {
            assert(front =~= Seq::<Seq<char>>::empty());
            assert(push_all(e, front) == e);
            assert(push_component(e, c) =~= c);
            assert(e + c =~= c);
            lemma_scan_segment(e, c);
            assert(scan(e).0 =~= Seq::<Seq<char>>::empty());
            assert(scan(e).1 + c =~= c);
            assert(relative_components(c) =~= seq![c]);
            assert(c[0] != '/') by {
                assert(c.contains(c[0]));
            }
            assert(seq![c] =~= cs);
        } else {
            assert forall|k: int| 0 <= k < front.len() implies is_segment(#[trigger] front[k]) by {
                assert(front[k] == cs[k]);
            }
            assert forall|k: int| 0 < k < front.len() implies #[trigger] front[k] != seq!['.'] by {
                assert(front[k] == cs[k]);
            }
            lemma_push_all_empty(front);
            let out = push_all(e, front);
            lemma_push_component(out, c);
            assert(c != seq!['.']);
            assert(front.push(c) =~= cs);
            assert(push_component(out, c)[0] == out[0]);
        }
    }
}

/// A trailing separator adds no component.
proof fn lemma_components_sep(base: Seq<char>)
    requires
        base.len() > 0,
        base.last() != '/',
    ensures
        components(base.push('/')) == components(base),
        relative_components(base.push('/')) == relative_components(base),
{
    let t = base.push('/');
    assert(t.drop_last() =~= base);
    assert(t[0] == base[0]);
}

/// Law: joining `p` under `base` yields exactly the components of the
/// non-root part of `p` when `base` is empty, and otherwise the components of
/// `base` followed by those of `p` other than its root and its `.`
/// components.
pub proof fn law_join_force_components(base: Seq<char>, p: Seq<char>)
    ensures
        components(spec_join_force(base, p)) == if base.len() == 0 {
            relative_components(p)
        } else {
            components(base) + without_cur_dir(relative_components(p))
        },
{
    lemma_relative_components_are_segments(p);
    if base.len() == 0 {
        lemma_relative_dots(p);
        assert(base =~= Seq::<char>::empty());
        lemma_push_all_empty(relative_components(p));
    } else {
        lemma_push_all(base, relative_components(p));
    }
}

/// Law: a path joined under `base` lies under `base`, component by component
/// (`Path::starts_with`).
pub proof fn law_join_force_stays_under_base(base: Seq<char>, p: Seq<char>)
    ensures
        path_starts_with(spec_join_force(base, p), base),
{
    law_join_force_components(base, p);
    let cb = components(base);
    if base.len() == 0 {
        assert(scan(base).0 =~= Seq::<Seq<char>>::empty());
        assert(cb =~= Seq::<Seq<char>>::empty());
        assert(cb =~= components(spec_join_force(base, p)).subrange(0, 0));
    } else {
        let rest = without_cur_dir(relative_components(p));
        assert(cb =~= (cb + rest).subrange(0, cb.len() as int));
    }
}

/// The relative path collected from the components `cs`
/// (`PathBuf::from_iter`): each pushed in turn onto an empty path.
pub open spec fn collect_path(cs: Seq<Seq<char>>) -> Seq<char> {
    push_all(Seq::<char>::empty(), cs)
}

/// Law: forced joining is `Path::join` of the item's non-root components:
/// `join_force(base, p)` has the components of `base` joined with the path
/// collected from the components of `p` other than its root.
pub proof fn law_join_force_is_path_join(base: Seq<char>, p: Seq<char>)
    ensures
        components(spec_join_force(base, p)) == components(
            push_component(base, collect_path(relative_components(p))),
        ),
{
    let rc = relative_components(p);
    let r = collect_path(rc);
    lemma_relative_components_are_segments(p);
    lemma_relative_dots(p);
    lemma_push_all_empty(rc);
    law_join_force_components(base, p);
    if base.len() == 0 {
        assert(push_component(base, r) =~= r);
    } else {
        lemma_without_cur_dir_leading(rc);
        let joined = push_component(base, r);
        if rc.len() == 0 {
            assert(rc =~= Seq::<Seq<char>>::empty());
            assert(r == Seq::<char>::empty());
            assert(drop_leading_cur_dir(rc) == rc);
            assert(components(base) + rc =~= components(base));
            if base.last() != '/' {
                assert(joined =~= base.push('/'));
                lemma_components_sep(base);
            } else {
                assert(joined =~= base);
            }
        } else {
            let b2 = if base.last() != '/' { base.push('/') } else { base };
            if base.last() != '/' {
                lemma_components_sep(base);
                assert(joined =~= b2 + r);
            } else {
                assert(joined =~= b2 + r);
            }
            assert(b2.last() == '/');
            lemma_relative_after_sep(b2, r);
            assert(relative_components(r) == rc);
            assert(joined[0] == base[0]);
            assert(b2[0] == base[0]);
            if has_root(base) {
                assert(components(joined) =~= components(base) + drop_leading_cur_dir(rc));
            } else {
                assert(components(joined) =~= components(base) + drop_leading_cur_dir(rc));
            }
        }
    }
}

proof fn lemma_push_all_first(out: Seq<char>, cs: Seq<Seq<char>>)
    requires
        out.len() > 0,
    ensures
        push_all(out, cs).len() > 0,
        push_all(out, cs)[0] == out[0],
    decreases cs.len(),
{
    if cs.len() > 0 {
        lemma_push_all_first(out, cs.drop_last());
    }
}

/// The non-root components of `join_force(p, q)`.
proof fn lemma_join_relative(p: Seq<char>, q: Seq<char>)
    ensures
        relative_components(spec_join_force(p, q)) == if p.len() == 0 {
            relative_components(q)
        } else {
            relative_components(p) + drop_leading_cur_dir(relative_components(q))
        },
        p.len() == 0 ==> !has_root(spec_join_force(p, q)),
{
    let k = spec_join_force(p, q);
    let bq = relative_components(q);
    law_join_force_components(p, q);
    lemma_relative_components_are_segments(q);
    lemma_relative_dots(q);
    if p.len() == 0 {
        assert(p =~= Seq::<char>::empty());
        lemma_push_all_empty(bq);
    } else {
        lemma_without_cur_dir_leading(bq);
        lemma_push_all_first(p, bq);
        if has_root(p) {
            let ap = relative_components(p);
            assert(components(k) =~= seq![seq!['/']] + (ap + drop_leading_cur_dir(bq)));
            assert(components(k).skip(1) =~= relative_components(k));
            assert(components(k).skip(1) =~= ap + drop_leading_cur_dir(bq));
        }
    }
}

/// Law: forced joining is associative, component by component, except when
/// the base is empty, the middle path is a non-empty path with no non-root
/// component (such as `/`) and the last path starts with a `.` component.
pub proof fn law_join_force_associative(b: Seq<char>, p: Seq<char>, q: Seq<char>)
    requires
        b.len() > 0 || relative_components(p).len() > 0 || p.len() == 0 || !(
        relative_components(q).len() > 0 && relative_components(q)[0] == seq!['.']),
    ensures
        components(spec_join_force(spec_join_force(b, p), q)) == components(
            spec_join_force(b, spec_join_force(p, q)),
        ),
{
    let a = relative_components(p);
    let bq = relative_components(q);
    let j = spec_join_force(b, p);
    let k = spec_join_force(p, q);
    lemma_relative_dots(p);
    lemma_relative_dots(q);
    lemma_relative_dots(k);
    lemma_relative_components_are_segments(p);
    lemma_without_cur_dir_leading(a);
    lemma_without_cur_dir_leading(bq);
    lemma_without_cur_dir_leading(relative_components(k));
    lemma_join_relative(p, q);
    law_join_force_components(j, q);
    law_join_force_components(b, k);
    law_join_force_components(b, p);
    if p.len() == 0 {
        assert(scan(p).0 =~= Seq::<Seq<char>>::empty());
        assert(a =~= Seq::<Seq<char>>::empty());
    }
    let e = Seq::<Seq<char>>::empty();
    if b.len() > 0 {
        lemma_push_all(b, a);
        if p.len() == 0 {
            assert(drop_leading_cur_dir(a) =~= e);
            assert(components(b) + e + drop_leading_cur_dir(bq) =~= components(b) + drop_leading_cur_dir(bq));
        } else if a.len() == 0 {
            assert(a + drop_leading_cur_dir(bq) =~= drop_leading_cur_dir(bq));
            assert(drop_leading_cur_dir(a) =~= e);
            if bq.len() > 1 && bq[0] == seq!['.'] {
                assert(bq.skip(1)[0] == bq[1]);
            }
            assert(drop_leading_cur_dir(drop_leading_cur_dir(bq)) == drop_leading_cur_dir(bq));
            assert(components(b) + e + drop_leading_cur_dir(bq) =~= components(b) + drop_leading_cur_dir(bq));
        } else {
            assert(drop_leading_cur_dir(a + drop_leading_cur_dir(bq)) =~= drop_leading_cur_dir(a) + drop_leading_cur_dir(bq));
            assert(components(b) + drop_leading_cur_dir(a) + drop_leading_cur_dir(bq)
                =~= components(b) + (drop_leading_cur_dir(a) + drop_leading_cur_dir(bq)));
        }
    } else {
        assert(b =~= Seq::<char>::empty());
        lemma_push_all_empty(a);
        if a.len() > 0 {
            assert(p.len() > 0);
        } else {
            assert(j == Seq::<char>::empty());
            if p.len() > 0 {
                assert(a + drop_leading_cur_dir(bq) =~= drop_leading_cur_dir(bq));
            }
        }
    }
}

/// `cs` without a leading `.` component.
pub open spec fn drop_leading_cur_dir(cs: Seq<Seq<char>>) -> Seq<Seq<char>> {
    if cs.len() > 0 && cs[0] == seq!['.'] {
        cs.skip(1)
    } else {
        cs
    }
}

/// Scanning `s` after a prefix that ends just past a separator: the prefix's
/// components, then those of `s` less a leading `.`.
proof fn lemma_scan_after_sep(pre: Seq<char>, s: Seq<char>)
    requires
        scan(pre).1 == Seq::<char>::empty(),
        scan(pre).2,
    ensures
        scan(pre + s).1 == scan(s).1,
        scan(pre + s).2,
        scan(s).2 ==> scan(pre + s).0 == scan(pre).0 + drop_leading_cur_dir(scan(s).0),
        !scan(s).2 ==> scan(s).0 == Seq::<Seq<char>>::empty() && scan(pre + s).0 == scan(pre).0,
    decreases s.len(),
{
    let t = pre + s;
    let pp = scan(pre).0;
    if s.len() == 0 {
        assert(t =~= pre);
        assert(scan(s).0 =~= Seq::<Seq<char>>::empty());
    } else {
        lemma_scan_after_sep(pre, s.drop_last());
        assert(t.drop_last() =~= pre + s.drop_last());
        assert(t.last() == s.last());
        let (pb, cb, sb) = scan(s.drop_last());
        if s.last() == '/' {
            if sb {
                if keep_segment(cb, false) {
                    if pb.len() > 0 {
                        assert(drop_leading_cur_dir(pb.push(cb)) =~= drop_leading_cur_dir(pb).push(cb));
                    } else {
                        assert(drop_leading_cur_dir(pb.push(cb)) =~= pb.push(cb));
                    }
                    assert((pp + drop_leading_cur_dir(pb)).push(cb) =~= pp + drop_leading_cur_dir(pb).push(cb));
                }
            } else {
                if cb == seq!['.'] {
                    assert(drop_leading_cur_dir(Seq::<Seq<char>>::empty().push(cb)) =~= Seq::<Seq<char>>::empty());
                    assert(pp + Seq::<Seq<char>>::empty() =~= pp);
                } else if keep_segment(cb, true) {
                    assert(Seq::<Seq<char>>::empty().push(cb) =~= seq![cb]);
                    assert(seq![cb][0] == cb);
                    assert(drop_leading_cur_dir(seq![cb]) == seq![cb]);
                    assert(pp.push(cb) =~= pp + seq![cb]);
                } else {
                    assert(pp + Seq::<Seq<char>>::empty() =~= pp);
                }
            }
        }
    }
}

/// Law: the components of `/p` other than the root are those of `p`, less a
/// leading `.`; so an item and its rooted form join to the same place unless
/// the item starts with `.`.
pub proof fn law_rooted_item_components(p: Seq<char>)
    ensures
        relative_components(seq!['/'] + p) == drop_leading_cur_dir(relative_components(p)),
{
    let root = seq!['/'];
    assert(root.drop_last() =~= Seq::<char>::empty());
    assert(root.last() == '/');
    assert(scan(root.drop_last()).0 =~= Seq::<Seq<char>>::empty());
    assert(scan(root).0 =~= Seq::<Seq<char>>::empty());
    assert(relative_components(root) =~= Seq::<Seq<char>>::empty());
    lemma_relative_after_sep(root, p);
    assert(Seq::<Seq<char>>::empty() + drop_leading_cur_dir(relative_components(p))
        =~= drop_leading_cur_dir(relative_components(p)));
}

/// The components after a prefix ending in a separator are the prefix's
/// followed by those of the rest, less a leading `.`.
proof fn lemma_relative_after_sep(pre: Seq<char>, p: Seq<char>)
    requires
        pre.len() > 0,
        pre.last() == '/',
    ensures
        relative_components(pre + p) == relative_components(pre) + drop_leading_cur_dir(relative_components(p)),
{
    assert(pre =~= pre.drop_last().push('/'));
    let pp = scan(pre).0;
    assert(scan(pre).1 == Seq::<char>::empty());
    assert(relative_components(pre) == pp);
    lemma_scan_after_sep(pre, p);
    let (pb, cb, sb) = scan(p);
    if sb {
        if keep_segment(cb, false) {
            if pb.len() > 0 {
                assert(drop_leading_cur_dir(pb.push(cb)) =~= drop_leading_cur_dir(pb).push(cb));
            } else {
                assert(drop_leading_cur_dir(pb.push(cb)) =~= pb.push(cb));
            }
            assert((pp + drop_leading_cur_dir(pb)).push(cb) =~= pp + drop_leading_cur_dir(pb).push(cb));
        }
    } else {
        if cb == seq!['.'] {
            assert(drop_leading_cur_dir(Seq::<Seq<char>>::empty().push(cb)) =~= Seq::<Seq<char>>::empty());
            assert(pp + Seq::<Seq<char>>::empty() =~= pp);
        } else if keep_segment(cb, true) {
            assert(Seq::<Seq<char>>::empty().push(cb) =~= seq![cb]);
            assert(seq![cb][0] == cb);
            assert(drop_leading_cur_dir(seq![cb]) == seq![cb]);
            assert(pp.push(cb) =~= pp + seq![cb]);
        } else {
            assert(pp + Seq::<Seq<char>>::empty() =~= pp);
        }
    }
}

/// Law: joining ignores the root of the item: `p` and `/p` join under any
/// base to the same path when `p` does not start with a `.` component.
pub proof fn law_join_force_ignores_root(base: Seq<char>, p: Seq<char>)
    requires
        !(relative_components(p).len() > 0 && relative_components(p)[0] == seq!['.']),
    ensures
        spec_join_force(base, seq!['/'] + p) == spec_join_force(base, p),
{
    law_rooted_item_components(p);
}

/// Law: a reported path always starts with `/` and never holds a backslash.
pub proof fn law_fix_path_shape(path: Seq<char>, prefix: Seq<char>)
    ensures
        has_root(spec_fix_path(path, prefix)),
        !spec_fix_path(path, prefix).contains('\\'),
{
    let fp = forward_slashes(path);
    let fq = forward_slashes(prefix);
    assert(!fp.contains('\\')) by {
        if fp.contains('\\') {
            let k = choose|k: int| 0 <= k < fp.len() && fp[k] == '\\';
            assert(fp[k] == (if path[k] == '\\' { '/' } else { path[k] }));
        }
    }
    assert(!fq.contains('\\')) by {
        if fq.contains('\\') {
            let k = choose|k: int| 0 <= k < fq.len() && fq[k] == '\\';
            assert(fq[k] == (if prefix[k] == '\\' { '/' } else { prefix[k] }));
        }
    }
    let p0 = after_colon(fp);
    lemma_no_char_sub(fp, '\\');
    assert(!p0.contains('\\'));
    let p1 = match find_char(fq, ':') {
        Some(j) => {
            let q2 = fq.skip(j + 1);
            let p = lead_slash(p0);
            lemma_lead_slash_no_char(p0, '\\');
            if q2.is_prefix_of(p) {
                lemma_no_char_sub(p, '\\');
                p.skip(q2.len() as int)
            } else {
                p
            }
        },
        None => p0,
    };
    assert(!p1.contains('\\'));
    let p2 = lead_slash(p1);
    lemma_lead_slash_no_char(p1, '\\');
    if p2.len() > 1 && p2.last() == '/' {
        assert(p2.drop_last()[0] == p2[0]);
        assert(!p2.drop_last().contains('\\')) by {
            if p2.drop_last().contains('\\') {
                let k = choose|k: int| 0 <= k < p2.drop_last().len() && p2.drop_last()[k] == '\\';
                assert(p2[k] == '\\');
            }
        }
    }
}

/// Dropping characters from the front keeps out a character that was absent.
proof fn lemma_no_char_sub(s: Seq<char>, c: char)
    requires
        !s.contains(c),
    ensures
        forall|n: int| 0 <= n <= s.len() ==> !(#[trigger] s.skip(n)).contains(c),
        match find_char(s, ':') {
            Some(i) => !s.skip(i + 1).contains(c),
            None => true,
        },
{
    assert forall|n: int| 0 <= n <= s.len() implies !(#[trigger] s.skip(n)).contains(c) by {
        if s.skip(n).contains(c) {
            let k = choose|k: int| 0 <= k < s.skip(n).len() && s.skip(n)[k] == c;
            assert(s[n + k] == c);
        }
    }
    lemma_find_char(s, ':');
}

/// Adding a leading slash keeps out a character other than `/`.
proof fn lemma_lead_slash_no_char(s: Seq<char>, c: char)
    requires
        !s.contains(c),
        c != '/',
    ensures
        !lead_slash(s).contains(c),
        has_root(lead_slash(s)),
{
    if !has_root(s) {
        let t = seq!['/'] + s;
        if t.contains(c) {
            let k = choose|k: int| 0 <= k < t.len() && t[k] == c;
            assert(s[k - 1] == c);
        }
    }
}

/// The components written out, each after a `/`.
pub open spec fn slash_joined(cs: Seq<Seq<char>>) -> Seq<char>
    decreases cs.len(),
{
    if cs.len() == 0 {
        Seq::<char>::empty()
    } else {
        slash_joined(cs.drop_last()) + seq!['/'] + cs.last()
    }
}

/// A character absent from `s` is absent from every segment scanned from it.
proof fn lemma_scan_no_char(s: Seq<char>, c: char)
    requires
        !s.contains(c),
    ensures
        forall|k: int| 0 <= k < scan(s).0.len() ==> !(#[trigger] scan(s).0[k]).contains(c),
        !scan(s).1.contains(c),
    decreases s.len(),
{
    if s.len() > 0 {
        let f = s.drop_last();
        assert(!f.contains(c)) by {
            if f.contains(c) {
                let k = choose|k: int| 0 <= k < f.len() && f[k] == c;
                assert(s[k] == c);
            }
        }
        lemma_scan_no_char(f, c);
        let (pb, cb, sb) = scan(f);
        assert(s.last() == s[s.len() - 1]);
        if s.last() == '/' {
            let first = !sb;
            let closed = close_segment(pb, cb, first);
            assert(!Seq::<char>::empty().contains(c));
            assert forall|k: int| 0 <= k < closed.len() implies !(#[trigger] closed[k]).contains(c) by {
                if k < pb.len() {
                    assert(pb.push(cb)[k] == pb[k]);
                }
            }
        } else {
            assert(!cb.push(s.last()).contains(c)) by {
                if cb.push(s.last()).contains(c) {
                    let k = choose|k: int| 0 <= k < cb.push(s.last()).len() && cb.push(s.last())[k] == c;
                    if k < cb.len() {
                        assert(cb[k] == c);
                    }
                }
            }
        }
    }
}

/// A character absent from `s` is absent from its relative components.
proof fn lemma_relative_no_char(s: Seq<char>, c: char)
    requires
        !s.contains(c),
    ensures
        forall|k: int| 0 <= k < relative_components(s).len() ==> !(#[trigger] relative_components(s)[k]).contains(c),
{
    lemma_scan_no_char(s, c);
    let (pb, cb, sb) = scan(s);
    let first = !sb;
    let closed = close_segment(pb, cb, first);
    assert forall|k: int| 0 <= k < closed.len() implies !(#[trigger] closed[k]).contains(c) by {
        if k < pb.len() {
            assert(pb.push(cb)[k] == pb[k]);
        }
    }
}

/// Writing out segments after `/`s keeps out any other absent character.
proof fn lemma_slash_joined_no_char(cs: Seq<Seq<char>>, c: char)
    requires
        c != '/',
        forall|k: int| 0 <= k < cs.len() ==> !(#[trigger] cs[k]).contains(c),
    ensures
        !slash_joined(cs).contains(c),
    decreases cs.len(),
{
    if cs.len() > 0 {
        let f = cs.drop_last();
        assert forall|k: int| 0 <= k < f.len() implies !(#[trigger] f[k]).contains(c) by {
            assert(f[k] == cs[k]);
        }
        lemma_slash_joined_no_char(f, c);
        let a = slash_joined(f);
        let l = cs.last();
        assert(l == cs[cs.len() - 1]);
        let t = a + seq!['/'] + l;
        if t.contains(c) {
            let k = choose|k: int| 0 <= k < t.len() && t[k] == c;
            if k < a.len() {
                assert(a[k] == c);
            } else if k > a.len() {
                assert(l[k - a.len() - 1] == c);
            }
        }
    }
}

/// Pushing segments onto a path that does not end in `/` writes each out
/// after a `/`.
proof fn lemma_push_all_slash_joined(out: Seq<char>, cs: Seq<Seq<char>>)
    requires
        out.len() > 0,
        out.last() != '/',
        forall|k: int| 0 <= k < cs.len() ==> is_segment(#[trigger] cs[k]),
    ensures
        push_all(out, cs) == out + slash_joined(cs),
        push_all(out, cs).len() > 0,
        push_all(out, cs).last() != '/',
    decreases cs.len(),
{
    if cs.len() == 0 {
        assert(out + slash_joined(cs) =~= out);
    } else {
        let f = cs.drop_last();
        assert forall|k: int| 0 <= k < f.len() implies is_segment(#[trigger] f[k]) by {
            assert(f[k] == cs[k]);
        }
        lemma_push_all_slash_joined(out, f);
        let l = cs.last();
        assert(l == cs[cs.len() - 1]);
        assert(is_segment(l));
        let prev = push_all(out, f);
        assert(push_component(prev, l) == prev + seq!['/'] + l);
        assert(out + slash_joined(f) + seq!['/'] + l =~= out + (slash_joined(f) + seq!['/'] + l));
        let t = prev + seq!['/'] + l;
        assert(t.last() == l[l.len() - 1]);
        assert(l.contains(l[l.len() - 1]));
    }
}

/// Forward slashes of a concatenation whose tail has no backslash.
proof fn lemma_forward_slashes_concat(x: Seq<char>, y: Seq<char>)
    requires
        !y.contains('\\'),
    ensures
        forward_slashes(x + y) == forward_slashes(x) + y,
{
    assert forall|i: int| 0 <= i < (x + y).len() implies #[trigger] forward_slashes(x + y)[i] == (forward_slashes(x) + y)[i] by {
        if i >= x.len() {
            assert((x + y)[i] == y[i - x.len()]);
            assert(y.contains(y[i - x.len()]));
        }
    }
    assert(forward_slashes(x + y) =~= forward_slashes(x) + y);
}

/// The first colon of `d:rest`, when `d` has none, is right after `d`.
proof fn lemma_find_colon_after(d: Seq<char>, rest: Seq<char>)
    requires
        !d.contains(':'),
    ensures
        find_char(d + seq![':'] + rest, ':') == Some(d.len() as int),
{
    let x = d + seq![':'] + rest;
    lemma_find_char(x, ':');
    assert(x[d.len() as int] == ':');
    match find_char(x, ':') {
        Some(i) => {
            if i < d.len() {
                assert(x[i] == d[i]);
                assert(d.contains(d[i]));
            }
        },
        None => {},
    }
}

/// Facts about segments written out after `/`s: it starts with `/` followed
/// by the first segment, and ends with the last character of the last one.
proof fn lemma_slash_joined_shape(cs: Seq<Seq<char>>)
    requires
        cs.len() > 0,
        forall|k: int| 0 <= k < cs.len() ==> is_segment(#[trigger] cs[k]),
    ensures
        slash_joined(cs).len() > 1,
        slash_joined(cs)[0] == '/',
        slash_joined(cs)[1] == cs[0][0],
        slash_joined(cs)[1] != '/',
        slash_joined(cs).last() != '/',
    decreases cs.len(),
{
    let f = cs.drop_last();
    let l = cs.last();
    assert(l == cs[cs.len() - 1]);
    assert(is_segment(l));
    assert(l.contains(l[l.len() - 1]));
    assert(is_segment(cs[0]));
    assert(cs[0].contains(cs[0][0]));
    let sj = slash_joined(cs);
    if cs.len() == 1 {
        assert(f =~= Seq::<Seq<char>>::empty());
        assert(sj =~= seq!['/'] + l);
        assert(cs[0] == l);
    } else {
        assert forall|k: int| 0 <= k < f.len() implies is_segment(#[trigger] f[k]) by {
            assert(f[k] == cs[k]);
        }
        lemma_slash_joined_shape(f);
        assert(f[0] == cs[0]);
        assert(sj == slash_joined(f) + seq!['/'] + l);
    }
    assert(sj.last() == l[l.len() - 1]);
}

/// Pushing segments onto nothing, or onto a path ending in `/`, writes them
/// out separated by `/`, with no separator before the first.
proof fn lemma_push_all_after_sep(out: Seq<char>, cs: Seq<Seq<char>>)
    requires
        out.len() == 0 || out.last() == '/',
        cs.len() > 0,
        forall|k: int| 0 <= k < cs.len() ==> is_segment(#[trigger] cs[k]),
    ensures
        push_all(out, cs) == out + slash_joined(cs).drop_first(),
    decreases cs.len(),
{
    let f = cs.drop_last();
    let l = cs.last();
    assert(l == cs[cs.len() - 1]);
    if cs.len() == 1 {
        assert(f =~= Seq::<Seq<char>>::empty());
        assert(push_all(out, f) == out);
        assert((seq!['/'] + l).drop_first() =~= l);
        assert(slash_joined(cs) =~= seq!['/'] + l);
        assert(push_component(out, l) =~= out + l);
    } else {
        assert forall|k: int| 0 <= k < f.len() implies is_segment(#[trigger] f[k]) by {
            assert(f[k] == cs[k]);
        }
        lemma_push_all_after_sep(out, f);
        lemma_slash_joined_shape(f);
        let sf = slash_joined(f);
        let prev = push_all(out, f);
        assert(prev == out + sf.drop_first());
        assert(prev.last() == sf.last());
        assert(push_component(prev, l) == prev + seq!['/'] + l);
        assert((sf + seq!['/'] + l).drop_first() =~= sf.drop_first() + seq!['/'] + l);
        assert(out + sf.drop_first() + seq!['/'] + l =~= out + (sf.drop_first() + seq!['/'] + l));
    }
}

/// Law: the text of a forced join. It is the base itself when the item has no
/// non-root component. Otherwise it is the base followed by the item's
/// components, each after one `/`, except that no `/` is added before the
/// first when the base is empty or already ends in `/`. The result then never
/// ends in `/`.
pub proof fn law_join_force_text(base: Seq<char>, p: Seq<char>)
    ensures
        spec_join_force(base, p) == if relative_components(p).len() == 0 {
            base
        } else if base.len() > 0 && base.last() != '/' {
            base + slash_joined(relative_components(p))
        } else {
            base + slash_joined(relative_components(p)).drop_first()
        },
        relative_components(p).len() > 0 ==> spec_join_force(base, p).len() > 0
            && spec_join_force(base, p).last() != '/',
{
    let cs = relative_components(p);
    lemma_relative_components_are_segments(p);
    if cs.len() > 0 {
        lemma_slash_joined_shape(cs);
        let sj = slash_joined(cs);
        if base.len() > 0 && base.last() != '/' {
            lemma_push_all_slash_joined(base, cs);
            assert((base + sj).last() == sj.last());
        } else {
            lemma_push_all_after_sep(base, cs);
            assert((base + sj.drop_first()).last() == sj.last());
        }
    }
}

/// Law: under a drive-qualified root `d:r` (no colon in `d` or `r`, `r`
/// starting with a separator), the path reported for a joined item with no
/// `.` component and no colon or backslash is `/` followed by the item's
/// components separated by `/`, or `/` alone when it has none; this holds
/// whether or not the root ends in a separator.
pub proof fn law_fix_path_of_join_under_drive_root(d: Seq<char>, r: Seq<char>, item: Seq<char>)
    requires
        d.len() > 0,
        !d.contains(':'),
        !d.contains('/'),
        !d.contains('\\'),
        r.len() > 0,
        r[0] == '/' || r[0] == '\\',
        !r.contains(':'),
        !item.contains(':'),
        !item.contains('\\'),
        forall|k: int| 0 <= k < relative_components(item).len() ==> #[trigger] relative_components(item)[k] != seq!['.'],
    ensures
        spec_fix_path(spec_join_force(d + seq![':'] + r, item), d + seq![':'] + r) == if relative_components(item).len() == 0 {
            seq!['/']
        } else {
            slash_joined(relative_components(item))
        },
{
    let root = d + seq![':'] + r;
    let cs = relative_components(item);
    lemma_relative_components_are_segments(item);
    assert(root.last() == r.last());
    let sj = slash_joined(cs);
    lemma_relative_no_char(item, ':');
    lemma_relative_no_char(item, '\\');
    lemma_slash_joined_no_char(cs, ':');
    lemma_slash_joined_no_char(cs, '\\');
    law_join_force_text(root, item);
    let t = if cs.len() == 0 {
        Seq::<char>::empty()
    } else if root.last() != '/' {
        sj
    } else {
        sj.drop_first()
    };
    let j = spec_join_force(root, item);
    assert(j =~= root + t);
    assert(!t.contains(':') && !t.contains('\\')) by {
        if cs.len() > 0 && root.last() == '/' {
            if t.contains(':') {
                let k = choose|k: int| 0 <= k < t.len() && t[k] == ':';
                assert(sj[k + 1] == ':');
                assert(sj.contains(sj[k + 1]));
            }
            if t.contains('\\') {
                let k = choose|k: int| 0 <= k < t.len() && t[k] == '\\';
                assert(sj[k + 1] == '\\');
                assert(sj.contains(sj[k + 1]));
            }
        }
    }
    let rp = forward_slashes(r);
    lemma_forward_slashes_concat(root, t);
    assert(forward_slashes(d) =~= d) by {
        assert forall|i: int| 0 <= i < d.len() implies d[i] != '\\' by {
            assert(d.contains(d[i]));
        }
    }
    assert(forward_slashes(root) =~= d + seq![':'] + rp);
    assert(!rp.contains(':')) by {
        if rp.contains(':') {
            let k = choose|k: int| 0 <= k < rp.len() && rp[k] == ':';
            assert(r.contains(r[k]));
        }
    }
    assert(rp[0] == '/');
    let x = d + seq![':'] + (rp + t);
    assert(forward_slashes(j) =~= x);
    lemma_find_colon_after(d, rp + t);
    lemma_find_colon_after(d, rp);
    assert(x.skip(d.len() as int + 1) =~= rp + t);
    let q = forward_slashes(root);
    assert(q.skip(d.len() as int + 1) =~= rp);
    let p0 = rp + t;
    assert(has_root(p0));
    assert(rp.is_prefix_of(p0)) by {
        assert(rp =~= p0.subrange(0, rp.len() as int));
    }
    assert(p0.skip(rp.len() as int) =~= t);
    if cs.len() == 0 {
        assert(lead_slash(t) =~= seq!['/']);
    } else {
        lemma_slash_joined_shape(cs);
        if root.last() != '/' {
            assert(lead_slash(t) == sj);
        } else {
            assert(t[0] == sj[1]);
            assert(!has_root(t));
            assert(seq!['/'] + t =~= sj);
            assert(lead_slash(t) == sj);
        }
    }
}

proof fn lemma_slash_joined_first(cs: Seq<Seq<char>>)
    requires
        cs.len() > 0,
    ensures
        slash_joined(cs).len() > 0,
        slash_joined(cs)[0] == '/',
    decreases cs.len(),
{
    if cs.len() > 1 {
        lemma_slash_joined_first(cs.drop_last());
    } else {
        assert(slash_joined(cs.drop_last()) =~= Seq::<char>::empty());
    }
}

} // verus!
