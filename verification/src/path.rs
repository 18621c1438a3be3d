//! A model of Unix path syntax: how a path text splits into components, and
//! the relations (`starts_with`, equality, safety) that authorization uses.
//!
//! A path's components are a marker for the root (`/`) or for a leading
//! `./`, followed by its `/`-separated segments with empty segments and `.`
//! segments dropped; `..` is kept as a segment of its own.

use vstd::prelude::*;
use crate::text::{chars_eq, chars_of, copy_chars, copy_str, push_chars, string_of, views_of};

verus! {

/// Whether the path text starts at the filesystem root.
pub open spec fn is_absolute(s: Seq<char>) -> bool {
    s.len() > 0 && s[0] == '/'
}

/// Whether a segment stands as a component: empty and `.` segments do not.
pub open spec fn keeps_segment(seg: Seq<char>) -> bool {
    seg.len() > 0 && seg != seq!['.']
}

/// Adds the segment under construction to the finished ones, if it stands.
pub open spec fn close_segment(done: Seq<Seq<char>>, cur: Seq<char>) -> Seq<Seq<char>> {
    if keeps_segment(cur) {
        done.push(cur)
    } else {
        done
    }
}

/// The finished segments and the segment under construction after reading
/// the first `n` characters of `s`.
pub open spec fn scan_segments(s: Seq<char>, n: nat) -> (Seq<Seq<char>>, Seq<char>)
    decreases n,
{
    if n == 0 || n > s.len() {
        (seq![], seq![])
    } else {
        let prev = scan_segments(s, (n - 1) as nat);
        if s[n - 1] == '/' {
            (close_segment(prev.0, prev.1), seq![])
        } else {
            (prev.0, prev.1.push(s[n - 1]))
        }
    }
}

/// The normal and parent (`..`) segments of a path, in order.
pub open spec fn segments(s: Seq<char>) -> Seq<Seq<char>> {
    let r = scan_segments(s, s.len());
    close_segment(r.0, r.1)
}

/// The component that marks the root.
pub open spec fn root_marker() -> Seq<char> {
    seq!['/']
}

/// The component that marks a leading `.` of a relative path.
pub open spec fn cur_dir_marker() -> Seq<char> {
    seq!['.']
}

/// The parent-directory segment `..`.
pub open spec fn parent_segment() -> Seq<char> {
    seq!['.', '.']
}

/// Whether a relative path starts with a `.` component (`.` or `./...`).
pub open spec fn leading_cur_dir(s: Seq<char>) -> bool {
    !is_absolute(s) && s.len() > 0 && s[0] == '.' && (s.len() == 1 || s[1] == '/')
}

/// The components of a path, in order.
pub open spec fn components(s: Seq<char>) -> Seq<Seq<char>> {
    if is_absolute(s) {
        seq![root_marker()] + segments(s)
    } else if leading_cur_dir(s) {
        seq![cur_dir_marker()] + segments(s)
    } else {
        segments(s)
    }
}

/// Whether `a` is an initial part of `b`.
pub open spec fn is_prefix<A>(a: Seq<A>, b: Seq<A>) -> bool {
    a.len() <= b.len() && b.subrange(0, a.len() as int) == a
}

/// Whether `path` lies at or below `base`: the components of `base` are an
/// initial part of those of `path`.
pub open spec fn starts_with(path: Seq<char>, base: Seq<char>) -> bool {
    is_prefix(components(base), components(path))
}

/// Whether two path texts name the same path (they have the same components).
#[verifier::opaque]
pub open spec fn same_path(a: Seq<char>, b: Seq<char>) -> bool {
    components(a) == components(b)
}

/// Whether a path is absolute and has no `..` component (a `.` segment of an
/// absolute path is dropped, so it cannot stand as a component).
pub open spec fn is_safe_absolute(s: Seq<char>) -> bool {
    is_absolute(s) && !segments(s).contains(parent_segment())
}

/// The text of `base` with the segment `seg` appended: a `/` is put between
/// them unless `base` already ends with one.
pub open spec fn pushed(base: Seq<char>, seg: Seq<char>) -> Seq<char> {
    if base.len() > 0 && base.last() == '/' {
        base + seg
    } else {
        base + seq!['/'] + seg
    }
}

/// The text of the absolute path with the given segments: `/`, then each
/// segment appended in turn.
pub open spec fn join_absolute(segs: Seq<Seq<char>>) -> Seq<char>
    decreases segs.len(),
{
    if segs.len() == 0 {
        seq!['/']
    } else {
        pushed(join_absolute(segs.drop_last()), segs.last())
    }
}

/// Whether `a` is a final part of `b`.
pub open spec fn is_suffix<A>(a: Seq<A>, b: Seq<A>) -> bool {
    a.len() <= b.len() && b.subrange(b.len() - a.len(), b.len() as int) == a
}

/// Every path names the same path as itself.
pub proof fn lemma_same_path_reflexive_all()
    ensures
        forall|a: Seq<char>| #[trigger] same_path(a, a),
{
    reveal(same_path);
}

/// Whether `q` is a possible filesystem resolution of the safe absolute path
/// `path`: a safe absolute path that ends with the segments of `path` that
/// follow some ancestor of it (the ancestor itself may have been replaced by
/// its canonical form). The ancestor may be the whole path, and its
/// canonical form is whatever the filesystem's symbolic links make it, so
/// without the filesystem's answers every safe absolute path is a possible
/// resolution; [`probed_resolution`] gives the resolution for given answers.
#[verifier::opaque]
pub open spec fn resolution_of(path: Seq<char>, q: Seq<char>) -> bool {
    &&& is_safe_absolute(q)
    &&& exists|k: int|
        0 <= k <= segments(path).len() && is_suffix(
            segments(path).subrange(k, segments(path).len() as int),
            segments(q),
        )
}

/// The text of `base` with each of `segs` appended in turn.
pub open spec fn pushed_all(base: Seq<char>, segs: Seq<Seq<char>>) -> Seq<char>
    decreases segs.len(),
{
    if segs.len() == 0 {
        base
    } else {
        pushed(pushed_all(base, segs.drop_last()), segs.last())
    }
}

/// The resolution of `path` whose first `k` segments name the ancestor
/// found on the filesystem, with `canonical` the canonical form the
/// filesystem gave for it (if any): that form, or else the ancestor rebuilt
/// from its segments, with the rest of the segments appended.
pub open spec fn resolved_text(path: Seq<char>, k: nat, canonical: Option<Seq<char>>) -> Seq<char> {
    let segs = segments(path);
    let base = match canonical {
        Some(c) => c,
        None => join_absolute(segs.subrange(0, k as int)),
    };
    pushed_all(base, segs.subrange(k as int, segs.len() as int))
}

/// Whether a segment can stand as a normal component: it is not empty, is
/// not `.` or `..`, and holds no `/`.
pub open spec fn is_plain_segment(seg: Seq<char>) -> bool {
    keeps_segment(seg) && seg != parent_segment() && !seg.contains('/')
}

/// Reading more characters does not change what was read before.
proof fn lemma_scan_prefix(s: Seq<char>, t: Seq<char>, n: nat)
    requires
        n <= s.len(),
    ensures
        scan_segments(s + t, n) == scan_segments(s, n),
    decreases n,
{
    if n > 0 {
        lemma_scan_prefix(s, t, (n - 1) as nat);
        assert((s + t)[n - 1] == s[n - 1]);
    }
}

/// Reading `t` after a text whose segment under construction is empty adds
/// exactly what reading `t` alone finds.
proof fn lemma_scan_append(s: Seq<char>, t: Seq<char>, m: nat)
    requires
        m <= t.len(),
        scan_segments(s, s.len()).1 == Seq::<char>::empty(),
    ensures
        scan_segments(s + t, s.len() + m) == (
            scan_segments(s, s.len()).0 + scan_segments(t, m).0,
            scan_segments(t, m).1,
        ),
    decreases m,
{
    let d = scan_segments(s, s.len()).0;
    if m == 0 {
        lemma_scan_prefix(s, t, s.len());
        assert(d + Seq::<Seq<char>>::empty() =~= d);
    } else {
        lemma_scan_append(s, t, (m - 1) as nat);
        assert((s + t)[s.len() + m - 1] == t[m - 1]);
        let prev = scan_segments(t, (m - 1) as nat);
        if t[m - 1] == '/' {
            if keeps_segment(prev.1) {
                assert((d + prev.0).push(prev.1) =~= d + prev.0.push(prev.1));
            }
        }
    }
}

/// A text without `/` is read as one segment under construction.
proof fn lemma_scan_no_sep(s: Seq<char>, n: nat)
    requires
        n <= s.len(),
        !s.contains('/'),
    ensures
        scan_segments(s, n) == (Seq::<Seq<char>>::empty(), s.subrange(0, n as int)),
    decreases n,
{
    if n > 0 {
        lemma_scan_no_sep(s, (n - 1) as nat);
        assert(s[n - 1] != '/') by {
            if s[n - 1] == '/' {
                assert(s.contains('/'));
            }
        }
        assert(s.subrange(0, n - 1).push(s[n - 1]) =~= s.subrange(0, n as int));
    }
}

/// Appending a plain segment to an absolute path text adds exactly that
/// segment.
pub proof fn lemma_pushed_segments(base: Seq<char>, seg: Seq<char>)
    requires
        is_absolute(base),
        is_plain_segment(seg),
    ensures
        segments(pushed(base, seg)) == segments(base).push(seg),
        is_absolute(pushed(base, seg)),
{
    lemma_scan_no_sep(seg, seg.len());
    assert(seg.subrange(0, seg.len() as int) =~= seg);
    let s = if base.last() == '/' {
        base
    } else {
        base + seq!['/']
    };
    assert(segments(s) == segments(base) && scan_segments(s, s.len()).1 == Seq::<char>::empty()) by {
        if base.last() != '/' {
            lemma_scan_prefix(base, seq!['/'], base.len());
            assert((base + seq!['/'])[base.len() as int] == '/');
        } else {
            let prev = scan_segments(base, (base.len() - 1) as nat);
            assert(base[base.len() - 1] == '/');
            assert(close_segment(scan_segments(base, base.len()).0, seq![]) == scan_segments(
                base,
                base.len(),
            ).0);
        }
    }
    lemma_scan_append(s, seg, seg.len());
    assert(pushed(base, seg) =~= s + seg);
    assert(scan_segments(s, s.len()).0 == segments(s)) by {
        assert(close_segment(scan_segments(s, s.len()).0, Seq::<char>::empty()) == scan_segments(
            s,
            s.len(),
        ).0);
    }
    assert((segments(base) + Seq::<Seq<char>>::empty()).push(seg) =~= segments(base).push(seg));
    assert((pushed(base, seg))[0] == base[0]);
}

/// The segments of a joined path are the segments it was joined from.
pub proof fn lemma_join_segments(segs: Seq<Seq<char>>)
    requires
        forall|i: int| 0 <= i < segs.len() ==> is_plain_segment(#[trigger] segs[i]),
    ensures
        segments(join_absolute(segs)) == segs,
        is_absolute(join_absolute(segs)),
    decreases segs.len(),
{
    if segs.len() == 0 {
        assert(segments(seq!['/']) =~= Seq::<Seq<char>>::empty()) by {
            let s = seq!['/'];
            assert(s[0] == '/');
            assert(scan_segments(s, 0) == (Seq::<Seq<char>>::empty(), Seq::<char>::empty()));
            assert(scan_segments(s, 1) == (Seq::<Seq<char>>::empty(), Seq::<char>::empty()));
        }
    } else {
        lemma_join_segments(segs.drop_last());
        lemma_pushed_segments(join_absolute(segs.drop_last()), segs.last());
        assert(segs.drop_last().push(segs.last()) =~= segs);
    }
}

fn segment_stands(cur: &Vec<char>) -> (r: bool)
    ensures
        r == keeps_segment(cur@),
{
    if cur.len() == 0 {
        false
    } else if cur.len() == 1 && cur[0] == '.' {
        assert(cur@ =~= seq!['.']);
        false
    } else {
        assert(cur@ != seq!['.']) by {
            if cur@ == seq!['.'] {
                assert(cur@.len() == 1);
            }
        }
        true
    }
}

/// The segments of a path text (see [`segments`]).
pub fn path_segments(s: &str) -> (r: Vec<Vec<char>>)
    ensures
        views_of(r@) == segments(s@),
{
    let cs = chars_of(s);
    let mut done: Vec<Vec<char>> = Vec::new();
    let mut cur: Vec<char> = Vec::new();
    let mut i: usize = 0;
    while i < cs.len()
        invariant
            i <= cs@.len(),
            cs@ == s@,
            (views_of(done@), cur@) == scan_segments(cs@, i as nat),
        decreases cs@.len() - i,
    {
        let c = cs[i];
        if c == '/' {
            if segment_stands(&cur) {
                let ghost before = views_of(done@);
                let finished = cur;
                done.push(finished);
                assert(views_of(done@) =~= before.push(finished@));
            }
            cur = Vec::new();
        } else {
            cur.push(c);
        }
        i = i + 1;
    }
    if segment_stands(&cur) {
        let ghost before = views_of(done@);
        let finished = cur;
        done.push(finished);
        assert(views_of(done@) =~= before.push(finished@));
    }
    done
}

/// Whether the path text starts at the filesystem root.
pub fn path_is_absolute(s: &str) -> (r: bool)
    ensures
        r == is_absolute(s@),
{
    let cs = chars_of(s);
    cs.len() > 0 && cs[0] == '/'
}

/// The components of a path text (see [`components`]).
pub fn path_components(s: &str) -> (r: Vec<Vec<char>>)
    ensures
        views_of(r@) == components(s@),
{
    let cs = chars_of(s);
    let segs = path_segments(s);
    let mut r: Vec<Vec<char>> = Vec::new();
    if cs.len() > 0 && cs[0] == '/' {
        let mut m: Vec<char> = Vec::new();
        m.push('/');
        r.push(m);
    } else if cs.len() > 0 && cs[0] == '.' && (cs.len() == 1 || cs[1] == '/') {
        let mut m: Vec<char> = Vec::new();
        m.push('.');
        r.push(m);
    }
    let ghost head = views_of(r@);
    assert(head =~= seq![root_marker()] || head =~= seq![cur_dir_marker()] || head =~= seq![]);
    let mut i: usize = 0;
    while i < segs.len()
        invariant
            i <= segs@.len(),
            views_of(r@) == head + views_of(segs@).subrange(0, i as int),
        decreases segs@.len() - i,
    {
        let ghost before = views_of(r@);
        let piece = copy_chars(&segs[i]);
        r.push(piece);
        assert(views_of(r@) =~= before.push(piece@));
        assert(views_of(segs@).subrange(0, i + 1) =~= views_of(segs@).subrange(0, i as int).push(
            segs@[i as int]@,
        ));
        i = i + 1;
        assert(views_of(r@) =~= head + views_of(segs@).subrange(0, i as int));
    }
    assert(views_of(segs@).subrange(0, segs@.len() as int) =~= views_of(segs@));
    proof {
        if is_absolute(s@) {
            assert(head =~= seq![root_marker()]);
        } else if leading_cur_dir(s@) {
            assert(head =~= seq![cur_dir_marker()]);
        } else {
            assert(head =~= seq![]);
        }
    }
    r
}

/// Every segment that reading produces stands and holds no `/`.
proof fn lemma_scan_segments_plain(s: Seq<char>, n: nat)
    ensures
        forall|i: int|
            0 <= i < scan_segments(s, n).0.len() ==> keeps_segment(
                #[trigger] scan_segments(s, n).0[i],
            ) && !scan_segments(s, n).0[i].contains('/'),
        !scan_segments(s, n).1.contains('/'),
    decreases n,
{
    if n > 0 && n <= s.len() {
        lemma_scan_segments_plain(s, (n - 1) as nat);
        let prev = scan_segments(s, (n - 1) as nat);
        if s[n - 1] != '/' {
            let grown = prev.1.push(s[n - 1]);
            assert forall|j: int| 0 <= j < grown.len() implies #[trigger] grown[j] != '/' by {
                if j < prev.1.len() {
                    assert(grown[j] == prev.1[j]);
                    assert(prev.1[j] != '/') by {
                        if prev.1[j] == '/' {
                            assert(prev.1.contains('/'));
                        }
                    }
                }
            }
        }
    }
}

/// No segment holds a `/`.
pub proof fn lemma_segments_have_no_separator(s: Seq<char>)
    ensures
        forall|i: int| 0 <= i < segments(s).len() ==> !(#[trigger] segments(s)[i]).contains('/'),
{
    lemma_scan_segments_plain(s, s.len());
    let r = scan_segments(s, s.len());
    assert forall|i: int| 0 <= i < segments(s).len() implies !(#[trigger] segments(s)[i]).contains(
        '/',
    ) by {
        if i < r.0.len() {
            assert(segments(s)[i] == r.0[i]);
        }
    }
}

/// The segments of a safe absolute path are plain.
pub proof fn lemma_safe_segments_plain(s: Seq<char>)
    requires
        is_safe_absolute(s),
    ensures
        forall|i: int| 0 <= i < segments(s).len() ==> is_plain_segment(#[trigger] segments(s)[i]),
{
    lemma_scan_segments_plain(s, s.len());
    let r = scan_segments(s, s.len());
    assert forall|i: int| 0 <= i < segments(s).len() implies is_plain_segment(
        #[trigger] segments(s)[i],
    ) by {
        assert(segments(s).contains(segments(s)[i]));
        if i < r.0.len() {
            assert(segments(s)[i] == r.0[i]);
        }
    }
}

/// Starting at a common root is transitive.
pub proof fn lemma_starts_with_trans(a: Seq<char>, b: Seq<char>, c: Seq<char>)
    requires
        starts_with(a, b),
        starts_with(b, c),
    ensures
        starts_with(a, c),
{
    let ca = components(a);
    let cb = components(b);
    let cc = components(c);
    assert(ca.subrange(0, cc.len() as int) =~= cb.subrange(0, cc.len() as int));
}

fn is_parent_segment(seg: &Vec<char>) -> (r: bool)
    ensures
        r == (seg@ == parent_segment()),
{
    if seg.len() == 2 && seg[0] == '.' && seg[1] == '.' {
        assert(seg@ =~= parent_segment());
        true
    } else {
        proof {
            if seg@ == parent_segment() {
                assert(seg@.len() == 2);
            }
        }
        false
    }
}

/// Whether the path is absolute and has no `..` component.
pub fn path_is_safe_absolute(s: &str) -> (r: bool)
    ensures
        r == is_safe_absolute(s@),
{
    if !path_is_absolute(s) {
        return false;
    }
    let segs = path_segments(s);
    let mut i: usize = 0;
    while i < segs.len()
        invariant
            i <= segs@.len(),
            views_of(segs@) == segments(s@),
            forall|j: int| 0 <= j < i ==> views_of(segs@)[j] != parent_segment(),
        decreases segs@.len() - i,
    {
        if is_parent_segment(&segs[i]) {
            assert(segments(s@)[i as int] == parent_segment());
            assert(segments(s@).contains(parent_segment()));
            return false;
        }
        i = i + 1;
    }
    assert(!segments(s@).contains(parent_segment())) by {
        if segments(s@).contains(parent_segment()) {
            let j = choose|j: int| 0 <= j < segments(s@).len() && segments(s@)[j] == parent_segment();
            assert(views_of(segs@)[j] != parent_segment());
        }
    }
    true
}

/// Whether the components `a` are an initial part of the components `b`.
fn components_prefix(a: &Vec<Vec<char>>, b: &Vec<Vec<char>>) -> (r: bool)
    ensures
        r == is_prefix(views_of(a@), views_of(b@)),
{
    if a.len() > b.len() {
        return false;
    }
    let mut i: usize = 0;
    while i < a.len()
        invariant
            i <= a@.len(),
            a@.len() <= b@.len(),
            forall|j: int| 0 <= j < i ==> views_of(a@)[j] == views_of(b@)[j],
        decreases a@.len() - i,
    {
        if !chars_eq(&a[i], &b[i]) {
            assert(views_of(b@).subrange(0, a@.len() as int)[i as int] != views_of(a@)[i as int]);
            return false;
        }
        i = i + 1;
    }
    assert(views_of(b@).subrange(0, a@.len() as int) =~= views_of(a@));
    true
}

/// Whether `path` lies at or below `base` (see [`starts_with`]).
pub fn path_starts_with(path: &str, base: &str) -> (r: bool)
    ensures
        r == starts_with(path@, base@),
{
    let cp = path_components(path);
    let cb = path_components(base);
    components_prefix(&cb, &cp)
}

/// Whether two path texts name the same path (see [`same_path`]).
pub fn paths_equal(a: &str, b: &str) -> (r: bool)
    ensures
        r == same_path(a@, b@),
{
    proof {
        reveal(same_path);
    }
    let ca = path_components(a);
    let cb = path_components(b);
    if ca.len() != cb.len() {
        return false;
    }
    let r = components_prefix(&ca, &cb);
    proof {
        if r {
            assert(views_of(cb@).subrange(0, views_of(ca@).len() as int) =~= views_of(cb@));
        } else {
            assert(views_of(cb@).subrange(0, views_of(ca@).len() as int) =~= views_of(cb@));
        }
    }
    r
}

/// Appends the segment `seg` to the path text `base` (see [`pushed`]).
fn push_segment(base: &mut Vec<char>, seg: &Vec<char>)
    ensures
        final(base)@ == pushed(old(base)@, seg@),
{
    if base.len() > 0 && base[base.len() - 1] == '/' {
    } else {
        base.push('/');
    }
    push_chars(base, seg);
}

/// The text of the absolute path made of the first `k` segments.
fn join_prefix(segs: &Vec<Vec<char>>, k: usize) -> (r: Vec<char>)
    requires
        k <= segs@.len(),
    ensures
        r@ == join_absolute(views_of(segs@).subrange(0, k as int)),
{
    let mut r: Vec<char> = Vec::new();
    r.push('/');
    let mut i: usize = 0;
    assert(r@ =~= seq!['/']);
    while i < k
        invariant
            i <= k <= segs@.len(),
            r@ == join_absolute(views_of(segs@).subrange(0, i as int)),
        decreases k - i,
    {
        push_segment(&mut r, &segs[i]);
        i = i + 1;
        assert(views_of(segs@).subrange(0, i as int).drop_last() =~= views_of(segs@).subrange(
            0,
            (i - 1) as int,
        ));
    }
    r
}

/// `std::path::Path::exists`: whether something exists on the filesystem at
/// `path` (following symbolic links). The answer depends on the filesystem
/// at the time of the call, so nothing is promised of it.
#[verifier::external_body]
fn filesystem_has(path: &str) -> bool {
    std::path::Path::new(path).exists()
}

/// `std::path::Path::canonicalize`: the canonical absolute form of `path`,
/// with symbolic links resolved, or `None` where the filesystem refuses it.
/// Its documentation promises an absolute path whose intermediate components
/// are normalized; the result is stated only to be such a path.
#[verifier::external_body]
fn canonical_form(path: &str) -> (r: Option<String>)
    ensures
        r matches Some(t) ==> is_safe_absolute(t@),
{
    std::path::Path::new(path).canonicalize().ok().map(|p| p.to_string_lossy().into_owned())
}

/// Appends the segments `segs[from..]` to `base`.
fn push_segments_from(base: &mut Vec<char>, segs: &Vec<Vec<char>>, from: usize)
    requires
        from <= segs@.len(),
        is_safe_absolute(old(base)@),
        forall|i: int| 0 <= i < segs@.len() ==> is_plain_segment(#[trigger] views_of(segs@)[i]),
    ensures
        is_safe_absolute(final(base)@),
        segments(final(base)@) == segments(old(base)@) + views_of(segs@).subrange(
            from as int,
            segs@.len() as int,
        ),
        final(base)@ == pushed_all(old(base)@, views_of(segs@).subrange(from as int, segs@.len() as int)),
{
    let mut i = from;
    while i < segs.len()
        invariant
            from <= i <= segs@.len(),
            is_safe_absolute(base@),
            base@ == pushed_all(old(base)@, views_of(segs@).subrange(from as int, i as int)),
            forall|j: int| 0 <= j < segs@.len() ==> is_plain_segment(#[trigger] views_of(segs@)[j]),
            segments(base@) == segments(old(base)@) + views_of(segs@).subrange(from as int, i as int),
        decreases segs@.len() - i,
    {
        let ghost before = base@;
        assert(is_plain_segment(views_of(segs@)[i as int]));
        push_segment(base, &segs[i]);
        proof {
            lemma_pushed_segments(before, segs@[i as int]@);
            assert(views_of(segs@).subrange(from as int, i + 1) =~= views_of(segs@).subrange(
                from as int,
                i as int,
            ).push(segs@[i as int]@));
            assert(views_of(segs@).subrange(from as int, i + 1).drop_last() =~= views_of(segs@).subrange(
                from as int,
                i as int,
            ));
            assert(!segments(base@).contains(parent_segment())) by {
                if segments(base@).contains(parent_segment()) {
                    let j = choose|j: int|
                        0 <= j < segments(base@).len() && segments(base@)[j] == parent_segment();
                    if j < segments(before).len() {
                        assert(segments(before).contains(parent_segment()));
                    }
                }
            }
        }
        i = i + 1;
    }
}

/// The resolution of `path` with its first `k` segments standing for the
/// ancestor found on the filesystem and `canonical` the canonical form the
/// filesystem gave for it (see [`resolved_text`]).
pub fn resolve_at(path: &str, k: usize, canonical: Option<String>) -> (r: String)
    requires
        is_safe_absolute(path@),
        k <= segments(path@).len(),
        canonical matches Some(c) ==> is_safe_absolute(c@),
    ensures
        r@ == resolved_text(path@, k as nat, crate::agent::opt_text(canonical)),
        resolution_of(path@, r@),
{
    let segs = path_segments(path);
    let n = segs.len();
    proof {
        lemma_safe_segments_plain(path@);
    }
    let ghost sub = views_of(segs@).subrange(0, k as int);
    let mut resolved: Vec<char> = match canonical {
        Some(c) => chars_of(c.as_str()),
        None => {
            let written = join_prefix(&segs, k);
            proof {
                lemma_join_segments(sub);
                assert(!segments(written@).contains(parent_segment())) by {
                    if segments(written@).contains(parent_segment()) {
                        let j = choose|j: int|
                            0 <= j < segments(written@).len() && segments(written@)[j] == parent_segment();
                        assert(sub[j] == views_of(segs@)[j]);
                    }
                }
            }
            written
        },
    };
    push_segments_from(&mut resolved, &segs, k);
    proof {
        reveal(resolution_of);
        let tail = views_of(segs@).subrange(k as int, n as int);
        assert(segments(resolved@).subrange(
            segments(resolved@).len() - tail.len(),
            segments(resolved@).len() as int,
        ) =~= tail);
    }
    string_of(&resolved)
}

/// The number of segments of the longest ancestor that exists, where
/// `answers[j]` says whether the ancestor made of the first `j` segments
/// exists (`answers[n]` for the path itself); none where none does.
pub open spec fn longest_existing_spec(answers: Seq<bool>) -> Option<int> {
    if exists|j: int| 0 <= j < answers.len() && #[trigger] answers[j] {
        Some(choose|j: int| 0 <= j < answers.len() && #[trigger] answers[j] && forall|i: int| j < i < answers.len() ==> !answers[i])
    } else {
        None
    }
}

/// The number of segments of the longest ancestor that exists, where
/// `answers[j]` says whether the ancestor made of the first `j` segments
/// exists; none where none does.
pub fn longest_existing(answers: &Vec<bool>) -> (r: Option<usize>)
    ensures
        r matches Some(k) ==> k < answers@.len() && answers@[k as int] && forall|j: int|
            k < j < answers@.len() ==> !#[trigger] answers@[j],
        r is None ==> forall|j: int| 0 <= j < answers@.len() ==> !#[trigger] answers@[j],
{
    let mut i = answers.len();
    while i > 0
        invariant
            i <= answers@.len(),
            forall|j: int| i <= j < answers@.len() ==> !#[trigger] answers@[j],
        decreases i,
    {
        if answers[i - 1] {
            return Some(i - 1);
        }
        i = i - 1;
    }
    None
}

/// The resolution of `path` given the filesystem's answers: `answers[j]`
/// whether the ancestor made of the first `j` segments exists, and
/// `canonical` the canonical form it gave for the longest one that does
/// (see [`resolved_text`]); the path rebuilt from its segments where none
/// exists.
pub open spec fn probed_resolution(path: Seq<char>, answers: Seq<bool>, canonical: Option<Seq<char>>) -> Seq<char> {
    match longest_existing_spec(answers) {
        Some(k) => resolved_text(path, k as nat, canonical),
        None => resolved_text(path, segments(path).len(), None),
    }
}

/// Appending plain segments to an absolute path text adds exactly those
/// segments.
proof fn lemma_pushed_all_segments(base: Seq<char>, segs: Seq<Seq<char>>)
    requires
        is_absolute(base),
        forall|i: int| 0 <= i < segs.len() ==> is_plain_segment(#[trigger] segs[i]),
    ensures
        segments(pushed_all(base, segs)) == segments(base) + segs,
        is_absolute(pushed_all(base, segs)),
    decreases segs.len(),
{
    if segs.len() > 0 {
        lemma_pushed_all_segments(base, segs.drop_last());
        lemma_pushed_segments(pushed_all(base, segs.drop_last()), segs.last());
        assert((segments(base) + segs.drop_last()).push(segs.last()) =~= segments(base) + segs);
    }
}

/// A resolution is rooted where the filesystem says: where the ancestor
/// made of the first `k` segments of `path` is the longest that exists
/// and the filesystem gave `canonical` as its canonical form, the
/// resolution lies below `canonical`, its components being those of
/// `canonical` followed by the segments of `path` after the ancestor. So a
/// path that passes through a link is checked where the link leads, not
/// where it is written.
pub proof fn lemma_resolution_below_canonical(path: Seq<char>, answers: Seq<bool>, canonical: Seq<char>, k: int)
    requires
        is_safe_absolute(path),
        is_safe_absolute(canonical),
        answers.len() == segments(path).len() + 1,
        0 <= k < answers.len(),
        answers[k],
        forall|j: int| k < j < answers.len() ==> !#[trigger] answers[j],
    ensures
        components(probed_resolution(path, answers, Some(canonical))) == components(canonical) + segments(
            path,
        ).subrange(k, segments(path).len() as int),
        starts_with(probed_resolution(path, answers, Some(canonical)), canonical),
{
    lemma_longest_existing_unique(answers, k);
    let segs = segments(path);
    let rest = segs.subrange(k, segs.len() as int);
    lemma_safe_segments_plain(path);
    assert forall|i: int| 0 <= i < rest.len() implies is_plain_segment(#[trigger] rest[i]) by {
        assert(rest[i] == segs[k + i]);
    }
    lemma_pushed_all_segments(canonical, rest);
    let r = probed_resolution(path, answers, Some(canonical));
    assert(r == pushed_all(canonical, rest));
    assert(components(r) =~= components(canonical) + rest);
    assert(components(r).subrange(0, components(canonical).len() as int) =~= components(canonical));
}

/// The ancestor that [`longest_existing`] finds is the longest that exists.
proof fn lemma_longest_existing_unique(answers: Seq<bool>, k: int)
    requires
        0 <= k < answers.len(),
        answers[k],
        forall|j: int| k < j < answers.len() ==> !#[trigger] answers[j],
    ensures
        longest_existing_spec(answers) == Some(k),
{
    let c = choose|j: int| 0 <= j < answers.len() && #[trigger] answers[j] && forall|i: int| j < i < answers.len() ==> !answers[i];
    assert(answers[k]);
    if c < k {
        assert(!answers[k]);
    } else if c > k {
        assert(!answers[c]);
    }
}

/// The resolution of `path` given the filesystem's answers (see
/// [`probed_resolution`]).
pub fn resolution_given(path: &str, answers: &Vec<bool>, canonical: Option<String>) -> (r: String)
    requires
        is_safe_absolute(path@),
        answers@.len() == segments(path@).len() + 1,
        canonical matches Some(c) ==> is_safe_absolute(c@),
    ensures
        r@ == probed_resolution(path@, answers@, crate::agent::opt_text(canonical)),
        resolution_of(path@, r@),
{
    let n = answers.len() - 1;
    match longest_existing(answers) {
        Some(k) => {
            proof {
                lemma_longest_existing_unique(answers@, k as int);
            }
            resolve_at(path, k, canonical)
        },
        None => {
            assert(longest_existing_spec(answers@) is None);
            resolve_at(path, n, None)
        },
    }
}

/// Resolves a safe absolute path against the filesystem: the path itself
/// and then each shorter ancestor is asked whether it exists, and the
/// longest one that does is replaced by its canonical form (or kept as it is
/// written where that fails), with the rest of the segments appended; where
/// nothing exists, the path is rebuilt from its segments. What is done with
/// the answers is [`resolution_given`]'s; whatever the filesystem holds,
/// the result is [`probed_resolution`] for some answers and canonical form,
/// and so a resolution of `path` (see [`resolution_of`]).
pub fn resolve_existing_ancestor(path: &str) -> (r: String)
    requires
        is_safe_absolute(path@),
    ensures
        exists|answers: Seq<bool>, c: Option<Seq<char>>|
            answers.len() == segments(path@).len() + 1 && (c matches Some(t) ==> is_safe_absolute(t)) && r@
                == #[trigger] probed_resolution(path@, answers, c),
        resolution_of(path@, r@),
{
    let segs = path_segments(path);
    let n = segs.len();
    let mut answers: Vec<bool> = Vec::new();
    let mut j: usize = 0;
    while j < n
        invariant
            j <= n,
            answers@.len() == j,
        decreases n - j,
    {
        answers.push(false);
        j = j + 1;
    }
    answers.push(false);
    let mut k = n;
    loop
        invariant
            k <= n == segs@.len(),
            views_of(segs@) == segments(path@),
            is_safe_absolute(path@),
            answers@.len() == n + 1,
        decreases k,
    {
        let probe = if k == n {
            copy_str(path)
        } else {
            let written = join_prefix(&segs, k);
            string_of(&written)
        };
        if filesystem_has(probe.as_str()) {
            answers.set(k, true);
            let canonical = canonical_form(probe.as_str());
            let r = resolution_given(path, &answers, canonical);
            assert(r@ == probed_resolution(path@, answers@, crate::agent::opt_text(canonical)));
            return r;
        }
        if k == 0 {
            let r = resolution_given(path, &answers, None);
            assert(r@ == probed_resolution(path@, answers@, crate::agent::opt_text(None)));
            return r;
        }
        k = k - 1;
    }
}

} // verus!
