use vstd::prelude::*;

use crate::text::{
    chars_of, push_range, push_str, same_chars, starts_with, starts_with_chars, string_of_range,
};

verus! {

/// An entry of a directory listing: its name, whether it is a directory, and
/// whether it is a symbolic link (a link is never taken for a directory).
pub struct Entry {
    pub name: String,
    pub is_dir: bool,
    pub is_symlink: bool,
}

/// The view of a list of paths.
pub open spec fn path_views(ps: Seq<String>) -> Seq<Seq<char>> {
    ps.map_values(|p: String| p@)
}

/// Pushing a path pushes its view.
pub proof fn lemma_path_views_push(ps: Seq<String>, p: String)
    ensures
        path_views(ps.push(p)) == path_views(ps).push(p@),
{
    assert(path_views(ps.push(p)) =~= path_views(ps).push(p@));
}

/// The pieces of `p` between separators, in order, empty ones included
/// (there is always at least one).
pub open spec fn pieces(p: Seq<char>) -> Seq<Seq<char>>
    decreases p.len(),
{
    if p.len() == 0 {
        seq![Seq::<char>::empty()]
    } else {
        let s = pieces(p.drop_last());
        if p.last() == '/' {
            s.push(Seq::<char>::empty())
        } else {
            s.update(s.len() - 1, s.last().push(p.last()))
        }
    }
}

/// Whether a piece of a path names a component: it is neither empty nor `.`.
pub open spec fn names_component(x: Seq<char>) -> bool {
    x.len() > 0 && x != seq!['.']
}

/// The pieces that name components, in order.
pub open spec fn named(ps: Seq<Seq<char>>) -> Seq<Seq<char>>
    decreases ps.len(),
{
    if ps.len() == 0 {
        Seq::empty()
    } else {
        named(ps.drop_last()) + if names_component(ps.last()) {
            seq![ps.last()]
        } else {
            Seq::<Seq<char>>::empty()
        }
    }
}

/// What `Path` compares of a path, component by component: whether it is
/// rooted, whether it begins with the current directory `.`, and its other
/// components; repeated separators, separators at the end and `.` anywhere
/// but at the start do not count.
pub open spec fn path_key(p: Seq<char>) -> (bool, bool, Seq<Seq<char>>) {
    let rooted = p.len() > 0 && p[0] == '/';
    (
        rooted,
        !rooted && p.len() > 0 && p[0] == '.' && (p.len() == 1 || p[1] == '/'),
        named(pieces(p)),
    )
}

/// Whether two paths are equal as `Path` values, component by component.
pub open spec fn same_place(a: Seq<char>, b: Seq<char>) -> bool {
    path_key(a) == path_key(b)
}

proof fn lemma_pieces_len(p: Seq<char>)
    ensures
        pieces(p).len() >= 1,
    decreases p.len(),
{
    if p.len() > 0 {
        lemma_pieces_len(p.drop_last());
    }
}

/// The components of a path, as `path_key` counts them.
fn components(v: &Vec<char>) -> (r: Vec<Vec<char>>)
    ensures
        r@.map_values(|x: Vec<char>| x@) == named(pieces(v@)),
{
    let mut r: Vec<Vec<char>> = Vec::new();
    let mut cur: Vec<char> = Vec::new();
    let mut i: usize = 0;
    proof {
        assert(v@.take(0) =~= Seq::<char>::empty());
        assert(r@.map_values(|x: Vec<char>| x@) =~= Seq::<Seq<char>>::empty());
    }
    while i < v.len()
        invariant
            i <= v@.len(),
            pieces(v@.take(i as int)).len() >= 1,
            pieces(v@.take(i as int)).last() == cur@,
            r@.map_values(|x: Vec<char>| x@) == named(pieces(v@.take(i as int)).drop_last()),
        decreases v@.len() - i,
    {
        let ghost ps = pieces(v@.take(i as int));
        proof {
            assert(v@.take(i + 1).drop_last() =~= v@.take(i as int));
            assert(v@.take(i + 1).last() == v@[i as int]);
            lemma_pieces_len(v@.take(i as int));
        }
        if v[i] == '/' {
            let ghost before = r@.map_values(|x: Vec<char>| x@);
            assert(pieces(v@.take(i + 1)) == ps.push(Seq::<char>::empty()));
            assert(ps.push(Seq::<char>::empty()).drop_last() =~= ps);
            assert(ps.drop_last().push(ps.last()) =~= ps);
            assert(named(ps) == named(ps.drop_last()) + if names_component(ps.last()) {
                seq![ps.last()]
            } else {
                Seq::<Seq<char>>::empty()
            });
            let keep = cur.len() > 0 && !(cur.len() == 1 && cur[0] == '.');
            assert(keep == names_component(cur@)) by {
                if cur@ == seq!['.'] {
                    assert(cur@.len() == 1 && cur@[0] == '.');
                }
                if cur@.len() == 1 && cur@[0] == '.' {
                    assert(cur@ =~= seq!['.']);
                }
            }
            if keep {
                r.push(cur);
                assert(r@.map_values(|x: Vec<char>| x@) =~= before.push(ps.last()));
            } else {
                assert(before + Seq::<Seq<char>>::empty() =~= before);
            }
            cur = Vec::new();
            assert(cur@ =~= Seq::<char>::empty());
        } else {
            let c = v[i];
            cur.push(c);
            assert(pieces(v@.take(i + 1)) == ps.update(ps.len() - 1, ps.last().push(c)));
            assert(ps.update(ps.len() - 1, ps.last().push(c)).drop_last() =~= ps.drop_last());
        }
        i = i + 1;
    }
    assert(v@.take(v@.len() as int) =~= v@);
    let ghost ps = pieces(v@);
    assert(ps.drop_last().push(ps.last()) =~= ps);
    let ghost before = r@.map_values(|x: Vec<char>| x@);
    let keep = cur.len() > 0 && !(cur.len() == 1 && cur[0] == '.');
    assert(keep == names_component(cur@)) by {
        if cur@ == seq!['.'] {
            assert(cur@.len() == 1 && cur@[0] == '.');
        }
        if cur@.len() == 1 && cur@[0] == '.' {
            assert(cur@ =~= seq!['.']);
        }
    }
    if keep {
        r.push(cur);
        assert(r@.map_values(|x: Vec<char>| x@) =~= before.push(ps.last()));
    } else {
        assert(before + Seq::<Seq<char>>::empty() =~= before);
    }
    r
}

/// Whether two paths are equal as `Path` values, component by component.
pub fn same_path(a: &str, b: &str) -> (r: bool)
    ensures
        r == same_place(a@, b@),
{
    let va = chars_of(a);
    let vb = chars_of(b);
    let ra = va.len() > 0 && va[0] == '/';
    let rb = vb.len() > 0 && vb[0] == '/';
    let da = !ra && va.len() > 0 && va[0] == '.' && (va.len() == 1 || va[1] == '/');
    let db = !rb && vb.len() > 0 && vb[0] == '.' && (vb.len() == 1 || vb[1] == '/');
    if ra != rb || da != db {
        return false;
    }
    let ca = components(&va);
    let cb = components(&vb);
    let ghost na = ca@.map_values(|x: Vec<char>| x@);
    let ghost nb = cb@.map_values(|x: Vec<char>| x@);
    assert(path_key(a@) == (ra, da, na));
    assert(path_key(b@) == (rb, db, nb));
    if ca.len() != cb.len() {
        assert(na.len() != nb.len());
        return false;
    }
    let mut i: usize = 0;
    while i < ca.len()
        invariant
            i <= ca@.len(),
            ca@.len() == cb@.len(),
            na == ca@.map_values(|x: Vec<char>| x@),
            nb == cb@.map_values(|x: Vec<char>| x@),
            path_key(a@) == (ra, da, na),
            path_key(b@) == (rb, db, nb),
            ra == rb && da == db,
            forall|j: int| 0 <= j < i ==> na[j] == nb[j],
        decreases ca@.len() - i,
    {
        if !same_chars(&ca[i], &cb[i]) {
            assert(na[i as int] != nb[i as int]);
            return false;
        }
        i = i + 1;
    }
    assert(na =~= nb);
    true
}

/// The index of the last `c` in `s`, or -1.
pub open spec fn last_index(s: Seq<char>, c: char) -> int
    decreases s.len(),
{
    if s.len() == 0 {
        -1
    } else if s.last() == c {
        s.len() - 1
    } else {
        last_index(s.drop_last(), c)
    }
}

proof fn lemma_last_index(s: Seq<char>, c: char)
    ensures
        -1 <= last_index(s, c) < s.len(),
        last_index(s, c) >= 0 ==> s[last_index(s, c)] == c,
        forall|j: int| last_index(s, c) < j < s.len() ==> s[j] != c,
    decreases s.len(),
{
    if s.len() > 0 && s.last() != c {
        lemma_last_index(s.drop_last(), c);
        assert forall|j: int| last_index(s, c) < j < s.len() implies s[j] != c by {
            if j < s.len() - 1 {
                assert(s.drop_last()[j] == s[j]);
            }
        }
    }
}

/// Finds the last `c` among the characters.
fn find_last(v: &Vec<char>, c: char) -> (r: Option<usize>)
    ensures
        match r {
            Some(k) => k as int == last_index(v@, c) && k < v@.len(),
            None => last_index(v@, c) == -1,
        },
{
    proof {
        lemma_last_index(v@, c);
    }
    let mut k = v.len();
    assert(v@.take(k as int) == v@);
    while k > 0
        invariant
            k <= v@.len(),
            last_index(v@, c) == last_index(v@.take(k as int), c),
        decreases k,
    {
        if v[k - 1] == c {
            assert(v@.take(k as int).last() == c);
            return Some(k - 1);
        }
        assert(v@.take(k as int).drop_last() == v@.take(k - 1));
        k = k - 1;
    }
    None
}

/// Whether a path begins at the root.
pub open spec fn rooted(p: Seq<char>) -> bool {
    p.len() > 0 && p[0] == '/'
}

/// Whether a relative path begins with the current directory `.`.
pub open spec fn lead_dot(p: Seq<char>) -> bool {
    !rooted(p) && p.len() > 0 && p[0] == '.' && (p.len() == 1 || p[1] == '/')
}

/// Where the components after the root (or the leading `.`) begin.
pub open spec fn body_start(p: Seq<char>) -> int {
    if rooted(p) || lead_dot(p) {
        1
    } else {
        0
    }
}

/// `p` without what ends it and names no component: separators and `.`
/// pieces, but never into its first `b` characters.
pub open spec fn trim_tail(p: Seq<char>, b: int) -> Seq<char>
    decreases p.len(),
{
    if p.len() <= b || p.len() == 0 {
        p
    } else if p.last() == '/' {
        trim_tail(p.drop_last(), b)
    } else if p.last() == '.' && (p.len() - 1 == b || p[p.len() - 2] == '/') {
        trim_tail(p.drop_last(), b)
    } else {
        p
    }
}

/// Where the last component of `t` (trimmed, past `b`) begins.
pub open spec fn last_start(t: Seq<char>, b: int) -> int {
    let k = last_index(t, '/');
    if k >= b {
        k + 1
    } else {
        b
    }
}

/// The parent of a path as `Path::parent` gives it: the path before its last
/// component (separators and `.` pieces at the end do not count), without
/// the separators it then ends with; the empty path for the current
/// directory `.` alone; none for the root or the empty path.
pub open spec fn parent_path(p: Seq<char>) -> Option<Seq<char>> {
    let b = body_start(p);
    let t = trim_tail(p, b);
    if t.len() <= b {
        if lead_dot(p) {
            Some(Seq::empty())
        } else {
            None
        }
    } else {
        Some(trim_tail(t.take(last_start(t, b)), b))
    }
}

/// Where `v[..n0]` ends without what ends it and names no component.
fn tail_len(v: &Vec<char>, n0: usize, b: usize) -> (n: usize)
    requires
        b <= n0 <= v@.len(),
        b <= 1,
    ensures
        b <= n <= n0,
        trim_tail(v@.take(n0 as int), b as int) == v@.take(n as int),
{
    let mut n = n0;
    while n > b && (v[n - 1] == '/' || (v[n - 1] == '.' && (n - 1 == b || v[n - 2] == '/')))
        invariant
            b <= n <= n0 <= v@.len(),
            trim_tail(v@.take(n0 as int), b as int) == trim_tail(v@.take(n as int), b as int),
        decreases n,
    {
        assert(v@.take(n as int).drop_last() =~= v@.take(n - 1));
        assert(v@.take(n as int).last() == v@[n - 1]);
        assert(n >= 2 ==> v@.take(n as int)[n - 2] == v@[n - 2]);
        n = n - 1;
    }
    proof {
        let t = v@.take(n as int);
        if n > b {
            assert(t.last() == v@[n - 1]);
            assert(n >= 2 ==> t[n - 2] == v@[n - 2]);
        }
    }
    n
}

/// The start of the components of a path, and whether it begins with `.`.
fn body_of(v: &Vec<char>) -> (r: (usize, bool))
    ensures
        r.0 as int == body_start(v@),
        r.1 == lead_dot(v@),
{
    let root = v.len() > 0 && v[0] == '/';
    let dot = !root && v.len() > 0 && v[0] == '.' && (v.len() == 1 || v[1] == '/');
    if root || dot {
        (1, dot)
    } else {
        (0, dot)
    }
}

/// The parent of a path.
pub fn path_parent(p: &str) -> (r: Option<String>)
    ensures
        match r {
            Some(s) => parent_path(p@) == Some(s@),
            None => parent_path(p@) is None,
        },
{
    let v = chars_of(p);
    let (b, dot) = body_of(&v);
    assert(v@.take(v@.len() as int) =~= v@);
    let n = tail_len(&v, v.len(), b);
    if n <= b {
        if dot {
            return Some(String::new());
        }
        return None;
    }
    let t = crate::text::slice_chars(&v, 0, n);
    assert(t@ =~= v@.take(n as int));
    proof {
        lemma_last_index(t@, '/');
    }
    let cut: usize = match find_last(&t, '/') {
        Some(k) => {
            if k >= b {
                k + 1
            } else {
                b
            }
        },
        None => b,
    };
    assert(cut as int == last_start(t@, b as int));
    assert(t@.take(cut as int) =~= v@.take(cut as int));
    let m = tail_len(&v, cut, b);
    assert(t@.take(cut as int) == v@.take(cut as int));
    Some(string_of_range(&v, 0, m))
}

/// The last component of a path as `Path::file_name` gives it: none when the
/// path has no component after its root or leading `.`, or ends in `..`;
/// separators and `.` pieces at the end do not count.
pub open spec fn file_name(p: Seq<char>) -> Option<Seq<char>> {
    let b = body_start(p);
    let t = trim_tail(p, b);
    if t.len() <= b {
        None
    } else {
        let name = t.skip(last_start(t, b));
        if name == seq!['.', '.'] {
            None
        } else {
            Some(name)
        }
    }
}

/// The last component of a path.
#[verifier::rlimit(40)]
pub fn path_file_name(p: &str) -> (r: Option<String>)
    ensures
        match r {
            Some(s) => file_name(p@) == Some(s@),
            None => file_name(p@) is None,
        },
{
    let v = chars_of(p);
    let (b, _dot) = body_of(&v);
    assert(v@.take(v@.len() as int) =~= v@);
    let n = tail_len(&v, v.len(), b);
    if n <= b {
        return None;
    }
    let t = crate::text::slice_chars(&v, 0, n);
    assert(t@ =~= v@.take(n as int));
    proof {
        lemma_last_index(t@, '/');
    }
    let start: usize = match find_last(&t, '/') {
        Some(k) => {
            if k >= b {
                k + 1
            } else {
                b
            }
        },
        None => b,
    };
    assert(start as int == last_start(t@, b as int));
    let len = n - start;
    let ghost name = t@.skip(start as int);
    assert(name =~= t@.subrange(start as int, n as int));
    if len == 2 && t[start] == '.' && t[start + 1] == '.' {
        assert(name =~= seq!['.', '.']);
        return None;
    }
    assert(name != seq!['.', '.']) by {
        if name == seq!['.', '.'] {
            assert(name.len() == 2 && name[0] == '.' && name[1] == '.');
            assert(t@[start as int] == name[0]);
        }
    }
    Some(string_of_range(&t, start, n))
}

/// `base` joined with `rel` as `Path::join` does: an absolute `rel` replaces
/// `base`, and one separator stands between them.
pub open spec fn join_path(base: Seq<char>, rel: Seq<char>) -> Seq<char> {
    if rel.len() > 0 && rel[0] == '/' {
        rel
    } else if base.len() == 0 || base.last() == '/' {
        base + rel
    } else {
        base + seq!['/'] + rel
    }
}

/// Joins two paths.
pub fn path_join(base: &str, rel: &str) -> (r: String)
    ensures
        r@ == join_path(base@, rel@),
{
    let b = chars_of(base);
    let rv = chars_of(rel);
    let mut out = String::new();
    if rv.len() > 0 && rv[0] == '/' {
        push_str(&mut out, rel);
        return out;
    }
    push_str(&mut out, base);
    if !(b.len() == 0 || b[b.len() - 1] == '/') {
        out = push_sep(out);
    }
    push_str(&mut out, rel);
    out
}

fn push_sep(s: String) -> (r: String)
    ensures
        r@ == s@ + seq!['/'],
{
    let mut s = s;
    crate::text::push_char(&mut s, '/');
    s
}

/// The components of a path as `Path::components` lists them: the root
/// (written `/`) when it is rooted, the current directory (written `.`) when
/// it begins with one, then the pieces that name components.
pub open spec fn comps(p: Seq<char>) -> Seq<Seq<char>> {
    (if rooted(p) {
        seq![seq!['/']]
    } else {
        Seq::<Seq<char>>::empty()
    }) + (if lead_dot(p) {
        seq![seq!['.']]
    } else {
        Seq::<Seq<char>>::empty()
    }) + named(pieces(p))
}

/// Whether `path` lies at or below `root` as `Path::starts_with` decides:
/// the components of `root` begin those of `path`.
pub open spec fn path_within(path: Seq<char>, root: Seq<char>) -> bool {
    comps(root).len() <= comps(path).len() && comps(path).take(comps(root).len() as int) == comps(root)
}

/// Whether `t` begins with a piece that names no component: a separator, or
/// a `.` that ends there.
pub open spec fn junk_start(t: Seq<char>) -> bool {
    t.len() > 0 && (t[0] == '/' || (t[0] == '.' && (t.len() == 1 || t[1] == '/')))
}

/// `t` without the separators and `.` pieces it begins with.
pub open spec fn drop_junk(t: Seq<char>) -> Seq<char>
    decreases t.len(),
{
    if junk_start(t) {
        drop_junk(t.skip(1))
    } else {
        t
    }
}

/// The length of the first piece of `t`, up to its first separator.
pub open spec fn first_sep(t: Seq<char>) -> nat
    decreases t.len(),
{
    if t.len() == 0 || t[0] == '/' {
        0
    } else {
        1 + first_sep(t.skip(1))
    }
}

/// `t` after its first `n` components, as a `Path` iterator leaves it: each
/// component is taken with what names none before it and the separator after it.
pub open spec fn skip_comps(t: Seq<char>, n: nat) -> Seq<char>
    decreases n,
{
    if n == 0 {
        t
    } else {
        let u = drop_junk(t);
        let k = first_sep(u);
        skip_comps(
            if k < u.len() {
                u.skip(k as int + 1)
            } else {
                u.skip(k as int)
            },
            (n - 1) as nat,
        )
    }
}

/// What `Path::strip_prefix` leaves of `path` below `home` (when `home`'s
/// components begin `path`'s): the text after those components, without what
/// names no component at either end; `path` itself, trimmed at the end only,
/// when `home` has no component.
pub open spec fn strip_home(path: Seq<char>, home: Seq<char>) -> Seq<char> {
    if comps(home).len() == 0 {
        trim_tail(path, body_start(path))
    } else {
        trim_tail(
            drop_junk(skip_comps(path.skip(body_start(path)), named(pieces(home)).len())),
            0,
        )
    }
}

/// A path with the home directory written `~`, as `Path::strip_prefix` on the
/// home directory finds it: `~` for the home directory itself, `~/rest` below
/// it, the path unchanged elsewhere or without a home.
pub open spec fn shortened(path: Seq<char>, home: Option<Seq<char>>) -> Seq<char> {
    match home {
        None => path,
        Some(h) => if path_within(path, h) {
            let rest = strip_home(path, h);
            if rest.len() == 0 {
                seq!['~']
            } else {
                seq!['~', '/'] + rest
            }
        } else {
            path
        },
    }
}

/// The components of a path.
fn comps_of(v: &Vec<char>) -> (r: Vec<Vec<char>>)
    ensures
        r@.map_values(|x: Vec<char>| x@) == comps(v@),
{
    let (b, dot) = body_of(v);
    let mut r: Vec<Vec<char>> = Vec::new();
    if v.len() > 0 && v[0] == '/' {
        let mut root: Vec<char> = Vec::new();
        root.push('/');
        assert(root@ =~= seq!['/']);
        r.push(root);
    }
    if dot {
        let mut cur: Vec<char> = Vec::new();
        cur.push('.');
        assert(cur@ =~= seq!['.']);
        r.push(cur);
    }
    let ghost front = r@.map_values(|x: Vec<char>| x@);
    assert(front =~= (if rooted(v@) {
        seq![seq!['/']]
    } else {
        Seq::<Seq<char>>::empty()
    }) + (if lead_dot(v@) {
        seq![seq!['.']]
    } else {
        Seq::<Seq<char>>::empty()
    }));
    let named_parts = components(v);
    let mut i: usize = 0;
    while i < named_parts.len()
        invariant
            i <= named_parts@.len(),
            r@.map_values(|x: Vec<char>| x@) == front + named_parts@.map_values(|x: Vec<char>| x@).take(
                i as int,
            ),
        decreases named_parts@.len() - i,
    {
        let ghost before = r@.map_values(|x: Vec<char>| x@);
        let piece = slice_vec(&named_parts[i]);
        r.push(piece);
        assert(r@.map_values(|x: Vec<char>| x@) =~= before.push(named_parts@[i as int]@));
        assert(named_parts@.map_values(|x: Vec<char>| x@).take(i + 1) =~= named_parts@.map_values(
            |x: Vec<char>| x@,
        ).take(i as int).push(named_parts@[i as int]@));
        i = i + 1;
    }
    assert(named_parts@.map_values(|x: Vec<char>| x@).take(named_parts@.len() as int)
        =~= named_parts@.map_values(|x: Vec<char>| x@));
    r
}

/// A copy of a vector of characters.
fn slice_vec(v: &Vec<char>) -> (r: Vec<char>)
    ensures
        r@ == v@,
{
    let r = crate::text::slice_chars(v, 0, v.len());
    assert(v@.subrange(0, v@.len() as int) =~= v@);
    r
}

/// Decides whether `path` lies at or below `root`.
pub fn path_starts_with(path: &str, root: &str) -> (b: bool)
    ensures
        b == path_within(path@, root@),
{
    let cp = comps_of(&chars_of(path));
    let cr = comps_of(&chars_of(root));
    let ghost vp = cp@.map_values(|x: Vec<char>| x@);
    let ghost vr = cr@.map_values(|x: Vec<char>| x@);
    assert(vp.len() == cp@.len() && vr.len() == cr@.len());
    if cr.len() > cp.len() {
        return false;
    }
    let mut i: usize = 0;
    while i < cr.len()
        invariant
            i <= cr@.len() <= cp@.len(),
            vp == cp@.map_values(|x: Vec<char>| x@),
            vr == cr@.map_values(|x: Vec<char>| x@),
            vp == comps(path@),
            vr == comps(root@),
            forall|j: int| 0 <= j < i ==> vp[j] == vr[j],
        decreases cr@.len() - i,
    {
        if !same_chars(&cp[i], &cr[i]) {
            assert(vp.take(vr.len() as int)[i as int] != vr[i as int]);
            return false;
        }
        i = i + 1;
    }
    assert(vp.take(vr.len() as int) =~= vr);
    true
}

/// Where the separators and `.` pieces that begin `v[from..]` end.
fn junk_end(v: &Vec<char>, from: usize) -> (j: usize)
    requires
        from <= v@.len(),
    ensures
        from <= j <= v@.len(),
        drop_junk(v@.skip(from as int)) == v@.skip(j as int),
{
    let mut j = from;
    while j < v.len() && (v[j] == '/' || (v[j] == '.' && (j + 1 == v.len() || v[j + 1] == '/')))
        invariant
            from <= j <= v@.len(),
            drop_junk(v@.skip(from as int)) == drop_junk(v@.skip(j as int)),
        decreases v@.len() - j,
    {
        assert(v@.skip(j as int).skip(1) =~= v@.skip(j + 1));
        assert(v@.skip(j as int)[0] == v@[j as int]);
        assert(j + 1 < v@.len() ==> v@.skip(j as int)[1] == v@[j + 1]);
        j = j + 1;
    }
    proof {
        if j < v@.len() {
            assert(v@.skip(j as int)[0] == v@[j as int]);
            assert(j + 1 < v@.len() ==> v@.skip(j as int)[1] == v@[j + 1]);
        }
    }
    j
}

/// Where the first piece of `v[from..]` ends.
fn sep_at(v: &Vec<char>, from: usize) -> (k: usize)
    requires
        from <= v@.len(),
    ensures
        from <= k <= v@.len(),
        first_sep(v@.skip(from as int)) == k - from,
        k < v@.len() ==> v@[k as int] == '/',
{
    let mut k = from;
    while k < v.len() && v[k] != '/'
        invariant
            from <= k <= v@.len(),
            first_sep(v@.skip(from as int)) == (k - from) + first_sep(v@.skip(k as int)),
        decreases v@.len() - k,
    {
        assert(v@.skip(k as int).skip(1) =~= v@.skip(k + 1));
        assert(v@.skip(k as int)[0] == v@[k as int]);
        k = k + 1;
    }
    proof {
        if k < v@.len() {
            assert(v@.skip(k as int)[0] == v@[k as int]);
        }
    }
    k
}

/// Where `v[from..]` goes on after its first `n` components.
fn skip_n(v: &Vec<char>, from: usize, n: usize) -> (r: usize)
    requires
        from <= v@.len(),
    ensures
        from <= r <= v@.len(),
        skip_comps(v@.skip(from as int), n as nat) == v@.skip(r as int),
{
    let mut at = from;
    let mut left = n;
    while left > 0
        invariant
            from <= at <= v@.len(),
            left <= n,
            skip_comps(v@.skip(from as int), n as nat) == skip_comps(v@.skip(at as int), left as nat),
        decreases left,
    {
        let j = junk_end(v, at);
        let k = sep_at(v, j);
        let ghost u = v@.skip(j as int);
        assert(first_sep(u) == k - j);
        if k < v.len() {
            assert(u.skip((k - j) + 1) =~= v@.skip(k + 1));
            at = k + 1;
        } else {
            assert(u.skip((k - j) as int) =~= v@.skip(k as int));
            at = k;
        }
        left = left - 1;
    }
    at
}

/// Where `v[from..]` ends without what ends it and names no component.
fn tail_from(v: &Vec<char>, from: usize) -> (e: usize)
    requires
        from <= v@.len(),
    ensures
        from <= e <= v@.len(),
        trim_tail(v@.skip(from as int), 0) == v@.subrange(from as int, e as int),
{
    let mut e = v.len();
    assert(v@.skip(from as int) =~= v@.subrange(from as int, e as int));
    while e > from && (v[e - 1] == '/' || (v[e - 1] == '.' && (e - 1 == from || v[e - 2] == '/')))
        invariant
            from <= e <= v@.len(),
            trim_tail(v@.skip(from as int), 0) == trim_tail(v@.subrange(from as int, e as int), 0),
        decreases e,
    {
        let ghost t = v@.subrange(from as int, e as int);
        assert(t.drop_last() =~= v@.subrange(from as int, e - 1));
        assert(t.last() == v@[e - 1]);
        assert(t.len() >= 2 ==> t[t.len() - 2] == v@[e - 2]);
        e = e - 1;
    }
    proof {
        let t = v@.subrange(from as int, e as int);
        if e > from {
            assert(t.last() == v@[e - 1]);
            assert(t.len() >= 2 ==> t[t.len() - 2] == v@[e - 2]);
        }
    }
    e
}

/// Writes a path with the home directory as `~`.
pub fn shorten_path(path: &str, home: Option<String>) -> (r: String)
    ensures
        r@ == shortened(path@, match home {
            Some(h) => Some(h@),
            None => None,
        }),
{
    let mut out = String::new();
    let h = match home {
        None => {
            push_str(&mut out, path);
            return out;
        },
        Some(h) => h,
    };
    if !path_starts_with(path, h.as_str()) {
        push_str(&mut out, path);
        return out;
    }
    let pv = chars_of(path);
    let hv = chars_of(h.as_str());
    let (b, _dot) = body_of(&pv);
    let hc = comps_of(&hv);
    let (start, end): (usize, usize) = if hc.len() == 0 {
        assert(pv@.take(pv@.len() as int) =~= pv@);
        let n = tail_len(&pv, pv.len(), b);
        assert(pv@.take(n as int) =~= pv@.subrange(0, n as int));
        (0, n)
    } else {
        let named_home = components(&hv);
        let at = skip_n(&pv, b, named_home.len());
        let j = junk_end(&pv, at);
        let e = tail_from(&pv, j);
        (j, e)
    };
    assert(strip_home(pv@, hv@) == pv@.subrange(start as int, end as int));
    crate::text::push_char(&mut out, '~');
    if end > start {
        crate::text::push_char(&mut out, '/');
        push_range(&mut out, &pv, start, end);
    }
    out
}

} // verus!
