// Paths as the standard library's Path reads them on Unix: joining, and the components equality and
// prefixes are decided by.
use crate::keyfile::first_of;
use crate::text::{chars_of, push_char, push_str};
use vstd::prelude::*;

verus! {

/// `Path::join`: an absolute part replaces the whole; otherwise one separator goes between them unless
/// the first is empty or already ends in one.
pub open spec fn joined(dir: Seq<char>, rel: Seq<char>) -> Seq<char> {
    if rel.len() > 0 && rel[0] == '/' {
        rel
    } else if dir.len() > 0 && dir.last() != '/' {
        dir + seq!['/'] + rel
    } else {
        dir + rel
    }
}

pub fn join(dir: &str, rel: &str) -> (r: String)
    ensures
        r@ == joined(dir@, rel@),
{
    let d = chars_of(dir);
    let p = chars_of(rel);
    let mut out = String::new();
    if p.len() > 0 && p[0] == '/' {
        push_str(&mut out, rel);
        return out;
    }
    push_str(&mut out, dir);
    if d.len() > 0 && d[d.len() - 1] != '/' {
        push_char(&mut out, '/');
    }
    push_str(&mut out, rel);
    out
}

/// A path's text cut at every `/`, empty pieces included.
pub open spec fn segments(p: Seq<char>) -> Seq<Seq<char>>
    decreases p.len(),
{
    let k = first_of(p, '/');
    if k < p.len() {
        seq![p.take(k as int)] + segments(p.skip(k + 1int))
    } else {
        seq![p]
    }
}

/// A piece that names something: neither empty nor `.`.
pub open spec fn names_part(s: Seq<char>) -> bool {
    s.len() > 0 && s != seq!['.']
}

/// The pieces that name something, in order.
pub open spec fn normal_parts(segs: Seq<Seq<char>>) -> Seq<Seq<char>>
    decreases segs.len(),
{
    if segs.len() == 0 {
        Seq::empty()
    } else {
        let r = normal_parts(segs.drop_last());
        if names_part(segs.last()) {
            r.push(segs.last())
        } else {
            r
        }
    }
}

/// The components of a path as `Path::components` yields them on Unix: whether it starts at the root,
/// then its parts, with empty and `.` pieces dropped except a `.` that starts a relative path.
pub open spec fn comps(p: Seq<char>) -> (bool, Seq<Seq<char>>) {
    let abs = p.len() > 0 && p[0] == '/';
    let segs = segments(p);
    if !abs && segs[0] == seq!['.'] {
        (abs, seq![seq!['.']] + normal_parts(segs.drop_first()))
    } else {
        (abs, normal_parts(segs))
    }
}

/// Two paths are the same path when their components are: `/a//b/` is `/a/b`.
pub open spec fn same_path(a: Seq<char>, b: Seq<char>) -> bool {
    comps(a) == comps(b)
}

/// `Path::file_name`: the last component when it names something.
pub open spec fn file_name(p: Seq<char>) -> Option<Seq<char>> {
    let c = comps(p).1;
    if c.len() > 0 && c.last() != seq!['.'] && c.last() != seq!['.', '.'] {
        Some(c.last())
    } else {
        None
    }
}

/// `Path::starts_with`: `base`'s components lead `p`'s.
pub open spec fn within(p: Seq<char>, base: Seq<char>) -> bool {
    let a = comps(p);
    let b = comps(base);
    a.0 == b.0 && b.1.len() <= a.1.len() && a.1.take(b.1.len() as int) == b.1
}

pub open spec fn parts_view(parts: Seq<Vec<char>>) -> Seq<Seq<char>> {
    parts.map_values(|v: Vec<char>| v@)
}

fn segments_of(p: &Vec<char>) -> (r: Vec<Vec<char>>)
    ensures
        parts_view(r@) == segments(p@),
{
    let n = p.len();
    let mut segs: Vec<Vec<char>> = Vec::new();
    let mut i: usize = 0;
    assert(p@.skip(0) =~= p@);
    assert(parts_view(segs@) + segments(p@.skip(0)) =~= segments(p@));
    loop
        invariant
            i <= n,
            n == p.len(),
            parts_view(segs@) + segments(p@.skip(i as int)) == segments(p@),
        decreases n - i,
    {
        let k = crate::text::find_char(p, i, n, '/');
        let ghost rest = p@.skip(i as int);
        proof {
            assert forall|q: int| 0 <= q < k - i implies rest[q] != '/' by {
                assert(rest[q] == p@[i + q]);
            }
            crate::keyfile::lemma_first_of(rest, '/', k - i);
        }
        let mut seg: Vec<char> = Vec::new();
        let mut j: usize = i;
        while j < k
            invariant
                i <= j <= k <= n,
                n == p.len(),
                seg@ == p@.subrange(i as int, j as int),
            decreases k - j,
        {
            seg.push(p[j]);
            assert(seg@ =~= p@.subrange(i as int, j + 1));
            j = j + 1;
        }
        let ghost before = parts_view(segs@);
        segs.push(seg);
        assert(parts_view(segs@) =~= before.push(p@.subrange(i as int, k as int)));
        if k == n {
            assert(rest =~= p@.subrange(i as int, k as int));
            assert(segments(rest) == seq![rest]);
            assert(parts_view(segs@) =~= before + segments(rest));
            return segs;
        }
        assert(rest.take(k - i) =~= p@.subrange(i as int, k as int));
        assert(rest.skip(k - i + 1) =~= p@.skip(k + 1));
        assert(segments(rest) == seq![rest.take(k - i)] + segments(rest.skip(k - i + 1)));
        assert(parts_view(segs@) + segments(p@.skip(k + 1)) =~= before + segments(rest));
        i = k + 1;
    }
}

pub fn copy_chars(v: &Vec<char>) -> (r: Vec<char>)
    ensures
        r@ == v@,
{
    let mut r: Vec<char> = Vec::new();
    let mut k: usize = 0;
    while k < v.len()
        invariant
            k <= v.len(),
            r@ == v@.take(k as int),
        decreases v.len() - k,
    {
        r.push(v[k]);
        assert(r@ =~= v@.take(k + 1));
        k = k + 1;
    }
    assert(v@.take(k as int) =~= v@);
    r
}

fn is_dot(s: &Vec<char>) -> (r: bool)
    ensures
        r == (s@ == seq!['.']),
{
    let r = s.len() == 1 && s[0] == '.';
    proof {
        if r {
            assert(s@ =~= seq!['.']);
        }
        if s@ == seq!['.'] {
            assert(s@[0] == '.');
        }
    }
    r
}

/// The components of `p`.
pub fn components(p: &str) -> (r: (bool, Vec<Vec<char>>))
    ensures
        (r.0, parts_view(r.1@)) == comps(p@),
{
    let v = chars_of(p);
    let abs = v.len() > 0 && v[0] == '/';
    let segs = segments_of(&v);
    let ghost sv = parts_view(segs@);
    assert(sv.len() > 0) by {
        let k = first_of(v@, '/');
        if k < v@.len() {
            assert(segments(v@).len() == 1 + segments(v@.skip(k + 1int)).len());
        }
    }
    let lead_dot = !abs && is_dot(&segs[0]);
    assert(sv[0] == segs@[0]@);
    let mut parts: Vec<Vec<char>> = Vec::new();
    let mut i: usize = 0;
    if lead_dot {
        let mut dot: Vec<char> = Vec::new();
        dot.push('.');
        parts.push(dot);
        i = 1;
        assert(parts_view(parts@) =~= seq![seq!['.']] + normal_parts(sv.subrange(1, 1)));
    } else {
        assert(parts_view(parts@) =~= normal_parts(sv.subrange(0, 0)));
    }
    let ghost base: Seq<Seq<char>> = if lead_dot {
        seq![seq!['.']]
    } else {
        Seq::empty()
    };
    let start = i;
    assert(parts_view(parts@) =~= base + normal_parts(sv.subrange(start as int, i as int)));
    let n = segs.len();
    while i < n
        invariant
            start <= i <= n,
            n == segs.len(),
            sv == parts_view(segs@),
            parts_view(parts@) == base + normal_parts(sv.subrange(start as int, i as int)),
        decreases n - i,
    {
        let ghost before = parts_view(parts@);
        assert(sv.subrange(start as int, i + 1).drop_last() =~= sv.subrange(start as int, i as int));
        assert(sv.subrange(start as int, i + 1).last() == sv[i as int]);
        let keep = segs[i].len() > 0 && !is_dot(&segs[i]);
        assert(sv[i as int] == segs@[i as int]@);
        if keep {
            parts.push(copy_chars(&segs[i]));
            assert(parts_view(parts@) =~= before.push(sv[i as int]));
        }
        i = i + 1;
    }
    assert(sv.subrange(start as int, n as int) =~= (if lead_dot {
        sv.drop_first()
    } else {
        sv
    }));
    (abs, parts)
}

fn chars_eq(a: &Vec<char>, b: &Vec<char>) -> (r: bool)
    ensures
        r == (a@ == b@),
{
    assert(a@.subrange(0, a.len() as int) =~= a@);
    crate::text::range_eq(a, 0, a.len(), b)
}

/// Whether the first `n` parts of `a` and `b` agree.
fn parts_agree(a: &Vec<Vec<char>>, b: &Vec<Vec<char>>, n: usize) -> (r: bool)
    requires
        n <= a.len(),
        n <= b.len(),
    ensures
        r == (parts_view(a@).take(n as int) == parts_view(b@).take(n as int)),
{
    let mut i: usize = 0;
    while i < n
        invariant
            i <= n <= a.len(),
            n <= b.len(),
            parts_view(a@).take(i as int) == parts_view(b@).take(i as int),
        decreases n - i,
    {
        if !chars_eq(&a[i], &b[i]) {
            assert(parts_view(a@).take(n as int)[i as int] != parts_view(b@).take(n as int)[i as int]);
            return false;
        }
        assert(parts_view(a@).take(i + 1) =~= parts_view(a@).take(i as int).push(a@[i as int]@));
        assert(parts_view(b@).take(i + 1) =~= parts_view(b@).take(i as int).push(b@[i as int]@));
        i = i + 1;
    }
    true
}

/// Whether `a` and `b` are the same path.
pub fn is_same_path(a: &str, b: &str) -> (r: bool)
    ensures
        r == same_path(a@, b@),
{
    let (x, xs) = components(a);
    let (y, ys) = components(b);
    if x != y || xs.len() != ys.len() {
        proof {
            if xs.len() != ys.len() {
                assert(parts_view(xs@).len() != parts_view(ys@).len());
            }
        }
        return false;
    }
    let r = parts_agree(&xs, &ys, xs.len());
    assert(parts_view(xs@).take(xs.len() as int) =~= parts_view(xs@));
    assert(parts_view(ys@).take(ys.len() as int) =~= parts_view(ys@));
    r
}

/// Whether `p` lies within `base`: `base`'s components lead its own.
pub fn is_within(p: &str, base: &str) -> (r: bool)
    ensures
        r == within(p@, base@),
{
    let (x, xs) = components(p);
    let (y, ys) = components(base);
    if x != y || ys.len() > xs.len() {
        return false;
    }
    let r = parts_agree(&xs, &ys, ys.len());
    assert(parts_view(ys@).take(ys.len() as int) =~= parts_view(ys@));
    r
}

/// `Path::file_name`.
pub fn file_name_of(p: &str) -> (r: Option<String>)
    ensures
        crate::chooser::opt_view(r) == file_name(p@),
{
    let (_, xs) = components(p);
    let n = xs.len();
    if n == 0 {
        return None;
    }
    let last = &xs[n - 1];
    assert(parts_view(xs@).last() == last@);
    if is_dot(last) || (last.len() == 2 && last[0] == '.' && last[1] == '.') {
        proof {
            if !is_dot_spec(last@) {
                assert(last@ =~= seq!['.', '.']);
            }
        }
        return None;
    }
    proof {
        if last@ == seq!['.', '.'] {
            assert(last@[0] == '.' && last@[1] == '.');
        }
    }
    let mut out = String::new();
    crate::text::push_all(&mut out, last);
    assert(Seq::<char>::empty() + last@ =~= last@);
    Some(out)
}

spec fn is_dot_spec(s: Seq<char>) -> bool {
    s == seq!['.']
}

} // verus!
