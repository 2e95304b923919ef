// Line-level reading of a key file such as portals.conf(5): its lines, group headings and key=value pairs.
use crate::text::{find_char, has_at, is_ws, range_eq, skip_ws, starts_with, trim, trim_range, trim_start};
use vstd::prelude::*;

verus! {

/// The index of the first `c` in `s`, or its length when there is none.
pub open spec fn first_of(s: Seq<char>, c: char) -> nat
    decreases s.len(),
{
    if s.len() == 0 {
        0
    } else if s[0] == c {
        0
    } else {
        1 + first_of(s.drop_first(), c)
    }
}

pub proof fn lemma_first_of(s: Seq<char>, c: char, k: int)
    requires
        0 <= k <= s.len(),
        forall|j: int| 0 <= j < k ==> s[j] != c,
        k == s.len() || s[k] == c,
    ensures
        first_of(s, c) == k,
    decreases k,
{
    if k > 0 {
        lemma_first_of(s.drop_first(), c, k - 1);
    }
}

pub proof fn lemma_first_of_bound(s: Seq<char>, c: char)
    ensures
        first_of(s, c) <= s.len(),
        first_of(s, c) < s.len() ==> s[first_of(s, c) as int] == c,
        forall|j: int| 0 <= j < first_of(s, c) ==> s[j] != c,
    decreases s.len(),
{
    if s.len() > 0 && s[0] != c {
        lemma_first_of_bound(s.drop_first(), c);
        assert forall|j: int| 0 <= j < first_of(s, c) implies s[j] != c by {
            if j > 0 {
                assert(s[j] == s.drop_first()[j - 1]);
            }
        }
    }
}

/// The length of the first piece `str::split_inclusive('\n')` yields: up to and including the first newline.
pub open spec fn piece_len(s: Seq<char>) -> nat {
    if first_of(s, '\n') < s.len() {
        first_of(s, '\n') + 1
    } else {
        s.len()
    }
}

/// What follows the first piece.
pub open spec fn after_piece(s: Seq<char>) -> Seq<char> {
    if piece_len(s) <= s.len() {
        s.skip(piece_len(s) as int)
    } else {
        Seq::empty()
    }
}

pub open spec fn first_piece(s: Seq<char>) -> Seq<char> {
    if piece_len(s) <= s.len() {
        s.take(piece_len(s) as int)
    } else {
        s
    }
}

/// A piece with every trailing `\n` and `\r` removed, as `trim_end_matches(['\n', '\r'])` leaves it.
pub open spec fn strip_eol(s: Seq<char>) -> Seq<char>
    decreases s.len(),
{
    if s.len() > 0 && (s.last() == '\n' || s.last() == '\r') {
        strip_eol(s.drop_last())
    } else {
        s
    }
}

/// A piece as `str::lines` yields it: one `\n` removed, and a `\r` before it.
pub open spec fn line_of(raw: Seq<char>) -> Seq<char> {
    if raw.len() > 0 && raw.last() == '\n' {
        let r = raw.drop_last();
        if r.len() > 0 && r.last() == '\r' {
            r.drop_last()
        } else {
            r
        }
    } else {
        raw
    }
}

/// A group heading: the first character past leading whitespace is `[`.
pub open spec fn is_header(body: Seq<char>) -> bool {
    let b = trim_start(body);
    b.len() > 0 && b[0] == '['
}

/// The value of `key=value`, trimmed, when the line is exactly that key.
pub open spec fn key_value(body: Seq<char>, key: Seq<char>) -> Option<Seq<char>> {
    if starts_with(body, key) && body.len() > key.len() && body[key.len() as int] == '=' {
        Some(trim(body.skip(key.len() + 1int)))
    } else {
        None
    }
}

/// One piece of the text, located by its bounds.
pub struct Piece {
    /// Where the piece starts.
    pub start: usize,
    /// Where it ends, its newline included.
    pub end: usize,
    /// Where its body ends once every trailing `\n` and `\r` is removed.
    pub body_end: usize,
    /// Where its line ends as `str::lines` yields it.
    pub line_end: usize,
}

pub open spec fn piece_ok(v: Seq<char>, i: int, p: Piece) -> bool {
    let s = v.skip(i);
    &&& i == p.start
    &&& p.start < p.end <= v.len()
    &&& p.start <= p.body_end <= p.end
    &&& p.start <= p.line_end <= p.end
    &&& p.end - p.start == piece_len(s)
    &&& v.subrange(p.start as int, p.end as int) == first_piece(s)
    &&& v.skip(p.end as int) == after_piece(s)
    &&& v.subrange(p.start as int, p.body_end as int) == strip_eol(first_piece(s))
    &&& v.subrange(p.start as int, p.line_end as int) == line_of(first_piece(s))
}

proof fn lemma_strip_eol_step(s: Seq<char>, k: int)
    requires
        0 < k <= s.len(),
        s[k - 1] == '\n' || s[k - 1] == '\r',
    ensures
        strip_eol(s.take(k)) == strip_eol(s.take(k - 1)),
{
    assert(s.take(k).drop_last() =~= s.take(k - 1));
}

/// The piece of `v` that starts at `i`.
pub fn next_piece(v: &Vec<char>, i: usize) -> (p: Piece)
    requires
        i < v.len(),
    ensures
        piece_ok(v@, i as int, p),
{
    let n = v.len();
    let j = find_char(v, i, n, '\n');
    let ghost s = v@.skip(i as int);
    proof {
        assert forall|q: int| 0 <= q < j - i implies s[q] != '\n' by {
            assert(s[q] == v@[i + q]);
        }
        lemma_first_of(s, '\n', j - i);
    }
    let end: usize = if j < n {
        j + 1
    } else {
        n
    };
    assert(v@.subrange(i as int, end as int) =~= s.take(piece_len(s) as int));
    assert(v@.skip(end as int) =~= s.skip(piece_len(s) as int));
    let ghost raw = v@.subrange(i as int, end as int);
    let mut body_end: usize = end;
    assert(raw.take(end - i) =~= raw);
    while body_end > i && (v[body_end - 1] == '\n' || v[body_end - 1] == '\r')
        invariant
            i <= body_end <= end <= v.len(),
            raw == v@.subrange(i as int, end as int),
            strip_eol(raw) == strip_eol(raw.take(body_end - i)),
        decreases body_end,
    {
        proof {
            lemma_strip_eol_step(raw, body_end - i);
        }
        body_end = body_end - 1;
    }
    assert(raw.take(body_end - i) =~= v@.subrange(i as int, body_end as int));
    let mut line_end: usize = end;
    if end > i && v[end - 1] == '\n' {
        line_end = end - 1;
        assert(raw.drop_last() =~= v@.subrange(i as int, (end - 1) as int));
        if line_end > i && v[line_end - 1] == '\r' {
            line_end = line_end - 1;
            assert(raw.drop_last().drop_last() =~= v@.subrange(i as int, (end - 2) as int));
        }
    }
    Piece { start: i, end, body_end, line_end }
}

/// Whether `v[lo..hi]` is a group heading.
pub fn header_at(v: &Vec<char>, lo: usize, hi: usize) -> (r: bool)
    requires
        lo <= hi <= v.len(),
    ensures
        r == is_header(v@.subrange(lo as int, hi as int)),
{
    let a = skip_ws(v, lo, hi);
    a < hi && v[a] == '['
}

/// Whether `v[lo..hi]`, trimmed, is `name`.
pub fn trimmed_is(v: &Vec<char>, lo: usize, hi: usize, name: &Vec<char>) -> (r: bool)
    requires
        lo <= hi <= v.len(),
    ensures
        r == (trim(v@.subrange(lo as int, hi as int)) == name@),
{
    let (a, b) = trim_range(v, lo, hi);
    range_eq(v, a, b, name)
}

/// The bounds of the value of `key=value` in `v[lo..hi]`, when the line is that key.
pub fn key_value_at(v: &Vec<char>, lo: usize, hi: usize, key: &Vec<char>) -> (r: Option<(usize, usize)>)
    requires
        lo <= hi <= v.len(),
    ensures
        match r {
            Some((a, b)) => lo <= a <= b <= hi && key_value(v@.subrange(lo as int, hi as int), key@)
                == Some(v@.subrange(a as int, b as int)),
            None => key_value(v@.subrange(lo as int, hi as int), key@) is None,
        },
{
    let ghost body = v@.subrange(lo as int, hi as int);
    if !has_at(v, lo, hi, key) {
        return None;
    }
    if hi - lo <= key.len() || v[lo + key.len()] != '=' {
        return None;
    }
    let (a, b) = trim_range(v, lo + key.len() + 1, hi);
    assert(body.skip(key.len() + 1) =~= v@.subrange(lo + key.len() + 1, hi as int));
    Some((a, b))
}

/// A text is its first piece followed by what comes after it, and what comes after is shorter.
pub proof fn lemma_piece_split(s: Seq<char>)
    requires
        s.len() > 0,
    ensures
        first_piece(s) + after_piece(s) == s,
        after_piece(s).len() < s.len(),
        piece_len(s) >= 1,
{
    lemma_first_of_bound(s, '\n');
    assert(first_piece(s) + after_piece(s) =~= s);
}

/// Text that ends with a newline splits into pieces of its own, whatever follows it.
pub proof fn lemma_piece_concat(a: Seq<char>, r: Seq<char>)
    requires
        a.len() > 0,
        a.last() == '\n',
    ensures
        first_piece(a + r) == first_piece(a),
        after_piece(a + r) == after_piece(a) + r,
        after_piece(a).len() == 0 || after_piece(a).last() == '\n',
        after_piece(a).len() < a.len(),
{
    lemma_first_of_bound(a, '\n');
    let k = first_of(a, '\n');
    assert(k < a.len()) by {
        if k >= a.len() {
            assert(a[a.len() - 1] != '\n');
        }
    }
    let s = a + r;
    assert forall|j: int| 0 <= j < k implies s[j] != '\n' by {
        assert(s[j] == a[j]);
    }
    assert(s[k as int] == a[k as int]);
    lemma_first_of(s, '\n', k as int);
    assert(first_piece(s) =~= first_piece(a));
    assert(after_piece(s) =~= after_piece(a) + r);
    if after_piece(a).len() > 0 {
        assert(after_piece(a).last() == a.last());
    }
}

/// A line with its newline is the first piece of any text it starts.
pub proof fn lemma_line_piece(l: Seq<char>, r: Seq<char>)
    requires
        forall|j: int| 0 <= j < l.len() ==> l[j] != '\n',
    ensures
        first_piece(l + seq!['\n'] + r) == l + seq!['\n'],
        after_piece(l + seq!['\n'] + r) == r,
{
    let s = l + seq!['\n'] + r;
    assert forall|j: int| 0 <= j < l.len() implies s[j] != '\n' by {
        assert(s[j] == l[j]);
    }
    assert(s[l.len() as int] == '\n');
    lemma_first_of(s, '\n', l.len() as int);
    assert(first_piece(s) =~= l + seq!['\n']);
    assert(after_piece(s) =~= r);
}

/// A line that ends in neither a newline nor a carriage return is its own body.
pub proof fn lemma_line_body(l: Seq<char>)
    requires
        l.len() == 0 || (l.last() != '\n' && l.last() != '\r'),
    ensures
        strip_eol(l + seq!['\n']) == l,
        line_of(l + seq!['\n']) == l,
{
    assert((l + seq!['\n']).drop_last() =~= l);
    assert(strip_eol(l) == l);
}

} // verus!
