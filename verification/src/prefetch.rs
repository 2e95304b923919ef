// The page cache prefetch behind the first window: the list a launch reads, and the list a backend records.
use crate::env::{chosen, is_chosen, opt_str_view};
use crate::keyfile::{after_piece, first_of, first_piece, line_of, next_piece, piece_ok};
use crate::text::{chars_of, decimal, digits_value, ends_with, push_decimal, push_str, range_eq, starts_with, string_of_range, trim_start};
use crate::paths::{join, joined};
use crate::update::digit_run;
use crate::vulkan::{all_hex, hex_digit, hex_value};
use vstd::prelude::*;

verus! {

/// The launcher hands the shell the list's path in this variable, and the backend it spawns records into it.
pub const LIST_ENV: &'static str = "FLEA_PREFETCH";

pub const HEADER: &'static str = "flea-prefetch 2";

/// Bounds on a list this process did not write itself: ranges, one range's length.
pub const MAX_RANGES: usize = 4096;

pub const MAX_RANGE_BYTES: u64 = 268435456;

/// One stretch of one file the shell had in memory: the unit a list is made of.
#[derive(Debug, PartialEq)]
pub struct Range {
    pub path: String,
    pub offset: u64,
    pub length: u64,
}

pub open spec fn range_view(r: Range) -> (Seq<char>, u64, u64) {
    (r.path@, r.offset, r.length)
}

pub open spec fn ranges_view(rs: Seq<Range>) -> Seq<(Seq<char>, u64, u64)> {
    rs.map_values(|r: Range| range_view(r))
}

/// What `str::parse::<u64>` reads: an optional `+`, then digits, within u64.
pub open spec fn u64_text(s: Seq<char>) -> Option<u64> {
    let d = if s.len() > 0 && s[0] == '+' {
        s.skip(1)
    } else {
        s
    };
    if digit_run(d) && digits_value(d) <= u64::MAX {
        Some(digits_value(d) as u64)
    } else {
        None
    }
}

/// The same reading bounded by u32.
pub open spec fn u32_text(s: Seq<char>) -> Option<u32> {
    match u64_text(s) {
        Some(n) => if n <= u32::MAX {
            Some(n as u32)
        } else {
            None
        },
        None => None,
    }
}

pub fn parse_u64(v: &Vec<char>, lo: usize, hi: usize) -> (r: Option<u64>)
    requires
        lo <= hi <= v.len(),
    ensures
        r == u64_text(v@.subrange(lo as int, hi as int)),
{
    let ghost s = v@.subrange(lo as int, hi as int);
    let a = if lo < hi && v[lo] == '+' {
        assert(s.skip(1) =~= v@.subrange(lo + 1, hi as int));
        lo + 1
    } else {
        lo
    };
    if !(a < hi && crate::text::range_all_digits(v, a, hi)) {
        return None;
    }
    crate::text::parse_digits(v, a, hi)
}

/// One line of a list: "offset length path", the path holding any spaces after the second.
pub open spec fn range_line(line: Seq<char>) -> Option<(Seq<char>, u64, u64)> {
    let sp1 = first_of(line, ' ');
    let rest = line.skip(sp1 + 1int);
    let sp2 = first_of(rest, ' ');
    let path = rest.skip(sp2 + 1int);
    if sp1 < line.len() && sp2 < rest.len() && u64_text(line.take(sp1 as int)) is Some && u64_text(
        rest.take(sp2 as int),
    ) is Some && starts_with(path, seq!['/']) && 0 < u64_text(rest.take(sp2 as int))->0
        <= MAX_RANGE_BYTES {
        Some((path, u64_text(line.take(sp1 as int))->0, u64_text(rest.take(sp2 as int))->0))
    } else {
        None
    }
}

/// The ranges of the lines after the header, capped at MAX_RANGES.
pub open spec fn list_walk(t: Seq<char>, acc: Seq<(Seq<char>, u64, u64)>) -> Seq<(Seq<char>, u64, u64)>
    decreases t.len(),
{
    if t.len() == 0 || acc.len() >= MAX_RANGES {
        acc
    } else {
        match range_line(line_of(first_piece(t))) {
            Some(r) => list_walk(after_piece(t), acc.push(r)),
            None => list_walk(after_piece(t), acc),
        }
    }
}

/// A list needs its header; then each well-formed line is one range.
pub open spec fn parsed_list(t: Seq<char>) -> Seq<(Seq<char>, u64, u64)> {
    if t.len() > 0 && line_of(first_piece(t)) == HEADER@ {
        list_walk(after_piece(t), Seq::empty())
    } else {
        Seq::empty()
    }
}

fn first_index(v: &Vec<char>, lo: usize, hi: usize, c: char) -> (k: usize)
    requires
        lo <= hi <= v.len(),
    ensures
        lo <= k <= hi,
        k - lo == first_of(v@.subrange(lo as int, hi as int), c),
{
    let k = crate::text::find_char(v, lo, hi, c);
    proof {
        let s = v@.subrange(lo as int, hi as int);
        assert forall|q: int| 0 <= q < k - lo implies s[q] != c by {
            assert(s[q] == v@[lo + q]);
        }
        crate::keyfile::lemma_first_of(s, c, k - lo);
    }
    k
}

/// The range one list line names, when it names one.
fn range_at(v: &Vec<char>, lo: usize, hi: usize) -> (r: Option<Range>)
    requires
        lo <= hi <= v.len(),
    ensures
        match r {
            Some(x) => range_line(v@.subrange(lo as int, hi as int)) == Some(range_view(x)),
            None => range_line(v@.subrange(lo as int, hi as int)) is None,
        },
{
    let ghost line = v@.subrange(lo as int, hi as int);
    let sp1 = first_index(v, lo, hi, ' ');
    if sp1 == hi {
        return None;
    }
    let ghost rest = line.skip(sp1 - lo + 1);
    assert(rest =~= v@.subrange(sp1 + 1, hi as int));
    let sp2 = first_index(v, sp1 + 1, hi, ' ');
    if sp2 == hi {
        return None;
    }
    assert(line.take(sp1 - lo) =~= v@.subrange(lo as int, sp1 as int));
    assert(rest.take(sp2 - (sp1 + 1)) =~= v@.subrange(sp1 + 1, sp2 as int));
    assert(rest.skip(sp2 - (sp1 + 1) + 1) =~= v@.subrange(sp2 + 1, hi as int));
    let offset = match parse_u64(v, lo, sp1) {
        Some(n) => n,
        None => return None,
    };
    let length = match parse_u64(v, sp1 + 1, sp2) {
        Some(n) => n,
        None => return None,
    };
    if !(sp2 + 1 < hi && v[sp2 + 1] == '/') {
        proof {
            let path = v@.subrange(sp2 + 1, hi as int);
            if path.len() >= 1 {
                assert(path.take(1)[0] == v@[sp2 + 1]);
                assert(path.take(1) != seq!['/']);
            }
        }
        return None;
    }
    assert(v@.subrange(sp2 + 1, hi as int).take(1) =~= seq!['/']);
    if length == 0 || length > MAX_RANGE_BYTES {
        return None;
    }
    Some(Range { path: string_of_range(v, sp2 + 1, hi), offset, length })
}

/// One range as a list writes it: "offset length path".
pub open spec fn range_text(r: (Seq<char>, u64, u64)) -> Seq<char> {
    decimal(r.1 as nat) + seq![' '] + decimal(r.2 as nat) + seq![' '] + r.0
}

/// Each range on a line of its own.
pub open spec fn lines_text(rs: Seq<(Seq<char>, u64, u64)>) -> Seq<char>
    decreases rs.len(),
{
    if rs.len() == 0 {
        Seq::empty()
    } else {
        range_text(rs[0]) + seq!['\n'] + lines_text(rs.drop_first())
    }
}

/// The list a recording writes: its header, the line naming the shell it was recorded from, then
/// each range.
pub open spec fn list_text(shell: Seq<char>, rs: Seq<(Seq<char>, u64, u64)>) -> Seq<char> {
    HEADER@ + seq!['\n'] + shell + seq!['\n'] + lines_text(rs)
}

/// The text of the list a recording writes; `shell` names the shell it was recorded from.
pub fn list_text_of(shell: &str, ranges: &[Range]) -> (r: String)
    ensures
        r@ == list_text(shell@, ranges_view(ranges@)),
{
    let mut out = String::new();
    push_str(&mut out, HEADER);
    crate::text::push_char(&mut out, '\n');
    push_str(&mut out, shell);
    crate::text::push_char(&mut out, '\n');
    let ghost start = out@;
    let ghost rv = ranges_view(ranges@);
    let mut k: usize = 0;
    proof {
        lemma_lines_split(rv, 0);
    }
    assert(out@ =~= start + lines_text(rv.take(0)));
    while k < ranges.len()
        invariant
            k <= ranges.len(),
            rv == ranges_view(ranges@),
            out@ == start + lines_text(rv.take(k as int)),
        decreases ranges.len() - k,
    {
        let ghost before = out@;
        push_decimal(&mut out, ranges[k].offset);
        crate::text::push_char(&mut out, ' ');
        push_decimal(&mut out, ranges[k].length);
        crate::text::push_char(&mut out, ' ');
        push_str(&mut out, ranges[k].path.as_str());
        crate::text::push_char(&mut out, '\n');
        proof {
            lemma_lines_split(rv, k as nat);
        }
        assert(out@ =~= start + lines_text(rv.take(k + 1)));
        k = k + 1;
    }
    assert(rv.take(k as int) =~= rv);
    out
}

/// Adding a range adds its line after those before it.
proof fn lemma_lines_split(rs: Seq<(Seq<char>, u64, u64)>, k: nat)
    requires
        k < rs.len() || k == 0,
    ensures
        k < rs.len() ==> lines_text(rs.take(k + 1int)) == lines_text(rs.take(k as int)) + range_text(rs[k as int])
            + seq!['\n'],
        lines_text(rs.take(0)) == Seq::<char>::empty(),
    decreases k,
{
    assert(rs.take(0) =~= Seq::<(Seq<char>, u64, u64)>::empty());
    if k < rs.len() {
        if k == 0 {
            let one = rs.take(1);
            assert(one.drop_first() =~= Seq::<(Seq<char>, u64, u64)>::empty());
            assert(one[0] == rs[0]);
            assert(lines_text(one.drop_first()) == Seq::<char>::empty());
            assert(lines_text(one) == range_text(rs[0]) + seq!['\n'] + Seq::<char>::empty());
            assert(lines_text(one) =~= Seq::<char>::empty() + range_text(rs[0]) + seq!['\n']);
        } else {
            let d = rs.drop_first();
            lemma_lines_split(d, (k - 1) as nat);
            assert(rs.take(k + 1int).drop_first() =~= d.take(k as int));
            assert(rs.take(k as int).drop_first() =~= d.take(k - 1));
            assert(d[k - 1] == rs[k as int]);
            assert(lines_text(rs.take(k + 1int)) == range_text(rs[0]) + seq!['\n'] + lines_text(d.take(k as int)));
            assert(lines_text(rs.take(k as int)) == range_text(rs[0]) + seq!['\n'] + lines_text(d.take(k - 1)));
            assert(lines_text(rs.take(k + 1int)) =~= lines_text(rs.take(k as int)) + range_text(rs[k as int])
                + seq!['\n']);
        }
    }
}

/// A range the list can carry: an absolute path on one line, and a length the reader accepts.
pub open spec fn listable(r: (Seq<char>, u64, u64)) -> bool {
    &&& starts_with(r.0, seq!['/'])
    &&& r.0.last() != '\r'
    &&& forall|j: int| 0 <= j < r.0.len() ==> r.0[j] != '\n'
    &&& 0 < r.2 <= MAX_RANGE_BYTES
}

proof fn lemma_range_line_back(r: (Seq<char>, u64, u64))
    requires
        listable(r),
    ensures
        forall|j: int| 0 <= j < range_text(r).len() ==> range_text(r)[j] != '\n',
        range_text(r).last() != '\r',
        range_line(range_text(r)) == Some(r),
{
    let a = decimal(r.1 as nat);
    let b = decimal(r.2 as nat);
    crate::text::lemma_decimal_value(r.1 as nat);
    crate::text::lemma_decimal_value(r.2 as nat);
    let l = range_text(r);
    assert(l =~= a + seq![' '] + (b + seq![' '] + r.0));
    assert forall|j: int| 0 <= j < a.len() implies l[j] != ' ' by {
        assert(l[j] == a[j]);
        assert(crate::text::is_digit(a[j]));
    }
    assert(l[a.len() as int] == ' ');
    crate::keyfile::lemma_first_of(l, ' ', a.len() as int);
    let rest = l.skip(a.len() + 1int);
    assert(rest =~= b + seq![' '] + r.0);
    assert forall|j: int| 0 <= j < b.len() implies rest[j] != ' ' by {
        assert(rest[j] == b[j]);
        assert(crate::text::is_digit(b[j]));
    }
    assert(rest[b.len() as int] == ' ');
    crate::keyfile::lemma_first_of(rest, ' ', b.len() as int);
    assert(l.take(a.len() as int) =~= a);
    assert(rest.take(b.len() as int) =~= b);
    assert(rest.skip(b.len() + 1int) =~= r.0);
    assert(crate::text::is_digit(a[0]));
    assert(crate::text::is_digit(b[0]));
    assert(u64_text(a) == Some(r.1));
    assert(u64_text(b) == Some(r.2));
    assert forall|j: int| 0 <= j < l.len() implies l[j] != '\n' by {
        if j < a.len() {
            assert(l[j] == a[j]);
            assert(crate::text::is_digit(a[j]));
        } else if j == a.len() {
        } else if j < a.len() + 1 + b.len() {
            assert(l[j] == b[j - a.len() - 1]);
            assert(crate::text::is_digit(b[j - a.len() - 1]));
        } else if j == a.len() + 1 + b.len() {
        } else {
            assert(l[j] == r.0[j - a.len() - 2 - b.len()]);
        }
    }
    assert(l.last() == r.0.last());
}

#[verifier::rlimit(40)]
proof fn lemma_walk_back(rs: Seq<(Seq<char>, u64, u64)>, acc: Seq<(Seq<char>, u64, u64)>)
    requires
        acc.len() + rs.len() <= MAX_RANGES,
        forall|i: int| 0 <= i < rs.len() ==> listable(#[trigger] rs[i]),
    ensures
        list_walk(lines_text(rs), acc) == acc + rs,
    decreases rs.len(),
{
    if rs.len() == 0 {
        assert(lines_text(rs) == Seq::<char>::empty());
        assert(acc + rs =~= acc);
    } else {
        let r = rs[0];
        assert(listable(r));
        lemma_range_line_back(r);
        let l = range_text(r);
        let rest = lines_text(rs.drop_first());
        crate::keyfile::lemma_line_piece(l, rest);
        crate::keyfile::lemma_line_body(l);
        assert(lines_text(rs) == l + seq!['\n'] + rest);
        assert forall|i: int| 0 <= i < rs.drop_first().len() implies listable(#[trigger] rs.drop_first()[i]) by {
            assert(rs.drop_first()[i] == rs[i + 1]);
        }
        lemma_walk_back(rs.drop_first(), acc.push(r));
        assert(acc.push(r) + rs.drop_first() =~= acc + rs);
    }
}

/// A list a recording writes reads back as the ranges it was written with: the header is the
/// reader's, the shell's line is no range, and every range the list can carry comes back in order.
pub proof fn a_written_list_reads_back(shell: Seq<char>, rs: Seq<(Seq<char>, u64, u64)>)
    requires
        rs.len() <= MAX_RANGES,
        forall|i: int| 0 <= i < rs.len() ==> listable(#[trigger] rs[i]),
        forall|j: int| 0 <= j < shell.len() ==> shell[j] != '\n',
        shell.len() == 0 || shell.last() != '\r',
        range_line(shell) is None,
    ensures
        parsed_list(list_text(shell, rs)) == rs,
{
    reveal_strlit("flea-prefetch 2");
    let h = HEADER@;
    let after = shell + seq!['\n'] + lines_text(rs);
    assert(list_text(shell, rs) =~= h + seq!['\n'] + after);
    crate::keyfile::lemma_line_piece(h, after);
    crate::keyfile::lemma_line_body(h);
    crate::keyfile::lemma_line_piece(shell, lines_text(rs));
    crate::keyfile::lemma_line_body(shell);
    lemma_walk_back(rs, Seq::empty());
    assert(Seq::<(Seq<char>, u64, u64)>::empty() + rs =~= rs);
}

/// The line that names a shell: "shell <pid> <start time>", the start time telling a reused pid apart.
pub open spec fn shell_text(pid: u32, start: Seq<char>) -> Seq<char> {
    "shell "@ + decimal(pid as nat) + seq![' '] + start
}

pub fn shell_line(pid: u32, start: &str) -> (r: String)
    ensures
        r@ == shell_text(pid, start@),
{
    let mut out = String::new();
    push_str(&mut out, "shell ");
    push_decimal(&mut out, pid as u64);
    crate::text::push_char(&mut out, ' ');
    push_str(&mut out, start);
    out
}

/// The shell a list was recorded from: its second line, when the header is the reader's and that
/// line names a shell.
pub open spec fn recorded_shell(t: Seq<char>) -> Option<Seq<char>> {
    let rest = after_piece(t);
    let second = line_of(first_piece(rest));
    if t.len() > 0 && line_of(first_piece(t)) == HEADER@ && rest.len() > 0 && starts_with(second, "shell "@) {
        Some(second)
    } else {
        None
    }
}

pub fn recorded_by(text: &str) -> (r: Option<String>)
    ensures
        crate::chooser::opt_view(r) == recorded_shell(text@),
{
    let t = chars_of(text);
    if t.len() == 0 {
        return None;
    }
    let header = chars_of(HEADER);
    let first = next_piece(&t, 0);
    assert(t@.skip(0) =~= t@);
    if !range_eq(&t, 0, first.line_end, &header) || first.end >= t.len() {
        return None;
    }
    let second = next_piece(&t, first.end);
    let word = chars_of("shell ");
    if !crate::text::has_at(&t, second.start, second.line_end, &word) {
        return None;
    }
    Some(string_of_range(&t, second.start, second.line_end))
}

/// The shell line a list is written with is the one read back from it.
pub proof fn a_list_names_the_shell_it_was_recorded_from(shell: Seq<char>, rs: Seq<(Seq<char>, u64, u64)>)
    requires
        starts_with(shell, "shell "@),
        forall|j: int| 0 <= j < shell.len() ==> shell[j] != '\n',
        shell.last() != '\r',
    ensures
        recorded_shell(list_text(shell, rs)) == Some(shell),
{
    reveal_strlit("flea-prefetch 2");
    let h = HEADER@;
    let after = shell + seq!['\n'] + lines_text(rs);
    assert(list_text(shell, rs) =~= h + seq!['\n'] + after);
    crate::keyfile::lemma_line_piece(h, after);
    crate::keyfile::lemma_line_body(h);
    crate::keyfile::lemma_line_piece(shell, lines_text(rs));
    crate::keyfile::lemma_line_body(shell);
}

/// Sample input: "flea-prefetch 2\n0 32768 /usr/lib/libQt6Qml.so.6.11.2\n1048576 4096 /usr/share/fonts/a b.ttf\n"
pub fn parse_list(text: &str) -> (r: Vec<Range>)
    ensures
        ranges_view(r@) == parsed_list(text@),
{
    let t = chars_of(text);
    let header = chars_of(HEADER);
    let mut ranges: Vec<Range> = Vec::new();
    if t.len() == 0 {
        assert(ranges_view(ranges@) =~= Seq::<(Seq<char>, u64, u64)>::empty());
        return ranges;
    }
    let first = next_piece(&t, 0);
    assert(t@.skip(0) =~= t@);
    if !range_eq(&t, 0, first.line_end, &header) {
        assert(ranges_view(ranges@) =~= Seq::<(Seq<char>, u64, u64)>::empty());
        return ranges;
    }
    let mut i: usize = first.end;
    assert(ranges_view(ranges@) =~= Seq::<(Seq<char>, u64, u64)>::empty());
    while i < t.len() && ranges.len() < MAX_RANGES
        invariant
            i <= t.len(),
            ranges.len() <= MAX_RANGES,
            parsed_list(t@) == list_walk(t@.skip(i as int), ranges_view(ranges@)),
        decreases t.len() - i,
    {
        let p = next_piece(&t, i);
        match range_at(&t, p.start, p.line_end) {
            Some(x) => {
                let ghost before = ranges_view(ranges@);
                ranges.push(x);
                assert(ranges_view(ranges@) =~= before.push(range_view(x)));
            },
            None => {},
        }
        i = p.end;
    }
    proof {
        if i == t.len() {
            assert(t@.skip(i as int) =~= Seq::<char>::empty());
        }
    }
    ranges
}


/// What `u64::from_str_radix(s, 16)` reads: an optional `+`, then at least one hex digit, within u64.
pub open spec fn hex64(s: Seq<char>) -> Option<u64> {
    let d = if s.len() > 0 && s[0] == '+' {
        s.skip(1)
    } else {
        s
    };
    if d.len() > 0 && all_hex(d) && hex_value(d) <= u64::MAX {
        Some(hex_value(d) as u64)
    } else {
        None
    }
}

fn parse_hex64(v: &Vec<char>, lo: usize, hi: usize) -> (r: Option<u64>)
    requires
        lo <= hi <= v.len(),
    ensures
        r == hex64(v@.subrange(lo as int, hi as int)),
{
    let ghost s = v@.subrange(lo as int, hi as int);
    let mut a = lo;
    if lo < hi && v[lo] == '+' {
        a = lo + 1;
        assert(s.skip(1) =~= v@.subrange(a as int, hi as int));
    } else {
        assert(s =~= v@.subrange(a as int, hi as int));
    }
    let ghost d = v@.subrange(a as int, hi as int);
    if a == hi {
        return None;
    }
    let mut acc: u64 = 0;
    let mut k: usize = a;
    while k < hi
        invariant
            a <= k <= hi <= v.len(),
            d == v@.subrange(a as int, hi as int),
            s == v@.subrange(lo as int, hi as int),
            d == (if s.len() > 0 && s[0] == '+' {
                s.skip(1)
            } else {
                s
            }),
            acc == hex_value(v@.subrange(a as int, k as int)),
            all_hex(v@.subrange(a as int, k as int)),
        decreases hi - k,
    {
        let c = v[k];
        let h: u64 = if '0' <= c && c <= '9' {
            (c as u32 - '0' as u32) as u64
        } else if 'a' <= c && c <= 'f' {
            (c as u32 - 'a' as u32 + 10) as u64
        } else if 'A' <= c && c <= 'F' {
            (c as u32 - 'A' as u32 + 10) as u64
        } else {
            assert(!hex_digit(d[k - a]));
            return None;
        };
        let ghost pre = v@.subrange(a as int, k as int);
        let ghost next = v@.subrange(a as int, k + 1);
        assert(next.drop_last() =~= pre);
        assert(hex_digit(c));
        assert forall|q: int| 0 <= q < next.len() implies hex_digit(#[trigger] next[q]) by {
            if q < pre.len() {
                assert(next[q] == pre[q]);
            }
        }
        assert(d.take(k + 1 - a) =~= next);
        if acc > (u64::MAX - h) / 16 {
            proof {
                assert(hex_value(next) > u64::MAX);
                if all_hex(d) {
                    crate::vulkan::lemma_hex_grows(d, k + 1 - a);
                }
            }
            return None;
        }
        acc = acc * 16 + h;
        k = k + 1;
    }
    assert(d =~= v@.subrange(a as int, k as int));
    Some(acc)
}

/// The fields of a /proc/<pid>/maps line split at its first five spaces: the address span, the
/// offset, and everything after the inode, when the line has all six.
pub open spec fn maps_fields(line: Seq<char>) -> Option<(Seq<char>, Seq<char>, Seq<char>)> {
    let s1 = first_of(line, ' ');
    let r1 = line.skip(s1 + 1int);
    let s2 = first_of(r1, ' ');
    let r2 = r1.skip(s2 + 1int);
    let s3 = first_of(r2, ' ');
    let r3 = r2.skip(s3 + 1int);
    let s4 = first_of(r3, ' ');
    let r4 = r3.skip(s4 + 1int);
    let s5 = first_of(r4, ' ');
    if s1 < line.len() && s2 < r1.len() && s3 < r2.len() && s4 < r3.len() && s5 < r4.len() {
        Some((line.take(s1 as int), r2.take(s3 as int), r4.skip(s5 + 1int)))
    } else {
        None
    }
}

/// A mapped path the recording keeps: absolute, and not a file deleted since it was mapped.
pub open spec fn kept_path(path: Seq<char>) -> bool {
    starts_with(path, seq!['/']) && !ends_with(path, " (deleted)"@)
}

/// The start and end of an address span "start-end", both hex.
pub open spec fn span_of(span: Seq<char>) -> Option<(u64, u64)> {
    let dash = first_of(span, '-');
    let start = hex64(span.take(dash as int));
    let end = hex64(span.skip(dash + 1int));
    if dash < span.len() && start is Some && end is Some {
        Some((start->0, end->0))
    } else {
        None
    }
}

/// What the recording reads of a maps line that names a file still there: its path, the mapping's
/// start and end, and its offset in the file.
pub open spec fn maps_line(line: Seq<char>) -> Option<(Seq<char>, u64, u64, u64)> {
    match maps_fields(line) {
        Some((span, offset, rest)) => {
            let path = trim_start(rest);
            match (span_of(span), hex64(offset)) {
                (Some((start, end)), Some(off)) => if kept_path(path) {
                    Some((path, start, end, off))
                } else {
                    None
                },
                _ => None,
            }
        },
        None => None,
    }
}

/// A file mapping as the recording uses it: path, start, pages asked about, first file page.
pub open spec fn mapping_of(line: Seq<char>, page: u64) -> Option<(Seq<char>, u64, u64, u64)> {
    match maps_line(line) {
        Some((path, start, end, offset)) => {
            let spanned = if end >= start {
                ((end - start) / (page as int)) as u64
            } else {
                0u64
            };
            let cap = MAX_RANGE_BYTES / page;
            Some((path, start, if spanned < cap {
                spanned
            } else {
                cap
            }, offset / page))
        },
        None => None,
    }
}

struct Mapped {
    path: Vec<char>,
    start: u64,
    count: u64,
    first_page: u64,
}

spec fn mapped_view(m: Mapped) -> (Seq<char>, u64, u64, u64) {
    (m.path@, m.start, m.count, m.first_page)
}

spec fn mappeds_view(ms: Seq<Mapped>) -> Seq<(Seq<char>, u64, u64, u64)> {
    ms.map_values(|m: Mapped| mapped_view(m))
}

/// The bounds of the three fields a maps line is read for.
fn fields_at(v: &Vec<char>, lo: usize, hi: usize) -> (r: Option<(usize, usize, usize, usize)>)
    requires
        lo <= hi <= v.len(),
    ensures
        match r {
            Some((s1, o1, o2, p)) => lo <= s1 <= hi && lo <= o1 <= o2 <= hi && p <= hi && maps_fields(
                v@.subrange(lo as int, hi as int),
            ) == Some(
                (
                    v@.subrange(lo as int, s1 as int),
                    v@.subrange(o1 as int, o2 as int),
                    v@.subrange(p as int, hi as int),
                ),
            ),
            None => maps_fields(v@.subrange(lo as int, hi as int)) is None,
        },
{
    let ghost line = v@.subrange(lo as int, hi as int);
    let s1 = first_index(v, lo, hi, ' ');
    if s1 == hi {
        return None;
    }
    let ghost r1 = line.skip(s1 - lo + 1);
    assert(r1 =~= v@.subrange(s1 + 1, hi as int));
    let s2 = first_index(v, s1 + 1, hi, ' ');
    if s2 == hi {
        return None;
    }
    let ghost r2 = r1.skip(s2 - (s1 + 1) + 1);
    assert(r2 =~= v@.subrange(s2 + 1, hi as int));
    let s3 = first_index(v, s2 + 1, hi, ' ');
    if s3 == hi {
        return None;
    }
    let ghost r3 = r2.skip(s3 - (s2 + 1) + 1);
    assert(r3 =~= v@.subrange(s3 + 1, hi as int));
    let s4 = first_index(v, s3 + 1, hi, ' ');
    if s4 == hi {
        return None;
    }
    let ghost r4 = r3.skip(s4 - (s3 + 1) + 1);
    assert(r4 =~= v@.subrange(s4 + 1, hi as int));
    let s5 = first_index(v, s4 + 1, hi, ' ');
    if s5 == hi {
        return None;
    }
    assert(r4.skip(s5 - (s4 + 1) + 1) =~= v@.subrange(s5 + 1, hi as int));
    assert(line.take(s1 - lo) =~= v@.subrange(lo as int, s1 as int));
    assert(r2.take(s3 - (s2 + 1)) =~= v@.subrange(s2 + 1, s3 as int));
    Some((s1, s2 + 1, s3, s5 + 1))
}

/// Where the kept path of `v[lo..hi]` starts once leading whitespace is skipped, when it is kept.
fn kept_path_at(v: &Vec<char>, lo: usize, hi: usize) -> (r: Option<usize>)
    requires
        lo <= hi <= v.len(),
    ensures
        match r {
            Some(p) => lo <= p <= hi && v@.subrange(p as int, hi as int) == trim_start(
                v@.subrange(lo as int, hi as int),
            ) && kept_path(v@.subrange(p as int, hi as int)),
            None => !kept_path(trim_start(v@.subrange(lo as int, hi as int))),
        },
{
    let p = crate::text::skip_ws(v, lo, hi);
    let ghost path = v@.subrange(p as int, hi as int);
    if !(p < hi && v[p] == '/') {
        proof {
            if path.len() >= 1 {
                assert(path.take(1)[0] == v@[p as int]);
                assert(path.take(1) != seq!['/']);
            }
        }
        return None;
    }
    assert(path.take(1) =~= seq!['/']);
    let deleted = chars_of(" (deleted)");
    assert(deleted@.len() == 10) by {
        reveal_strlit(" (deleted)");
    }
    if hi - p >= 10 && crate::text::has_at(v, hi - 10, hi, &deleted) {
        assert(path.skip(path.len() - 10) =~= v@.subrange(hi - 10, hi as int));
        assert(v@.subrange(hi - 10, hi as int).take(10) =~= v@.subrange(hi - 10, hi as int));
        return None;
    }
    proof {
        if path.len() >= 10 {
            assert(path.skip(path.len() - 10) =~= v@.subrange(hi - 10, hi as int));
            assert(v@.subrange(hi - 10, hi as int).take(10) =~= v@.subrange(hi - 10, hi as int));
        }
    }
    Some(p)
}

fn span_at(v: &Vec<char>, lo: usize, hi: usize) -> (r: Option<(u64, u64)>)
    requires
        lo <= hi <= v.len(),
    ensures
        r == span_of(v@.subrange(lo as int, hi as int)),
{
    let ghost span = v@.subrange(lo as int, hi as int);
    let dash = first_index(v, lo, hi, '-');
    if dash == hi {
        return None;
    }
    assert(span.take(dash - lo) =~= v@.subrange(lo as int, dash as int));
    assert(span.skip(dash - lo + 1) =~= v@.subrange(dash + 1, hi as int));
    let start = match parse_hex64(v, lo, dash) {
        Some(n) => n,
        None => return None,
    };
    let end = match parse_hex64(v, dash + 1, hi) {
        Some(n) => n,
        None => return None,
    };
    Some((start, end))
}

fn mapping_at(v: &Vec<char>, lo: usize, hi: usize, page: u64) -> (r: Option<Mapped>)
    requires
        lo <= hi <= v.len(),
        page > 0,
    ensures
        match r {
            Some(m) => mapping_of(v@.subrange(lo as int, hi as int), page) == Some(mapped_view(m)),
            None => mapping_of(v@.subrange(lo as int, hi as int), page) is None,
        },
{
    let (s1, o1, o2, rest) = match fields_at(v, lo, hi) {
        Some(f) => f,
        None => return None,
    };
    let p = match kept_path_at(v, rest, hi) {
        Some(p) => p,
        None => return None,
    };
    let (start, end) = match span_at(v, lo, s1) {
        Some(se) => se,
        None => return None,
    };
    let offset = match parse_hex64(v, o1, o2) {
        Some(n) => n,
        None => return None,
    };
    let spanned: u64 = if end >= start {
        (end - start) / page
    } else {
        0
    };
    let cap: u64 = MAX_RANGE_BYTES / page;
    let count: u64 = if spanned < cap {
        spanned
    } else {
        cap
    };
    let mut path_chars: Vec<char> = Vec::new();
    let mut k: usize = p;
    while k < hi
        invariant
            p <= k <= hi <= v.len(),
            path_chars@ == v@.subrange(p as int, k as int),
        decreases hi - k,
    {
        path_chars.push(v[k]);
        assert(path_chars@ =~= v@.subrange(p as int, k + 1));
        k = k + 1;
    }
    Some(Mapped { path: path_chars, start, count, first_page: offset / page })
}

/// The file mappings of the lines after `acc`, in the order the maps text lists them.
pub open spec fn maps_walk(t: Seq<char>, page: u64, acc: Seq<(Seq<char>, u64, u64, u64)>) -> Seq<
    (Seq<char>, u64, u64, u64),
>
    decreases t.len(),
{
    if t.len() == 0 {
        acc
    } else {
        match mapping_of(line_of(first_piece(t)), page) {
            Some(m) => maps_walk(after_piece(t), page, acc.push(m)),
            None => maps_walk(after_piece(t), page, acc),
        }
    }
}

pub open spec fn mappings_of(maps: Seq<char>, page: u64) -> Seq<(Seq<char>, u64, u64, u64)> {
    maps_walk(maps, page, Seq::empty())
}

fn mappings(maps: &str, page: u64) -> (r: Vec<Mapped>)
    requires
        page > 0,
    ensures
        mappeds_view(r@) == mappings_of(maps@, page),
{
    let t = chars_of(maps);
    let mut out: Vec<Mapped> = Vec::new();
    let mut i: usize = 0;
    assert(t@.skip(0) =~= t@);
    assert(mappeds_view(out@) =~= Seq::<(Seq<char>, u64, u64, u64)>::empty());
    while i < t.len()
        invariant
            i <= t.len(),
            page > 0,
            t@ == maps@,
            mappings_of(maps@, page) == maps_walk(t@.skip(i as int), page, mappeds_view(out@)),
        decreases t.len() - i,
    {
        let p = next_piece(&t, i);
        match mapping_at(&t, p.start, p.line_end, page) {
            Some(m) => {
                let ghost before = mappeds_view(out@);
                out.push(m);
                assert(mappeds_view(out@) =~= before.push(mapped_view(m)));
            },
            None => {},
        }
        i = p.end;
    }
    assert(t@.skip(i as int) =~= Seq::<char>::empty());
    out
}

/// Strictly ascending, so with nothing twice.
pub open spec fn ascending(q: Seq<u64>) -> bool {
    forall|i: int, j: int| 0 <= i < j < q.len() ==> q[i] < q[j]
}

/// A set of pages in ascending order.
pub open spec fn sorted_pages(s: Set<u64>) -> Seq<u64> {
    choose|q: Seq<u64>| ascending(q) && q.to_set() == s
}

/// Consecutive pages grouped into runs, each its first and last page, in the order the pages come.
pub open spec fn runs(q: Seq<u64>) -> Seq<(u64, u64)>
    decreases q.len(),
{
    if q.len() == 0 {
        Seq::empty()
    } else {
        let r = runs(q.drop_last());
        let p = q.last();
        if r.len() > 0 && r.last().1 + 1 == p {
            r.update(r.len() - 1, (r.last().0, p))
        } else {
            r.push((p, p))
        }
    }
}

/// The file pages a mapping had in memory: one answer per page asked about, from its first file page on.
/// A page whose end lies past u64::MAX bytes has no offset the list could hold, and is left out.
pub open spec fn present_pages(first_page: u64, ans: Seq<bool>, page: u64) -> Set<u64> {
    Set::new(
        |p: u64| first_page <= p < first_page + ans.len() && ans[p - first_page] && p < u64::MAX / page,
    )
}

proof fn lemma_tail_set(p: Seq<u64>)
    requires
        ascending(p),
        p.len() > 0,
    ensures
        p.drop_first().to_set() == p.to_set().remove(p[0]),
{
    let d = p.drop_first();
    assert forall|x: u64| d.to_set().contains(x) <==> p.to_set().remove(p[0]).contains(x) by {
        if d.to_set().contains(x) {
            let k = choose|k: int| 0 <= k < d.len() && d[k] == x;
            assert(p[k + 1] == x);
            assert(p.contains(x));
        }
        if p.to_set().remove(p[0]).contains(x) {
            let k = choose|k: int| 0 <= k < p.len() && p[k] == x;
            assert(k != 0);
            assert(d[k - 1] == x);
            assert(d.contains(x));
        }
    }
    assert(d.to_set() =~= p.to_set().remove(p[0]));
}

/// Two ascending sequences of the same pages are the same sequence.
proof fn lemma_ascending_unique(p: Seq<u64>, q: Seq<u64>)
    requires
        ascending(p),
        ascending(q),
        p.to_set() == q.to_set(),
    ensures
        p == q,
    decreases p.len(),
{
    if p.len() == 0 {
        if q.len() > 0 {
            assert(q.contains(q[0]));
            assert(q.to_set().contains(q[0]));
            assert(p.to_set().contains(q[0]));
        }
        assert(p =~= q);
    } else {
        assert(p.contains(p[0]));
        assert(q.to_set().contains(p[0]));
        let kq = choose|k: int| 0 <= k < q.len() && q[k] == p[0];
        assert(q.contains(q[0]));
        assert(p.to_set().contains(q[0]));
        let kp = choose|k: int| 0 <= k < p.len() && p[k] == q[0];
        assert(p[0] == q[0]) by {
            if kq > 0 {
                assert(q[0] < q[kq]);
            }
            if kp > 0 {
                assert(p[0] < p[kp]);
            }
        }
        lemma_tail_set(p);
        lemma_tail_set(q);
        assert(ascending(p.drop_first()));
        assert(ascending(q.drop_first()));
        lemma_ascending_unique(p.drop_first(), q.drop_first());
        assert(p =~= q) by {
            assert forall|i: int| 0 <= i < p.len() implies p[i] == q[i] by {
                if i > 0 {
                    assert(p[i] == p.drop_first()[i - 1]);
                    assert(q[i] == q.drop_first()[i - 1]);
                }
            }
        }
    }
}

/// An ascending sequence is the sorted form of its own pages.
proof fn lemma_sorted_is(q: Seq<u64>)
    requires
        ascending(q),
    ensures
        sorted_pages(q.to_set()) == q,
{
    let c = sorted_pages(q.to_set());
    assert(ascending(c) && c.to_set() == q.to_set());
    lemma_ascending_unique(c, q);
}

/// Every run starts no later than it ends, and ends below a bound every page is below.
proof fn lemma_runs_bounded(q: Seq<u64>, bound: int)
    requires
        forall|k: int| 0 <= k < q.len() ==> q[k] < bound,
    ensures
        forall|i: int| 0 <= i < runs(q).len() ==> (#[trigger] runs(q)[i]).0 <= runs(q)[i].1 < bound,
    decreases q.len(),
{
    if q.len() > 0 {
        let d = q.drop_last();
        lemma_runs_bounded(d, bound);
        let r = runs(d);
        let p = q.last();
        assert(p < bound);
        if r.len() > 0 && r.last().1 + 1 == p {
            let u = r.update(r.len() - 1, (r.last().0, p));
            assert(runs(q) == u);
            assert forall|i: int| 0 <= i < u.len() implies (#[trigger] u[i]).0 <= u[i].1 < bound by {
                if i < u.len() - 1 {
                    assert(u[i] == r[i]);
                } else {
                    assert(r[r.len() - 1].0 <= r[r.len() - 1].1);
                }
            }
        } else {
            let u = r.push((p, p));
            assert(runs(q) == u);
            assert forall|i: int| 0 <= i < u.len() implies (#[trigger] u[i]).0 <= u[i].1 < bound by {
                if i < u.len() - 1 {
                    assert(u[i] == r[i]);
                }
            }
        }
    }
}

/// The pages the answers mark present, in ascending order.
fn answered_pages(first_page: u64, ans: &Vec<bool>, page: u64) -> (r: Vec<u64>)
    requires
        page > 0,
    ensures
        ascending(r@),
        r@.to_set() == present_pages(first_page, ans@, page),
        forall|k: int| 0 <= k < r.len() ==> r@[k] < u64::MAX / page,
{
    let limit: u64 = u64::MAX / page;
    let mut r: Vec<u64> = Vec::new();
    let mut k: usize = 0;
    assert(r@.to_set() =~= present_pages(first_page, ans@.take(0), page));
    while k < ans.len()
        invariant
            k <= ans.len(),
            page > 0,
            limit == u64::MAX / page,
            ascending(r@),
            r@.to_set() == present_pages(first_page, ans@.take(k as int), page),
            forall|i: int| 0 <= i < r.len() ==> first_page <= #[trigger] r@[i] < first_page + k,
            forall|i: int| 0 <= i < r.len() ==> #[trigger] r@[i] < limit,
        decreases ans.len() - k,
    {
        let ghost before = r@;
        if ans[k] && first_page < limit && (k as u64) < limit - first_page {
            let p: u64 = first_page + k as u64;
            r.push(p);
            proof {
                before.lemma_push_to_set_commute(p);
            }
        }
        assert(r@.to_set() =~= present_pages(first_page, ans@.take(k + 1), page));
        k = k + 1;
    }
    assert(ans@.take(k as int) =~= ans@);
    r
}

/// The pages of two ascending lists, ascending, each once.
fn merge_pages(a: &Vec<u64>, b: &Vec<u64>) -> (r: Vec<u64>)
    requires
        ascending(a@),
        ascending(b@),
    ensures
        ascending(r@),
        r@.to_set() == a@.to_set().union(b@.to_set()),
{
    let mut r: Vec<u64> = Vec::new();
    let mut i: usize = 0;
    let mut j: usize = 0;
    assert(r@.to_set() =~= a@.take(0).to_set().union(b@.take(0).to_set()));
    while i < a.len() || j < b.len()
        invariant
            i <= a.len(),
            j <= b.len(),
            ascending(a@),
            ascending(b@),
            ascending(r@),
            r@.to_set() == a@.take(i as int).to_set().union(b@.take(j as int).to_set()),
            forall|x: int, y: int| 0 <= x < r.len() && i <= y < a.len() ==> r@[x] < a@[y],
            forall|x: int, y: int| 0 <= x < r.len() && j <= y < b.len() ==> r@[x] < b@[y],
        decreases a.len() - i + b.len() - j,
    {
        let ghost before = r@;
        let ghost ai = a@.take(i as int);
        let ghost bj = b@.take(j as int);
        if j == b.len() || (i < a.len() && a[i] < b[j]) {
            let x = a[i];
            r.push(x);
            proof {
                before.lemma_push_to_set_commute(x);
                ai.lemma_push_to_set_commute(x);
                assert(a@.take(i + 1) =~= ai.push(x));
                assert(r@.to_set() =~= a@.take(i + 1).to_set().union(bj.to_set()));
            }
            i = i + 1;
        } else if i == a.len() || b[j] < a[i] {
            let x = b[j];
            r.push(x);
            proof {
                before.lemma_push_to_set_commute(x);
                bj.lemma_push_to_set_commute(x);
                assert(b@.take(j + 1) =~= bj.push(x));
                assert(r@.to_set() =~= ai.to_set().union(b@.take(j + 1).to_set()));
            }
            j = j + 1;
        } else {
            let x = a[i];
            r.push(x);
            proof {
                before.lemma_push_to_set_commute(x);
                ai.lemma_push_to_set_commute(x);
                bj.lemma_push_to_set_commute(x);
                assert(a@.take(i + 1) =~= ai.push(x));
                assert(b@.take(j + 1) =~= bj.push(x));
                assert(r@.to_set() =~= a@.take(i + 1).to_set().union(b@.take(j + 1).to_set()));
            }
            i = i + 1;
            j = j + 1;
        }
    }
    assert(a@.take(i as int) =~= a@);
    assert(b@.take(j as int) =~= b@);
    r
}

/// The runs of an ascending page list.
fn runs_of(q: &Vec<u64>) -> (r: Vec<(u64, u64)>)
    ensures
        r@ == runs(q@),
{
    let mut out: Vec<(u64, u64)> = Vec::new();
    let mut k: usize = 0;
    assert(q@.take(0) =~= Seq::<u64>::empty());
    while k < q.len()
        invariant
            k <= q.len(),
            out@ == runs(q@.take(k as int)),
        decreases q.len() - k,
    {
        let p = q[k];
        assert(q@.take(k + 1).drop_last() =~= q@.take(k as int));
        let n = out.len();
        if n > 0 && p > 0 && out[n - 1].1 == p - 1 {
            let first = out[n - 1].0;
            out.set(n - 1, (first, p));
        } else {
            out.push((p, p));
        }
        k = k + 1;
    }
    assert(q@.take(k as int) =~= q@);
    out
}

/// The index of the first file named `path`, or the count of files when none is.
pub open spec fn file_index(files: Seq<(Seq<char>, Set<u64>)>, path: Seq<char>) -> nat
    decreases files.len(),
{
    if files.len() == 0 {
        0
    } else if files[0].0 == path {
        0
    } else {
        1 + file_index(files.drop_first(), path)
    }
}

proof fn lemma_file_index(files: Seq<(Seq<char>, Set<u64>)>, path: Seq<char>, k: int)
    requires
        0 <= k <= files.len(),
        forall|j: int| 0 <= j < k ==> (#[trigger] files[j]).0 != path,
        k == files.len() || files[k].0 == path,
    ensures
        file_index(files, path) == k,
    decreases k,
{
    if k > 0 {
        let d = files.drop_first();
        assert forall|j: int| 0 <= j < k - 1 implies (#[trigger] d[j]).0 != path by {
            assert(d[j] == files[j + 1]);
        }
        lemma_file_index(d, path, k - 1);
    }
}

/// Files in the order the shell first mapped them, each with every page any of its first `n`
/// mappings had present.
pub open spec fn files_of(ms: Seq<(Seq<char>, u64, u64, u64)>, ans: Seq<Seq<bool>>, page: u64, n: nat) -> Seq<
    (Seq<char>, Set<u64>),
>
    decreases n,
{
    if n == 0 {
        Seq::empty()
    } else {
        let f = files_of(ms, ans, page, (n - 1) as nat);
        let m = ms[n - 1];
        let pages = present_pages(m.3, ans[n - 1], page);
        let k = file_index(f, m.0);
        if k < f.len() {
            f.update(k as int, (m.0, f[k as int].1.union(pages)))
        } else {
            f.push((m.0, pages))
        }
    }
}

/// One file's ranges: each run of its pages, as an offset and a length in bytes.
pub open spec fn file_ranges(path: Seq<char>, pages: Set<u64>, page: u64) -> Seq<(Seq<char>, u64, u64)> {
    runs(sorted_pages(pages)).map_values(
        |r: (u64, u64)| (path, (r.0 * page) as u64, ((r.1 + 1 - r.0) * page) as u64),
    )
}

/// The ranges of the first `n` files, file after file.
pub open spec fn all_ranges(files: Seq<(Seq<char>, Set<u64>)>, page: u64, n: nat) -> Seq<
    (Seq<char>, u64, u64),
>
    decreases n,
{
    if n == 0 {
        Seq::empty()
    } else {
        all_ranges(files, page, (n - 1) as nat) + file_ranges(files[n - 1].0, files[n - 1].1, page)
    }
}

/// What a recording lists: every file's ranges, files in the order they were first mapped, capped at
/// MAX_RANGES.
pub open spec fn recorded(ms: Seq<(Seq<char>, u64, u64, u64)>, ans: Seq<Seq<bool>>, page: u64) -> Seq<
    (Seq<char>, u64, u64),
> {
    let files = files_of(ms, ans, page, ms.len());
    let all = all_ranges(files, page, files.len());
    if all.len() > MAX_RANGES {
        all.take(MAX_RANGES as int)
    } else {
        all
    }
}

pub open spec fn answers_view(ans: Seq<Vec<bool>>) -> Seq<Seq<bool>> {
    ans.map_values(|a: Vec<bool>| a@)
}

spec fn files_view(paths: Seq<Vec<char>>, pages: Seq<Vec<u64>>) -> Seq<(Seq<char>, Set<u64>)> {
    Seq::new(paths.len(), |j: int| (paths[j]@, pages[j]@.to_set()))
}

proof fn lemma_fits(x: int, page: int)
    requires
        0 <= x <= (u64::MAX as int) / page,
        page > 0,
    ensures
        x * page <= u64::MAX,
{
    let m = u64::MAX as int;
    assert(x * page <= (m / page) * page) by (nonlinear_arith)
        requires
            0 <= x <= m / page,
            page > 0,
    ;
    assert((m / page) * page <= m) by (nonlinear_arith)
        requires
            page > 0,
            m >= 0,
    ;
}

fn same_chars(a: &Vec<char>, b: &Vec<char>) -> (r: bool)
    ensures
        r == (a@ == b@),
{
    assert(a@.subrange(0, a.len() as int) =~= a@);
    range_eq(a, 0, a.len(), b)
}

fn copy_chars(v: &Vec<char>) -> (r: Vec<char>)
    ensures
        r@ == v@,
{
    let mut r: Vec<char> = Vec::new();
    let mut k: usize = 0;
    while k < v.len()
        invariant
            k <= v.len(),
            r@ == v@.take(k as int),
        decreases v.len() - k,
    {
        r.push(v[k]);
        assert(r@ =~= v@.take(k + 1));
        k = k + 1;
    }
    assert(v@.take(k as int) =~= v@);
    r
}

/// Appends the ranges of one file whose pages are `q`, ascending.
fn push_file_ranges(out: &mut Vec<Range>, path: &Vec<char>, q: &Vec<u64>, page: u64)
    requires
        page > 0,
        ascending(q@),
        forall|k: int| 0 <= k < q.len() ==> q@[k] < u64::MAX / page,
    ensures
        ranges_view(final(out)@) == ranges_view(old(out)@) + file_ranges(path@, q@.to_set(), page),
{
    let rs = runs_of(q);
    proof {
        lemma_sorted_is(q@);
        lemma_runs_bounded(q@, (u64::MAX / page) as int);
    }
    let ghost start = ranges_view(out@);
    let ghost want = file_ranges(path@, q@.to_set(), page);
    let mut k: usize = 0;
    assert(want.take(0) =~= Seq::<(Seq<char>, u64, u64)>::empty());
    assert(start + want.take(0) =~= start);
    while k < rs.len()
        invariant
            k <= rs.len(),
            page > 0,
            rs@ == runs(q@),
            sorted_pages(q@.to_set()) == q@,
            want == file_ranges(path@, q@.to_set(), page),
            want.len() == rs.len(),
            forall|i: int| 0 <= i < rs.len() ==> (#[trigger] rs@[i]).0 <= rs@[i].1 < u64::MAX / page,
            ranges_view(out@) == start + want.take(k as int),
        decreases rs.len() - k,
    {
        let (a, b) = rs[k];
        assert(rs@[k as int] == (a, b));
        proof {
            lemma_fits(a as int, page as int);
            lemma_fits(b + 1 - a, page as int);
        }
        let offset: u64 = a * page;
        let length: u64 = (b + 1 - a) * page;
        let ghost before = ranges_view(out@);
        let r = Range { path: string_of_range(path, 0, path.len()), offset, length };
        assert(path@.subrange(0, path.len() as int) =~= path@);
        out.push(r);
        assert(runs(sorted_pages(q@.to_set()))[k as int] == (a, b));
        assert(want[k as int] == range_view(r));
        assert(ranges_view(out@) =~= before.push(range_view(r)));
        assert(want.take(k + 1) =~= want.take(k as int).push(want[k as int]));
        k = k + 1;
    }
    assert(want.take(k as int) =~= want);
}

/// The recording's ranges from the maps' file mappings and the pages each had present.
fn record(ms: &Vec<Mapped>, ans: &Vec<Vec<bool>>, page: u64) -> (r: Vec<Range>)
    requires
        page > 0,
        ms.len() == ans.len(),
    ensures
        ranges_view(r@) == recorded(mappeds_view(ms@), answers_view(ans@), page),
{
    let ghost msv = mappeds_view(ms@);
    let ghost av = answers_view(ans@);
    let limit: u64 = u64::MAX / page;
    let mut paths: Vec<Vec<char>> = Vec::new();
    let mut pages: Vec<Vec<u64>> = Vec::new();
    let mut i: usize = 0;
    assert(files_view(paths@, pages@) =~= files_of(msv, av, page, 0));
    while i < ms.len()
        invariant
            i <= ms.len(),
            ms.len() == ans.len(),
            page > 0,
            limit == u64::MAX / page,
            msv == mappeds_view(ms@),
            av == answers_view(ans@),
            paths.len() == pages.len(),
            forall|j: int| 0 <= j < pages.len() ==> ascending(#[trigger] pages@[j]@),
            forall|j: int, k: int|
                0 <= j < pages.len() && 0 <= k < pages@[j].len() ==> #[trigger] pages@[j]@[k] < limit,
            files_view(paths@, pages@) == files_of(msv, av, page, i as nat),
        decreases ms.len() - i,
    {
        let m = &ms[i];
        let fresh = answered_pages(m.first_page, &ans[i], page);
        let ghost f = files_view(paths@, pages@);
        let mut j: usize = 0;
        while j < paths.len() && !same_chars(&paths[j], &m.path)
            invariant
                j <= paths.len(),
                f == files_view(paths@, pages@),
                forall|q: int| 0 <= q < j ==> (#[trigger] f[q]).0 != m.path@,
            decreases paths.len() - j,
        {
            j = j + 1;
        }
        proof {
            lemma_file_index(f, m.path@, j as int);
            assert(msv[i as int] == mapped_view(*m));
            assert(av[i as int] == ans@[i as int]@);
        }
        if j < paths.len() {
            let merged = merge_pages(&pages[j], &fresh);
            proof {
                assert forall|k: int| 0 <= k < merged.len() implies merged@[k] < limit by {
                    assert(merged@.contains(merged@[k]));
                    assert(merged@.to_set().contains(merged@[k]));
                    if pages@[j as int]@.to_set().contains(merged@[k]) {
                        let x = choose|x: int| 0 <= x < pages@[j as int]@.len() && pages@[j as int]@[x] == merged@[k];
                        assert(pages@[j as int]@[x] < limit);
                    } else {
                        assert(fresh@.to_set().contains(merged@[k]));
                        let x = choose|x: int| 0 <= x < fresh@.len() && fresh@[x] == merged@[k];
                    }
                }
            }
            pages.set(j, merged);
            assert(files_view(paths@, pages@) =~= f.update(j as int, (m.path@, f[j as int].1.union(fresh@.to_set()))));
        } else {
            paths.push(copy_chars(&m.path));
            pages.push(fresh);
            assert(files_view(paths@, pages@) =~= f.push((m.path@, fresh@.to_set())));
        }
        i = i + 1;
    }
    let ghost fv = files_view(paths@, pages@);
    let mut out: Vec<Range> = Vec::new();
    let mut j: usize = 0;
    assert(ranges_view(out@) =~= all_ranges(fv, page, 0));
    while j < paths.len()
        invariant
            j <= paths.len(),
            paths.len() == pages.len(),
            page > 0,
            limit == u64::MAX / page,
            fv == files_view(paths@, pages@),
            forall|q: int| 0 <= q < pages.len() ==> ascending(#[trigger] pages@[q]@),
            forall|q: int, k: int|
                0 <= q < pages.len() && 0 <= k < pages@[q].len() ==> #[trigger] pages@[q]@[k] < limit,
            ranges_view(out@) == all_ranges(fv, page, j as nat),
        decreases paths.len() - j,
    {
        assert(ascending(pages@[j as int]@));
        assert forall|k: int| 0 <= k < pages[j as int].len() implies pages[j as int]@[k] < u64::MAX / page by {
            assert(pages@[j as int]@[k] < limit);
        }
        push_file_ranges(&mut out, &paths[j], &pages[j], page);
        j = j + 1;
    }
    out.truncate(MAX_RANGES);
    out
}

/// Sample input, one maps line: "7f3c1e200000-7f3c1e5b1000 r--p 00001000 00:1f 1234      /usr/lib/libQt6Qml.so.6.11.2"
///
/// The pages the shell has in memory, as the next launch's list: `present(start, count)` answers, for
/// the mapping that starts at `start`, one bit per page of the `count` pages asked about.
pub fn ranges_from<F: Fn(u64, u64) -> Vec<bool>>(maps: &str, page: u64, present: F) -> (r: Vec<Range>)
    requires
        page > 0,
        forall|start: u64, count: u64| call_requires(present, (start, count)),
    ensures
        exists|ans: Seq<Vec<bool>>|
            {
                &&& ans.len() == mappings_of(maps@, page).len()
                &&& forall|i: int|
                    0 <= i < ans.len() ==> call_ensures(
                        present,
                        (mappings_of(maps@, page)[i].1, mappings_of(maps@, page)[i].2),
                        #[trigger] ans[i],
                    )
                &&& ranges_view(r@) == recorded(mappings_of(maps@, page), answers_view(ans), page)
            },
{
    let ms = mappings(maps, page);
    let ghost msv = mappings_of(maps@, page);
    let mut answers: Vec<Vec<bool>> = Vec::new();
    let mut i: usize = 0;
    while i < ms.len()
        invariant
            i <= ms.len(),
            answers.len() == i,
            page > 0,
            mappeds_view(ms@) == msv,
            forall|start: u64, count: u64| call_requires(present, (start, count)),
            forall|q: int|
                0 <= q < i ==> call_ensures(present, (msv[q].1, msv[q].2), #[trigger] answers@[q]),
        decreases ms.len() - i,
    {
        let m = &ms[i];
        assert(msv[i as int] == mapped_view(*m));
        let a = present(m.start, m.count);
        answers.push(a);
        i = i + 1;
    }
    let r = record(&ms, &answers, page);
    assert(answers_view(answers@) == answers_view(answers@));
    assert(forall|q: int|
        0 <= q < answers@.len() ==> call_ensures(
            present,
            (mappings_of(maps@, page)[q].1, mappings_of(maps@, page)[q].2),
            #[trigger] answers@[q],
        ));
    r
}

/// Only the shell the launcher named records: the variable holds that shell's pid.
pub open spec fn names_shell(parent: u32, named: Option<Seq<char>>) -> bool {
    match named {
        Some(text) => u32_text(text) == Some(parent),
        None => false,
    }
}

pub fn is_launch_shell(parent: u32, named: Option<&str>) -> (r: bool)
    ensures
        r == names_shell(parent, opt_str_view(named)),
{
    match named {
        Some(text) => {
            let v = chars_of(text);
            assert(v@.subrange(0, v@.len() as int) =~= v@);
            match parse_u64(&v, 0, v.len()) {
                Some(n) => n <= 4294967295 && n == parent as u64,
                None => false,
            }
        },
        None => false,
    }
}

/// The index of the last `c`, when there is one.
pub open spec fn last_of(s: Seq<char>, c: char) -> Option<int>
    decreases s.len(),
{
    if s.len() == 0 {
        None
    } else if s.last() == c {
        Some(s.len() - 1)
    } else {
        last_of(s.drop_last(), c)
    }
}

/// Field 22 of a /proc/<pid>/stat line: the 20th word after the name's closing parenthesis.
pub open spec fn start_field(stat: Seq<char>) -> Option<Seq<char>> {
    match last_of(stat, ')') {
        Some(k) => {
            let w = crate::words::words(stat.skip(k + 1));
            if w.len() > 19 {
                Some(w[19])
            } else {
                None
            }
        },
        None => None,
    }
}

fn last_index(v: &Vec<char>, c: char) -> (r: Option<usize>)
    ensures
        match r {
            Some(k) => k < v.len() && last_of(v@, c) == Some(k as int),
            None => last_of(v@, c) is None,
        },
{
    let mut k: usize = v.len();
    assert(v@.take(k as int) =~= v@);
    while k > 0
        invariant
            k <= v.len(),
            last_of(v@, c) == last_of(v@.take(k as int), c),
        decreases k,
    {
        if v[k - 1] == c {
            return Some(k - 1);
        }
        assert(v@.take(k as int).drop_last() =~= v@.take(k - 1));
        k = k - 1;
    }
    None
}

/// The name may hold parentheses, so the fields are counted from its last closing one.
pub fn start_time(stat: &str) -> (r: Option<String>)
    ensures
        crate::chooser::opt_view(r) == start_field(stat@),
{
    let v = chars_of(stat);
    let k = match last_index(&v, ')') {
        Some(k) => k,
        None => return None,
    };
    let ws = crate::words::words_of(&v, k + 1, v.len());
    assert(v@.skip(k + 1) =~= v@.subrange(k + 1, v.len() as int));
    if ws.len() > 19 {
        let w = ws[19];
        assert(ws@[19] == w);
        Some(string_of_range(&v, w.0, w.1))
    } else {
        None
    }
}

pub open spec fn list_path_of(cache: Option<Seq<char>>, home: Option<Seq<char>>) -> Option<Seq<char>> {
    if chosen(cache) {
        Some(joined(cache->0, "flea/prefetch"@))
    } else if chosen(home) {
        Some(joined(joined(home->0, ".cache"@), "flea/prefetch"@))
    } else {
        None
    }
}

/// $XDG_CACHE_HOME/flea/prefetch, or $HOME/.cache/flea/prefetch, or None when there is no home to put it in.
pub fn list_path(xdg_cache_home: Option<&str>, home: Option<&str>) -> (r: Option<String>)
    ensures
        crate::chooser::opt_view(r) == list_path_of(opt_str_view(xdg_cache_home), opt_str_view(home)),
{
    if is_chosen(xdg_cache_home) {
        return Some(join(xdg_cache_home.unwrap(), "flea/prefetch"));
    }
    if is_chosen(home) {
        let cache = join(home.unwrap(), ".cache");
        return Some(join(cache.as_str(), "flea/prefetch"));
    }
    None
}


/// Which ranges of a list open their file: the first, and each whose file is not the one before it,
/// so a file read in several stretches is opened once for the run of them.
pub open spec fn opens_file(ranges: Seq<Range>, k: int) -> bool {
    k == 0 || ranges[k].path@ != ranges[k - 1].path@
}

pub fn file_opens(ranges: &[Range]) -> (r: Vec<bool>)
    ensures
        r@.len() == ranges@.len(),
        forall|k: int| 0 <= k < r@.len() ==> r@[k] == opens_file(ranges@, k),
{
    let mut r: Vec<bool> = Vec::new();
    let mut k: usize = 0;
    while k < ranges.len()
        invariant
            k <= ranges.len(),
            r@.len() == k,
            forall|j: int| 0 <= j < k ==> r@[j] == opens_file(ranges@, j),
        decreases ranges.len() - k,
    {
        let opens = if k == 0 {
            true
        } else {
            let a = chars_of(ranges[k].path.as_str());
            let b = chars_of(ranges[k - 1].path.as_str());
            assert(a@.subrange(0, a.len() as int) =~= a@);
            !crate::text::range_eq(&a, 0, a.len(), &b)
        };
        r.push(opens);
        k = k + 1;
    }
    r
}

} // verus!
