// The per-user step that routes the desktop's file chooser to Flea: the [preferred] group of portals.conf.
use crate::keyfile::{
    after_piece, first_of, first_piece, header_at, is_header, key_value, key_value_at, line_of,
    next_piece, piece_ok, strip_eol, trimmed_is, Piece,
};
use crate::text::{chars_of, contains, is_ws, push_all, push_range, push_str, range_eq, trim, trim_end, trim_start};
use vstd::prelude::*;

verus! {

/// The interface Flea's backend implements, and the only key in portals.conf that is Flea's to write.
pub const IFACE: &'static str = "org.freedesktop.impl.portal.FileChooser";

/// gtk stays behind flea, so a box whose flea.portal went missing still has a chooser at all.
pub const PREFERRED: &'static str = "flea;gtk";

pub const GROUP: &'static str = "[preferred]";

/// The comment Flea leaves above its line when it replaced another backend, so `off` can put that one back.
pub const REPLACED: &'static str = "# flea replaced: ";

pub const FLEA: &'static str = "flea";

/// The line a terminal run prints once the portal has been restarted.
pub const RESTARTED: &'static str = "xdg-desktop-portal restarted if it was running, so file dialogs follow now";

/// The line that tells the caller how to make the portal follow.
pub const AT_STARTUP: &'static str = "xdg-desktop-portal reads this at startup: systemctl --user restart xdg-desktop-portal";

pub open spec fn group() -> Seq<char> {
    GROUP@
}

pub open spec fn replaced() -> Seq<char> {
    REPLACED@
}

pub open spec fn flea() -> Seq<char> {
    FLEA@
}

/// The heading line of the one group Flea writes in.
pub open spec fn is_group(body: Seq<char>) -> bool {
    trim(body) == group()
}

/// `key=value` and a newline.
pub open spec fn kv_line(key: Seq<char>, value: Seq<char>) -> Seq<char> {
    key + seq!['='] + value + seq!['\n']
}

/// The note Flea leaves above its line, naming the backend it replaced.
pub open spec fn note_line(key: Seq<char>, had: Seq<char>) -> Seq<char> {
    replaced() + kv_line(key, had)
}

/// A REPLACED note for `key`.
pub open spec fn is_marker(body: Seq<char>, key: Seq<char>) -> bool {
    &&& body.len() >= replaced().len()
    &&& body.take(replaced().len() as int) == replaced()
    &&& key_value(body.skip(replaced().len() as int), key) is Some
}

/// Flea's own value, and the bare "flea" an earlier hand edit may have used: its first `;` field is `flea`.
pub open spec fn is_fleas(value: Seq<char>) -> bool {
    value.take(first_of(value, ';') as int) == flea()
}

/// The newline that ends an unterminated last line before more is appended.
pub open spec fn nl_if_needed(s: Seq<char>) -> Seq<char> {
    if s.len() > 0 && s.last() != '\n' {
        seq!['\n']
    } else {
        Seq::empty()
    }
}

/// What a line in a [preferred] group answers: its value for `key`, or, for a note, the value the note names.
pub open spec fn line_answer(body: Seq<char>, key: Seq<char>, note: bool) -> Option<Seq<char>> {
    if note {
        if body.len() >= replaced().len() && body.take(replaced().len() as int) == replaced() {
            key_value(body.skip(replaced().len() as int), key)
        } else {
            None
        }
    } else {
        key_value(body, key)
    }
}

/// The first answer among the lines `str::lines` yields that sit inside a [preferred] group.
pub open spec fn group_find(t: Seq<char>, key: Seq<char>, in_group: bool, note: bool) -> Option<
    Seq<char>,
>
    decreases t.len(),
{
    if t.len() == 0 {
        None
    } else {
        let body = line_of(first_piece(t));
        if is_header(body) {
            group_find(after_piece(t), key, is_group(body), note)
        } else if in_group && line_answer(body, key, note) is Some {
            line_answer(body, key, note)
        } else {
            group_find(after_piece(t), key, in_group, note)
        }
    }
}

/// The value `key` has in the [preferred] group of `t`.
pub open spec fn preferred_value_of(t: Seq<char>, key: Seq<char>) -> Option<Seq<char>> {
    group_find(t, key, false, false)
}

pub open spec fn prepend(p: Seq<char>, r: Option<(Seq<char>, bool)>) -> Option<(Seq<char>, bool)> {
    match r {
        Some((o, w)) => Some((p + o, w)),
        None => None,
    }
}

/// The claim, one piece at a time: `written` once Flea's line is in, `None` where the file already says it.
pub open spec fn claim_walk(
    t: Seq<char>,
    key: Seq<char>,
    value: Seq<char>,
    note: Option<Seq<char>>,
    keep: bool,
    in_group: bool,
    written: bool,
) -> Option<(Seq<char>, bool)>
    decreases t.len(),
{
    if t.len() == 0 {
        Some((Seq::empty(), written))
    } else {
        let raw = first_piece(t);
        let body = strip_eol(raw);
        let rest = after_piece(t);
        if is_header(body) {
            let pre = if in_group && !written {
                kv_line(key, value)
            } else {
                Seq::empty()
            };
            prepend(
                pre + raw,
                claim_walk(rest, key, value, note, keep, is_group(body), written || in_group),
            )
        } else if in_group && !keep && is_marker(body, key) {
            claim_walk(rest, key, value, note, keep, in_group, written)
        } else if in_group && !written && key_value(body, key) is Some {
            if key_value(body, key)->0 == value {
                None
            } else {
                let n = match note {
                    Some(h) => note_line(key, h),
                    None => Seq::empty(),
                };
                prepend(n + kv_line(key, value), claim_walk(rest, key, value, note, keep, in_group, true))
            }
        } else {
            prepend(raw, claim_walk(rest, key, value, note, keep, in_group, written))
        }
    }
}

/// The file with `key=value` in [preferred], or None when it already says exactly that.
pub open spec fn claimed(t: Seq<char>, key: Seq<char>, value: Seq<char>) -> Option<Seq<char>> {
    let line = kv_line(key, value);
    if !contains(t, group()) {
        Some(t + nl_if_needed(t) + group() + seq!['\n'] + line)
    } else {
        let had = preferred_value_of(t, key);
        let note = if had is Some && had->0 != value && !is_fleas(had->0) {
            had
        } else {
            None
        };
        let keep = had is Some && is_fleas(had->0);
        match claim_walk(t, key, value, note, keep, false, false) {
            None => None,
            Some((out, written)) => Some(
                if written {
                    out
                } else {
                    out + nl_if_needed(out) + line
                },
            ),
        }
    }
}

/// The undo, one piece at a time: Flea's line goes, or becomes the backend its note named.
pub open spec fn release_walk(
    t: Seq<char>,
    key: Seq<char>,
    restore: Option<Seq<char>>,
    in_group: bool,
    changed: bool,
) -> (Seq<char>, bool)
    decreases t.len(),
{
    if t.len() == 0 {
        (Seq::empty(), changed)
    } else {
        let raw = first_piece(t);
        let body = strip_eol(raw);
        let rest = after_piece(t);
        if is_header(body) {
            let (o, c) = release_walk(rest, key, restore, is_group(body), changed);
            (raw + o, c)
        } else if in_group && is_marker(body, key) {
            release_walk(rest, key, restore, in_group, changed)
        } else if in_group && key_value(body, key) is Some && is_fleas(key_value(body, key)->0) {
            let pre = match restore {
                Some(h) => kv_line(key, h),
                None => Seq::empty(),
            };
            let (o, c) = release_walk(rest, key, restore, in_group, true);
            (pre + o, c)
        } else {
            let (o, c) = release_walk(rest, key, restore, in_group, changed);
            (raw + o, c)
        }
    }
}

/// The file with Flea's line gone, or None when no line in [preferred] is Flea's.
pub open spec fn released(t: Seq<char>, key: Seq<char>) -> Option<Seq<char>> {
    let restore = group_find(t, key, false, true);
    let (out, changed) = release_walk(t, key, restore, false, false);
    if changed {
        Some(out)
    } else {
        None
    }
}

pub open spec fn opt_view(r: Option<String>) -> Option<Seq<char>> {
    match r {
        Some(s) => Some(s@),
        None => None,
    }
}

/// Whether `v[lo..hi]` is a REPLACED note for `key`.
fn marker_at(v: &Vec<char>, lo: usize, hi: usize, key: &Vec<char>, rep: &Vec<char>) -> (r: bool)
    requires
        lo <= hi <= v.len(),
        rep@ == replaced(),
    ensures
        r == is_marker(v@.subrange(lo as int, hi as int), key@),
{
    let ghost body = v@.subrange(lo as int, hi as int);
    if !crate::text::has_at(v, lo, hi, rep) {
        return false;
    }
    assert(body.skip(rep.len() as int) =~= v@.subrange(lo + rep.len(), hi as int));
    key_value_at(v, lo + rep.len(), hi, key).is_some()
}

/// What a line answers; see `line_answer`.
fn answer_at(v: &Vec<char>, lo: usize, hi: usize, key: &Vec<char>, rep: &Vec<char>, note: bool) -> (r:
    Option<(usize, usize)>)
    requires
        lo <= hi <= v.len(),
        rep@ == replaced(),
    ensures
        match r {
            Some((a, b)) => a <= b <= v.len() && line_answer(v@.subrange(lo as int, hi as int), key@, note)
                == Some(v@.subrange(a as int, b as int)),
            None => line_answer(v@.subrange(lo as int, hi as int), key@, note) is None,
        },
{
    let ghost body = v@.subrange(lo as int, hi as int);
    if note {
        if !crate::text::has_at(v, lo, hi, rep) {
            return None;
        }
        assert(body.skip(rep.len() as int) =~= v@.subrange(lo + rep.len(), hi as int));
        key_value_at(v, lo + rep.len(), hi, key)
    } else {
        key_value_at(v, lo, hi, key)
    }
}

/// Whether the value `v[lo..hi]` is Flea's.
fn fleas_at(v: &Vec<char>, lo: usize, hi: usize, fl: &Vec<char>) -> (r: bool)
    requires
        lo <= hi <= v.len(),
        fl@ == flea(),
    ensures
        r == is_fleas(v@.subrange(lo as int, hi as int)),
{
    let s = crate::text::find_char(v, lo, hi, ';');
    let ghost val = v@.subrange(lo as int, hi as int);
    proof {
        assert forall|q: int| 0 <= q < s - lo implies val[q] != ';' by {
            assert(val[q] == v@[lo + q]);
        }
        crate::keyfile::lemma_first_of(val, ';', s - lo);
    }
    assert(val.take(s - lo) =~= v@.subrange(lo as int, s as int));
    range_eq(v, lo, s, fl)
}

/// Whether `p` occurs in `v`.
fn contains_at_all(v: &Vec<char>, p: &Vec<char>) -> (r: bool)
    ensures
        r == contains(v@, p@),
{
    if p.len() > v.len() {
        return false;
    }
    if p.len() == 0 {
        assert(v@.subrange(0int, 0int + p@.len()) =~= p@);
        return true;
    }
    let mut i: usize = 0;
    while i <= v.len() - p.len()
        invariant
            0 < p.len() <= v.len(),
            i <= v.len() - p.len() + 1,
            forall|j: int| 0 <= j < i ==> #[trigger] v@.subrange(j, j + p.len()) != p@,
        decreases v.len() - p.len() + 1 - i,
    {
        if crate::text::has_at(v, i, v.len(), p) {
            assert(v@.subrange(i as int, v.len() as int).take(p.len() as int) =~= v@.subrange(
                i as int,
                i + p.len(),
            ));
            return true;
        }
        assert(v@.subrange(i as int, v.len() as int).take(p.len() as int) =~= v@.subrange(
            i as int,
            i + p.len(),
        ));
        i = i + 1;
    }
    false
}

/// The first answer inside a [preferred] group; see `group_find`.
fn find_in_group(v: &Vec<char>, key: &Vec<char>, note: bool) -> (r: Option<(usize, usize)>)
    ensures
        match r {
            Some((a, b)) => a <= b <= v.len() && group_find(v@, key@, false, note) == Some(
                v@.subrange(a as int, b as int),
            ),
            None => group_find(v@, key@, false, note) is None,
        },
{
    let grp = chars_of(GROUP);
    let rep = chars_of(REPLACED);
    let mut i: usize = 0;
    let mut in_group = false;
    assert(v@.skip(0) =~= v@);
    while i < v.len()
        invariant
            i <= v.len(),
            grp@ == group(),
            rep@ == replaced(),
            group_find(v@, key@, false, note) == group_find(v@.skip(i as int), key@, in_group, note),
        decreases v.len() - i,
    {
        let p = next_piece(v, i);
        let ghost s = v@.skip(i as int);
        if header_at(v, p.start, p.line_end) {
            in_group = trimmed_is(v, p.start, p.line_end, &grp);
        } else if in_group {
            match answer_at(v, p.start, p.line_end, key, &rep, note) {
                Some(found) => {
                    return Some(found);
                },
                None => {},
            }
        }
        i = p.end;
    }
    None
}

/// The value `key` has in the [preferred] group. Sample input: "[preferred]\ndefault=gtk\n<key>=gnome;gtk\n" gives Some("gnome;gtk").
pub fn preferred_value(text: &str, key: &str) -> (r: Option<String>)
    ensures
        opt_view(r) == preferred_value_of(text@, key@),
{
    let v = chars_of(text);
    let k = chars_of(key);
    match find_in_group(&v, &k, false) {
        Some((a, b)) => Some(crate::text::string_of_range(&v, a, b)),
        None => None,
    }
}

/// Flea's own value, and the bare "flea" an earlier hand edit may have used.
pub fn is_fleas_value(value: &str) -> (r: bool)
    ensures
        r == is_fleas(value@),
{
    let v = chars_of(value);
    let fl = chars_of(FLEA);
    assert(v@.subrange(0, v@.len() as int) =~= v@);
    fleas_at(&v, 0, v.len(), &fl)
}

/// Sample input: "# flea replaced: <key>=gnome;gtk" is a marker for <key>.
pub fn marker_line(body: &str, key: &str) -> (r: bool)
    ensures
        r == is_marker(body@, key@),
{
    let v = chars_of(body);
    let k = chars_of(key);
    let rep = chars_of(REPLACED);
    assert(v@.subrange(0, v@.len() as int) =~= v@);
    marker_at(&v, 0, v.len(), &k, &rep)
}

/// Sample input: org.freedesktop.impl.portal.FileChooser=gnome;gtk gives Some("gnome;gtk").
pub fn line_value(body: &str, key: &str) -> (r: Option<String>)
    ensures
        opt_view(r) == key_value(body@, key@),
{
    let v = chars_of(body);
    let k = chars_of(key);
    assert(v@.subrange(0, v@.len() as int) =~= v@);
    match key_value_at(&v, 0, v.len(), &k) {
        Some((a, b)) => Some(crate::text::string_of_range(&v, a, b)),
        None => None,
    }
}

fn push_kv_line(out: &mut String, key: &Vec<char>, value: &Vec<char>)
    ensures
        final(out)@ == old(out)@ + kv_line(key@, value@),
{
    push_all(out, key);
    crate::text::push_char(out, '=');
    push_all(out, value);
    crate::text::push_char(out, '\n');
    assert(final(out)@ =~= old(out)@ + kv_line(key@, value@));
}

fn push_nl_if_needed(out: &mut String)
    ensures
        final(out)@ == old(out)@ + nl_if_needed(old(out)@),
{
    let v = chars_of(out.as_str());
    if v.len() > 0 && v[v.len() - 1] != '\n' {
        crate::text::push_char(out, '\n');
    } else {
        assert(out@ =~= old(out)@ + nl_if_needed(old(out)@));
    }
}

proof fn lemma_prepend_empty(r: Option<(Seq<char>, bool)>)
    ensures
        prepend(Seq::empty(), r) == r,
{
    match r {
        Some((o, w)) => {
            assert(Seq::<char>::empty() + o =~= o);
        },
        None => {},
    }
}

proof fn lemma_prepend_assoc(a: Seq<char>, b: Seq<char>, r: Option<(Seq<char>, bool)>)
    ensures
        prepend(a, prepend(b, r)) == prepend(a + b, r),
{
    match r {
        Some((o, w)) => {
            assert(a + (b + o) =~= (a + b) + o);
        },
        None => {},
    }
}

/// No line of `a`, read either way the walks read it, is the [preferred] heading.
pub open spec fn no_group_heading(a: Seq<char>) -> bool
    decreases a.len(),
{
    if a.len() == 0 {
        true
    } else {
        let p = first_piece(a);
        !is_group(strip_eol(p)) && !is_group(line_of(p)) && no_group_heading(after_piece(a))
    }
}

/// No line of `b` inside a [preferred] group is a note for `key` or gives `key` one of Flea's values;
/// `b` starts inside such a group when `in_group` says so, and lines of other groups are free.
pub open spec fn nothing_of_fleas(b: Seq<char>, key: Seq<char>, in_group: bool) -> bool
    decreases b.len(),
{
    if b.len() == 0 {
        true
    } else {
        let body = strip_eol(first_piece(b));
        let g = if is_header(body) {
            is_group(body)
        } else {
            in_group
        };
        &&& (!is_header(body) && in_group) ==> !is_marker(body, key) && !(key_value(body, key) is Some
            && is_fleas(key_value(body, key)->0))
        &&& nothing_of_fleas(after_piece(b), key, g)
    }
}

/// A heading line whose trimmed text is [preferred], without its newline.
pub open spec fn group_heading_line(head: Seq<char>) -> bool {
    &&& is_group(head)
    &&& forall|j: int| 0 <= j < head.len() ==> head[j] != '\n'
}

/// Lines before the group leave the claim's walk as they are.
proof fn lemma_claim_before(
    a: Seq<char>,
    r: Seq<char>,
    key: Seq<char>,
    value: Seq<char>,
    note: Option<Seq<char>>,
    keep: bool,
    written: bool,
)
    requires
        no_group_heading(a),
        a.len() == 0 || a.last() == '\n',
    ensures
        claim_walk(a + r, key, value, note, keep, false, written) == prepend(
            a,
            claim_walk(r, key, value, note, keep, false, written),
        ),
    decreases a.len(),
{
    if a.len() == 0 {
        assert(a + r =~= r);
        lemma_prepend_empty(claim_walk(r, key, value, note, keep, false, written));
    } else {
        crate::keyfile::lemma_piece_concat(a, r);
        crate::keyfile::lemma_piece_split(a);
        let p = first_piece(a);
        let rest = after_piece(a);
        lemma_claim_before(rest, r, key, value, note, keep, written);
        lemma_prepend_assoc(p, rest, claim_walk(r, key, value, note, keep, false, written));
        if is_header(strip_eol(p)) {
            assert(Seq::<char>::empty() + p =~= p);
        }
    }
}

/// Lines before the group leave the undo's walk as they are.
proof fn lemma_release_before(a: Seq<char>, r: Seq<char>, key: Seq<char>, restore: Option<Seq<char>>, changed: bool)
    requires
        no_group_heading(a),
        a.len() == 0 || a.last() == '\n',
    ensures
        release_walk(a + r, key, restore, false, changed) == (a + release_walk(r, key, restore, false, changed).0,
            release_walk(r, key, restore, false, changed).1),
    decreases a.len(),
{
    if a.len() == 0 {
        assert(a + r =~= r);
        assert(a + release_walk(r, key, restore, false, changed).0 =~= release_walk(r, key, restore, false, changed).0);
    } else {
        crate::keyfile::lemma_piece_concat(a, r);
        crate::keyfile::lemma_piece_split(a);
        let p = first_piece(a);
        let rest = after_piece(a);
        lemma_release_before(rest, r, key, restore, changed);
        let o = release_walk(r, key, restore, false, changed).0;
        assert(p + (rest + o) =~= a + o);
    }
}

/// Lines before the group are not searched.
proof fn lemma_find_before(a: Seq<char>, r: Seq<char>, key: Seq<char>, note: bool)
    requires
        no_group_heading(a),
        a.len() == 0 || a.last() == '\n',
    ensures
        group_find(a + r, key, false, note) == group_find(r, key, false, note),
    decreases a.len(),
{
    if a.len() == 0 {
        assert(a + r =~= r);
    } else {
        crate::keyfile::lemma_piece_concat(a, r);
        crate::keyfile::lemma_piece_split(a);
        lemma_find_before(after_piece(a), r, key, note);
    }
}

/// Once Flea's line is written, the claim leaves every later line that is no note as it is.
proof fn lemma_claim_after(b: Seq<char>, key: Seq<char>, value: Seq<char>, note: Option<Seq<char>>, in_group: bool)
    requires
        nothing_of_fleas(b, key, in_group),
    ensures
        claim_walk(b, key, value, note, false, in_group, true) == Some((b, true)),
    decreases b.len(),
{
    if b.len() > 0 {
        crate::keyfile::lemma_piece_split(b);
        let p = first_piece(b);
        let rest = after_piece(b);
        let body = strip_eol(p);
        let g = if is_header(body) {
            is_group(body)
        } else {
            in_group
        };
        lemma_claim_after(rest, key, value, note, g);
        if is_header(body) {
            assert(Seq::<char>::empty() + p =~= p);
        }
    }
}

/// With no line of Flea's left after it, the undo leaves every later line as it is.
proof fn lemma_release_after(b: Seq<char>, key: Seq<char>, restore: Option<Seq<char>>, in_group: bool, changed: bool)
    requires
        nothing_of_fleas(b, key, in_group),
    ensures
        release_walk(b, key, restore, in_group, changed) == (b, changed),
    decreases b.len(),
{
    if b.len() > 0 {
        crate::keyfile::lemma_piece_split(b);
        let p = first_piece(b);
        let rest = after_piece(b);
        let body = strip_eol(p);
        let g = if is_header(body) {
            is_group(body)
        } else {
            in_group
        };
        lemma_release_after(rest, key, restore, g, changed);
    }
}

/// A key a line of its own can hold: not empty, without a newline or an `=`, and not read as a
/// heading, so its first character past any whitespace is no `[`.
pub open spec fn plain_key(key: Seq<char>) -> bool {
    &&& key.len() > 0
    &&& !is_header(key)
    &&& forall|j: int| 0 <= j < key.len() ==> key[j] != '\n' && key[j] != '='
}

proof fn lemma_replaced_has_no_eq()
    ensures
        forall|j: int| 0 <= j < replaced().len() ==> replaced()[j] != '=',
{
    reveal_strlit("# flea replaced: ");
}

/// A line that starts with a note's words and the key is never that key's own line: the key has no
/// `=`, so none stands where the key's line would keep its own.
proof fn lemma_noted_key_is_no_line(body: Seq<char>, key: Seq<char>)
    requires
        plain_key(key),
        body.len() >= replaced().len() + key.len(),
        body.take(replaced().len() as int) == replaced(),
        body.skip(replaced().len() as int).take(key.len() as int) == key,
    ensures
        key_value(body, key) is None,
{
    lemma_replaced_has_no_eq();
    lemma_replaced_text();
    let n = replaced().len() as int;
    if body.len() > key.len() {
        if key.len() < n {
            assert(body[key.len() as int] == body.take(n)[key.len() as int]);
        } else {
            let i = key.len() - n;
            assert(body.skip(n).take(key.len() as int)[i] == key[i]);
            assert(body[key.len() as int] == body.skip(n)[i]);
            assert(body[key.len() as int] != '=');
        }
    }
}

/// A value as a line holds it after its `=`: without a newline, and with no whitespace at either end.
pub open spec fn plain_value(value: Seq<char>) -> bool {
    &&& value.len() > 0 ==> !is_ws(value[0]) && !is_ws(value.last())
    &&& forall|j: int| 0 <= j < value.len() ==> value[j] != '\n'
}

/// No line of `c`, read either way the walks read it, is a heading, a line for `key` or a note for
/// `key`: the other lines a [preferred] group may hold before the key's own.
pub open spec fn other_lines(c: Seq<char>, key: Seq<char>) -> bool
    decreases c.len(),
{
    if c.len() == 0 {
        true
    } else {
        let p = first_piece(c);
        let x = strip_eol(p);
        let y = line_of(p);
        &&& !is_header(x) && !is_header(y)
        &&& key_value(x, key) is None && key_value(y, key) is None
        &&& !is_marker(x, key) && !is_marker(y, key)
        &&& other_lines(after_piece(c), key)
    }
}

/// The file whose [preferred] group holds `key=had`: `a` comes before the heading line `head`, other
/// groups included, `c` holds the group's other lines before the key's, and `b` follows the key's line.
pub open spec fn holding(a: Seq<char>, head: Seq<char>, c: Seq<char>, key: Seq<char>, had: Seq<char>, b: Seq<char>) -> Seq<char> {
    a + head + seq!['\n'] + c + kv_line(key, had) + b
}

/// The file once Flea's line took the place of `key=had`, with the note that names the one it replaced.
pub open spec fn holding_claimed(
    a: Seq<char>,
    head: Seq<char>,
    c: Seq<char>,
    key: Seq<char>,
    had: Seq<char>,
    value: Seq<char>,
    b: Seq<char>,
) -> Seq<char> {
    a + head + seq!['\n'] + c + note_line(key, had) + kv_line(key, value) + b
}

/// The group's other lines leave the claim's walk as they are.
proof fn lemma_claim_within(
    c: Seq<char>,
    r: Seq<char>,
    key: Seq<char>,
    value: Seq<char>,
    note: Option<Seq<char>>,
    keep: bool,
)
    requires
        other_lines(c, key),
        c.len() == 0 || c.last() == '\n',
    ensures
        claim_walk(c + r, key, value, note, keep, true, false) == prepend(
            c,
            claim_walk(r, key, value, note, keep, true, false),
        ),
    decreases c.len(),
{
    if c.len() == 0 {
        assert(c + r =~= r);
        lemma_prepend_empty(claim_walk(r, key, value, note, keep, true, false));
    } else {
        crate::keyfile::lemma_piece_concat(c, r);
        crate::keyfile::lemma_piece_split(c);
        let p = first_piece(c);
        let rest = after_piece(c);
        assert(c + r =~= p + (rest + r));
        lemma_claim_within(rest, r, key, value, note, keep);
        lemma_prepend_assoc(p, rest, claim_walk(r, key, value, note, keep, true, false));
    }
}

/// The group's other lines leave the undo's walk as they are.
proof fn lemma_release_within(c: Seq<char>, r: Seq<char>, key: Seq<char>, restore: Option<Seq<char>>, changed: bool)
    requires
        other_lines(c, key),
        c.len() == 0 || c.last() == '\n',
    ensures
        release_walk(c + r, key, restore, true, changed) == (c + release_walk(r, key, restore, true, changed).0,
            release_walk(r, key, restore, true, changed).1),
    decreases c.len(),
{
    if c.len() == 0 {
        assert(c + r =~= r);
        assert(c + release_walk(r, key, restore, true, changed).0 =~= release_walk(r, key, restore, true, changed).0);
    } else {
        crate::keyfile::lemma_piece_concat(c, r);
        crate::keyfile::lemma_piece_split(c);
        let p = first_piece(c);
        let rest = after_piece(c);
        lemma_release_within(rest, r, key, restore, changed);
        let o = release_walk(r, key, restore, true, changed).0;
        assert(p + (rest + o) =~= c + o);
    }
}

/// The group's other lines answer nothing for `key`, as a value or as a note.
proof fn lemma_find_within(c: Seq<char>, r: Seq<char>, key: Seq<char>, note: bool)
    requires
        other_lines(c, key),
        c.len() == 0 || c.last() == '\n',
    ensures
        group_find(c + r, key, true, note) == group_find(r, key, true, note),
    decreases c.len(),
{
    if c.len() == 0 {
        assert(c + r =~= r);
    } else {
        crate::keyfile::lemma_piece_concat(c, r);
        crate::keyfile::lemma_piece_split(c);
        lemma_find_within(after_piece(c), r, key, note);
    }
}

proof fn lemma_group_line()
    ensures
        forall|j: int| 0 <= j < group().len() ==> group()[j] != '\n',
        group().len() > 0,
        group().last() != '\n' && group().last() != '\r',
        is_header(group()),
        is_group(group()),
{
    reveal_strlit("[preferred]");
    let g = group();
    assert(g.len() == 11);
    assert(!is_ws(g[0]));
    assert(trim_start(g) == g);
    assert(!is_ws(g.last()));
    assert(trim_end(g) == g);
}

proof fn lemma_replaced_text()
    ensures
        replaced().len() == 17,
        replaced()[0] == '#',
        forall|j: int| 0 <= j < replaced().len() ==> replaced()[j] != '\n',
{
    reveal_strlit("# flea replaced: ");
}

/// What the walks read of a `key=value` line.
proof fn lemma_kv_body(key: Seq<char>, value: Seq<char>)
    requires
        plain_key(key),
        plain_value(value),
    ensures
        ({
            let l = key + seq!['='] + value;
            &&& kv_line(key, value) == l + seq!['\n']
            &&& forall|j: int| 0 <= j < l.len() ==> l[j] != '\n'
            &&& l.last() != '\n' && l.last() != '\r'
            &&& !is_header(l)
            &&& !is_marker(l, key)
            &&& key_value(l, key) == Some(value)
        }),
{
    let l = key + seq!['='] + value;
    let ev = seq!['='] + value;
    assert(kv_line(key, value) =~= l + seq!['\n']);
    lemma_replaced_text();
    lemma_replaced_has_no_eq();
    assert(l =~= key + ev);
    lemma_trim_start_cat(key, ev);
    assert(!is_ws('='));
    assert(trim_start(ev) == ev);
    if trim_start(key).len() > 0 {
        assert(trim_start(l)[0] == trim_start(key)[0]);
    } else {
        assert(trim_start(l)[0] == '=');
    }
    if value.len() > 0 {
        assert(l.last() == value.last());
        assert(trim_start(value) == value);
        assert(trim_end(value) == value);
    } else {
        assert(trim_start(value) == value);
        assert(trim_end(value) == value);
    }
    assert(!is_marker(l, key)) by {
        let n = replaced().len() as int;
        if is_marker(l, key) {
            let r = l.skip(n);
            assert(r.take(key.len() as int) == key);
            if key.len() < n {
                assert(l[key.len() as int] == l.take(n)[key.len() as int]);
            } else {
                assert(l[key.len() as int] == r.take(key.len() as int)[key.len() - n]);
            }
        }
    }
    assert(l.take(key.len() as int) =~= key);
    assert(l.skip(key.len() + 1int) =~= value);
}

/// What the walks read of the note Flea leaves for `key=had`.
proof fn lemma_note_body(key: Seq<char>, had: Seq<char>)
    requires
        plain_key(key),
        plain_value(had),
    ensures
        ({
            let l = replaced() + key + seq!['='] + had;
            &&& note_line(key, had) == l + seq!['\n']
            &&& forall|j: int| 0 <= j < l.len() ==> l[j] != '\n'
            &&& l.last() != '\n' && l.last() != '\r'
            &&& !is_header(l)
            &&& is_marker(l, key)
            &&& key_value(l, key) is None
            &&& line_answer(l, key, true) == Some(had)
            &&& line_answer(l, key, false) is None
        }),
{
    lemma_replaced_text();
    lemma_kv_body(key, had);
    let k = key + seq!['='] + had;
    let l = replaced() + k;
    assert(l =~= replaced() + key + seq!['='] + had);
    assert(note_line(key, had) =~= l + seq!['\n']);
    assert(l[0] == '#');
    assert(trim_start(l) == l);
    assert(l.take(replaced().len() as int) =~= replaced());
    assert(l.skip(replaced().len() as int) =~= k);
    assert(l.last() == k.last());
    assert(l.skip(replaced().len() as int).take(key.len() as int) =~= key);
    lemma_noted_key_is_no_line(l, key);
}

/// The pieces both texts are read in, and what each walk reads of them.
proof fn lemma_shapes(a: Seq<char>, b: Seq<char>, key: Seq<char>, had: Seq<char>, value: Seq<char>)
    requires
        plain_key(key),
        plain_value(had),
        plain_value(value),
    ensures
        ({
            let gl = group() + seq!['\n'];
            let kh = key + seq!['='] + had;
            let kv = key + seq!['='] + value;
            let nb = replaced() + key + seq!['='] + had;
            let r1 = kh + seq!['\n'] + b;
            let s2 = kv + seq!['\n'] + b;
            let s1 = nb + seq!['\n'] + s2;
            &&& first_piece(gl + r1) == gl && after_piece(gl + r1) == r1
            &&& first_piece(gl + s1) == gl && after_piece(gl + s1) == s1
            &&& first_piece(r1) == kh + seq!['\n'] && after_piece(r1) == b
            &&& first_piece(s1) == nb + seq!['\n'] && after_piece(s1) == s2
            &&& first_piece(s2) == kv + seq!['\n'] && after_piece(s2) == b
            &&& strip_eol(gl) == group() && line_of(gl) == group()
            &&& strip_eol(kh + seq!['\n']) == kh && line_of(kh + seq!['\n']) == kh
            &&& strip_eol(nb + seq!['\n']) == nb && line_of(nb + seq!['\n']) == nb
            &&& strip_eol(kv + seq!['\n']) == kv && line_of(kv + seq!['\n']) == kv
            &&& kv_line(key, had) == kh + seq!['\n']
            &&& kv_line(key, value) == kv + seq!['\n']
            &&& note_line(key, had) == nb + seq!['\n']
            &&& is_header(group()) && is_group(group())
            &&& !is_header(kh) && !is_marker(kh, key) && key_value(kh, key) == Some(had)
            &&& !is_header(kv) && !is_marker(kv, key) && key_value(kv, key) == Some(value)
            &&& !is_header(nb) && is_marker(nb, key) && key_value(nb, key) is None
            &&& line_answer(nb, key, true) == Some(had) && line_answer(nb, key, false) is None
        }),
{
    lemma_group_line();
    lemma_kv_body(key, had);
    lemma_kv_body(key, value);
    lemma_note_body(key, had);
    let g = group();
    let gl = g + seq!['\n'];
    let kh = key + seq!['='] + had;
    let kv = key + seq!['='] + value;
    let nb = replaced() + key + seq!['='] + had;
    let r1 = kh + seq!['\n'] + b;
    let s2 = kv + seq!['\n'] + b;
    let s1 = nb + seq!['\n'] + s2;
    crate::keyfile::lemma_line_piece(g, r1);
    crate::keyfile::lemma_line_piece(g, s1);
    crate::keyfile::lemma_line_piece(kh, b);
    crate::keyfile::lemma_line_piece(nb, s2);
    crate::keyfile::lemma_line_piece(kv, b);
    assert(gl + r1 =~= g + seq!['\n'] + r1);
    assert(gl + s1 =~= g + seq!['\n'] + s1);
    crate::keyfile::lemma_line_body(g);
    crate::keyfile::lemma_line_body(kh);
    crate::keyfile::lemma_line_body(nb);
    crate::keyfile::lemma_line_body(kv);
}

proof fn lemma_claim_line(b: Seq<char>, key: Seq<char>, had: Seq<char>, value: Seq<char>)
    requires
        nothing_of_fleas(b, key, true),
        plain_key(key),
        plain_value(had),
        plain_value(value),
        is_fleas(value),
        !is_fleas(had),
    ensures
        claim_walk(kv_line(key, had) + b, key, value, Some(had), false, true, false) == Some(
            (note_line(key, had) + kv_line(key, value) + b, true),
        ),
{
    lemma_shapes(Seq::empty(), b, key, had, value);
    let kh = key + seq!['='] + had;
    let r1 = kh + seq!['\n'] + b;
    assert(kv_line(key, had) + b =~= r1);
    assert(had != value);
    lemma_claim_after(b, key, value, Some(had), true);
    assert(claim_walk(r1, key, value, Some(had), false, true, false) == prepend(
        note_line(key, had) + kv_line(key, value),
        claim_walk(b, key, value, Some(had), false, true, true),
    ));
}

/// A heading line whose trimmed text is [preferred], with its newline, as both readings meet it.
proof fn lemma_head_piece(head: Seq<char>, r: Seq<char>)
    requires
        group_heading_line(head),
    ensures
        first_piece(head + seq!['\n'] + r) == head + seq!['\n'],
        after_piece(head + seq!['\n'] + r) == r,
        is_header(strip_eol(head + seq!['\n'])),
        is_group(strip_eol(head + seq!['\n'])),
        is_header(line_of(head + seq!['\n'])),
        is_group(line_of(head + seq!['\n'])),
        contains(head, group()),
{
    crate::keyfile::lemma_line_piece(head, r);
    lemma_group_is_header(head);
    let p = head + seq!['\n'];
    assert forall|j: int| 0 <= j < p.len() - 1 implies p[j] != '\n' by {
        assert(p[j] == head[j]);
    }
    lemma_open_piece(head, Seq::empty());
    lemma_strip_unterminated(head);
    let sh = strip_eol(head);
    let tail = head.skip(sh.len() as int);
    assert(head =~= sh + tail);
    lemma_readings_agree(sh, tail, Seq::empty());
    lemma_line_and_strip(p);
    let lt = line_of(p).skip(sh.len() as int);
    lemma_readings_agree(sh, lt, Seq::empty());
    lemma_group_line();
    reveal_strlit("[preferred]");
    let ts = trim_start(head);
    lemma_trim_start_suffix(head);
    lemma_trim_end_prefix(ts);
    let k = head.len() - ts.len();
    let n = group().len() as int;
    assert(trim_end(ts) == group());
    assert(head.subrange(k, k + n) =~= group()) by {
        assert forall|j: int| 0 <= j < n implies head.subrange(k, k + n)[j] == group()[j] by {
            assert(group()[j] == ts[j]);
            assert(ts[j] == head[k + j]);
        }
    }
}

/// The heading line opens the group, and the walks go on past it with their own state.
proof fn lemma_heading_step(
    head: Seq<char>,
    r: Seq<char>,
    key: Seq<char>,
    value: Seq<char>,
    note: Option<Seq<char>>,
    keep: bool,
)
    requires
        group_heading_line(head),
    ensures
        claim_walk(head + seq!['\n'] + r, key, value, note, keep, false, false) == prepend(
            head + seq!['\n'],
            claim_walk(r, key, value, note, keep, true, false),
        ),
        group_find(head + seq!['\n'] + r, key, false, false) == group_find(r, key, true, false),
        group_find(head + seq!['\n'] + r, key, false, true) == group_find(r, key, true, true),
        forall|restore: Option<Seq<char>>, changed: bool|
            #[trigger] release_walk(head + seq!['\n'] + r, key, restore, false, changed) == (head + seq!['\n']
                + release_walk(r, key, restore, true, changed).0, release_walk(r, key, restore, true, changed).1),
{
    lemma_head_piece(head, r);
    assert(Seq::<char>::empty() + (head + seq!['\n']) =~= head + seq!['\n']);
}

proof fn lemma_holding_shapes(
    a: Seq<char>,
    head: Seq<char>,
    c: Seq<char>,
    b: Seq<char>,
    key: Seq<char>,
    had: Seq<char>,
    value: Seq<char>,
)
    requires
        group_heading_line(head),
    ensures
        holding(a, head, c, key, had, b) == a + ((head + seq!['\n']) + (c + (kv_line(key, had) + b))),
        holding_claimed(a, head, c, key, had, value, b) == a + ((head + seq!['\n']) + (c + (note_line(
            key,
            had,
        ) + kv_line(key, value) + b))),
        contains(holding(a, head, c, key, had, b), group()),
        contains(holding_claimed(a, head, c, key, had, value, b), group()),
{
    let t = holding(a, head, c, key, had, b);
    let out = holding_claimed(a, head, c, key, had, value, b);
    assert(t =~= a + ((head + seq!['\n']) + (c + (kv_line(key, had) + b))));
    assert(out =~= a + ((head + seq!['\n']) + (c + (note_line(key, had) + kv_line(key, value) + b))));
    lemma_head_piece(head, Seq::empty());
    let n = group().len() as int;
    let k = choose|k: int| 0 <= k <= head.len() - n && #[trigger] head.subrange(k, k + n) == group();
    assert(t.subrange(a.len() + k, a.len() + k + n) =~= head.subrange(k, k + n));
    assert(out.subrange(a.len() + k, a.len() + k + n) =~= head.subrange(k, k + n));
}

proof fn lemma_prepend_three(
    a: Seq<char>,
    g: Seq<char>,
    c: Seq<char>,
    z: Seq<char>,
    x: Option<(Seq<char>, bool)>,
    y: Option<(Seq<char>, bool)>,
    w: Option<(Seq<char>, bool)>,
)
    requires
        x == prepend(a, y),
        y == prepend(g, w),
        w == prepend(c, Some((z, true))),
    ensures
        x == Some((a + (g + (c + z)), true)),
{
}

/// The preconditions every part of the round trip shares.
pub open spec fn round_trip_shape(
    a: Seq<char>,
    head: Seq<char>,
    c: Seq<char>,
    b: Seq<char>,
    key: Seq<char>,
    had: Seq<char>,
    value: Seq<char>,
) -> bool {
    &&& no_group_heading(a)
    &&& a.len() == 0 || a.last() == '\n'
    &&& group_heading_line(head)
    &&& other_lines(c, key)
    &&& c.len() == 0 || c.last() == '\n'
    &&& nothing_of_fleas(b, key, true)
    &&& plain_key(key)
    &&& plain_value(had)
    &&& plain_value(value)
    &&& is_fleas(value)
    &&& !is_fleas(had)
}

#[verifier::spinoff_prover]
#[verifier::rlimit(100)]
proof fn lemma_claim_walk_part(a: Seq<char>, head: Seq<char>, c: Seq<char>, b: Seq<char>, key: Seq<char>, had: Seq<char>, value: Seq<char>)
    requires
        round_trip_shape(a, head, c, b, key, had, value),
    ensures
        claim_walk(holding(a, head, c, key, had, b), key, value, Some(had), false, false, false) == Some(
            (holding_claimed(a, head, c, key, had, value, b), true),
        ),
{
    let gl = head + seq!['\n'];
    let r1 = kv_line(key, had) + b;
    let z = note_line(key, had) + kv_line(key, value) + b;
    lemma_holding_shapes(a, head, c, b, key, had, value);
    let note = Some(had);
    lemma_claim_before(a, gl + (c + r1), key, value, note, false, false);
    lemma_heading_step(head, c + r1, key, value, note, false);
    lemma_claim_within(c, r1, key, value, note, false);
    lemma_claim_line(b, key, had, value);
    lemma_prepend_three(
        a,
        gl,
        c,
        z,
        claim_walk(a + (gl + (c + r1)), key, value, note, false, false, false),
        claim_walk(gl + (c + r1), key, value, note, false, false, false),
        claim_walk(c + r1, key, value, note, false, true, false),
    );
}

proof fn lemma_had_found(a: Seq<char>, head: Seq<char>, c: Seq<char>, b: Seq<char>, key: Seq<char>, had: Seq<char>)
    requires
        no_group_heading(a),
        a.len() == 0 || a.last() == '\n',
        group_heading_line(head),
        other_lines(c, key),
        c.len() == 0 || c.last() == '\n',
        plain_key(key),
        plain_value(had),
    ensures
        preferred_value_of(holding(a, head, c, key, had, b), key) == Some(had),
{
    let gl = head + seq!['\n'];
    let r1 = kv_line(key, had) + b;
    lemma_holding_shapes(a, head, c, b, key, had, had);
    lemma_find_before(a, gl + (c + r1), key, false);
    lemma_heading_step(head, c + r1, key, seq![], None, false);
    lemma_find_within(c, r1, key, false);
    lemma_kv_body(key, had);
    let kh = key + seq!['='] + had;
    crate::keyfile::lemma_line_piece(kh, b);
    crate::keyfile::lemma_line_body(kh);
    assert(r1 =~= kh + seq!['\n'] + b);
}

proof fn lemma_claim_part(a: Seq<char>, head: Seq<char>, c: Seq<char>, b: Seq<char>, key: Seq<char>, had: Seq<char>, value: Seq<char>)
    requires
        round_trip_shape(a, head, c, b, key, had, value),
    ensures
        claimed(holding(a, head, c, key, had, b), key, value) == Some(holding_claimed(a, head, c, key, had, value, b)),
{
    lemma_holding_shapes(a, head, c, b, key, had, value);
    lemma_claim_walk_part(a, head, c, b, key, had, value);
    lemma_had_found(a, head, c, b, key, had);
    assert(had != value);
}

/// The note and Flea's line, as the walks read them: the key answers Flea's value, the note the
/// backend it replaced, and a second claim stops at the line.
proof fn lemma_claimed_lines(b: Seq<char>, key: Seq<char>, had: Seq<char>, value: Seq<char>)
    requires
        nothing_of_fleas(b, key, true),
        plain_key(key),
        plain_value(had),
        plain_value(value),
        is_fleas(value),
    ensures
        ({
            let s1 = note_line(key, had) + kv_line(key, value) + b;
            &&& group_find(s1, key, true, false) == Some(value)
            &&& group_find(s1, key, true, true) == Some(had)
            &&& claim_walk(s1, key, value, None, true, true, false) is None
            &&& release_walk(s1, key, Some(had), true, false) == (kv_line(key, had) + b, true)
        }),
{
    lemma_claimed_finds(b, key, had, value);
    lemma_claimed_walks(b, key, had, value);
}

#[verifier::spinoff_prover]
#[verifier::rlimit(100)]
proof fn lemma_claimed_finds(b: Seq<char>, key: Seq<char>, had: Seq<char>, value: Seq<char>)
    requires
        plain_key(key),
        plain_value(had),
        plain_value(value),
    ensures
        ({
            let s1 = note_line(key, had) + kv_line(key, value) + b;
            &&& group_find(s1, key, true, false) == Some(value)
            &&& group_find(s1, key, true, true) == Some(had)
        }),
{
    lemma_shapes(Seq::empty(), b, key, had, value);
    let kv = key + seq!['='] + value;
    let nb = replaced() + key + seq!['='] + had;
    let s2 = kv + seq!['\n'] + b;
    let s1 = nb + seq!['\n'] + s2;
    assert(note_line(key, had) + kv_line(key, value) + b =~= s1);
    assert(group_find(s2, key, true, false) == Some(value));
    assert(group_find(s1, key, true, false) == Some(value));
    assert(group_find(s1, key, true, true) == Some(had));
}

proof fn lemma_claimed_walks(b: Seq<char>, key: Seq<char>, had: Seq<char>, value: Seq<char>)
    requires
        nothing_of_fleas(b, key, true),
        plain_key(key),
        plain_value(had),
        plain_value(value),
        is_fleas(value),
    ensures
        ({
            let s1 = note_line(key, had) + kv_line(key, value) + b;
            &&& claim_walk(s1, key, value, None, true, true, false) is None
            &&& release_walk(s1, key, Some(had), true, false) == (kv_line(key, had) + b, true)
        }),
{
    lemma_claimed_claim(b, key, had, value);
    lemma_claimed_release(b, key, had, value);
}

#[verifier::spinoff_prover]
#[verifier::rlimit(100)]
proof fn lemma_claimed_claim(b: Seq<char>, key: Seq<char>, had: Seq<char>, value: Seq<char>)
    requires
        plain_key(key),
        plain_value(had),
        plain_value(value),
    ensures
        claim_walk(note_line(key, had) + kv_line(key, value) + b, key, value, None, true, true, false) is None,
{
    lemma_shapes(Seq::empty(), b, key, had, value);
    let kv = key + seq!['='] + value;
    let nb = replaced() + key + seq!['='] + had;
    let s2 = kv + seq!['\n'] + b;
    let s1 = nb + seq!['\n'] + s2;
    assert(note_line(key, had) + kv_line(key, value) + b =~= s1);
    assert(claim_walk(s2, key, value, None, true, true, false) is None);
    assert(claim_walk(s1, key, value, None, true, true, false) == prepend(
        nb + seq!['\n'],
        claim_walk(s2, key, value, None, true, true, false),
    ));
}

#[verifier::spinoff_prover]
#[verifier::rlimit(100)]
proof fn lemma_claimed_release(b: Seq<char>, key: Seq<char>, had: Seq<char>, value: Seq<char>)
    requires
        nothing_of_fleas(b, key, true),
        plain_key(key),
        plain_value(had),
        plain_value(value),
        is_fleas(value),
    ensures
        release_walk(note_line(key, had) + kv_line(key, value) + b, key, Some(had), true, false) == (kv_line(
            key,
            had,
        ) + b, true),
{
    lemma_release_line_step(b, key, had, value);
    let kv = key + seq!['='] + value;
    let nb = replaced() + key + seq!['='] + had;
    let s2 = kv + seq!['\n'] + b;
    let s1 = nb + seq!['\n'] + s2;
    lemma_note_body(key, had);
    crate::keyfile::lemma_line_piece(nb, s2);
    crate::keyfile::lemma_line_body(nb);
    assert(note_line(key, had) + kv_line(key, value) + b =~= s1);
}

/// The undo meets Flea's line in the group: the backend it replaced takes its place, and the rest,
/// holding nothing of Flea's in [preferred], stays as it is.
proof fn lemma_release_line_step(b: Seq<char>, key: Seq<char>, had: Seq<char>, value: Seq<char>)
    requires
        nothing_of_fleas(b, key, true),
        plain_key(key),
        plain_value(value),
        is_fleas(value),
    ensures
        release_walk(key + seq!['='] + value + seq!['\n'] + b, key, Some(had), true, false) == (kv_line(key, had)
            + b, true),
{
    let kv = key + seq!['='] + value;
    lemma_kv_body(key, value);
    crate::keyfile::lemma_line_piece(kv, b);
    crate::keyfile::lemma_line_body(kv);
    lemma_release_after(b, key, Some(had), true, true);
}

/// In the claimed file the key answers Flea's value, and its note answers the backend it replaced.
#[verifier::spinoff_prover]
#[verifier::rlimit(100)]
proof fn lemma_claimed_answers(a: Seq<char>, head: Seq<char>, c: Seq<char>, b: Seq<char>, key: Seq<char>, had: Seq<char>, value: Seq<char>)
    requires
        round_trip_shape(a, head, c, b, key, had, value),
    ensures
        preferred_value_of(holding_claimed(a, head, c, key, had, value, b), key) == Some(value),
        group_find(holding_claimed(a, head, c, key, had, value, b), key, false, true) == Some(had),
{
    lemma_holding_shapes(a, head, c, b, key, had, value);
    let gl = head + seq!['\n'];
    let s1 = note_line(key, had) + kv_line(key, value) + b;
    lemma_claimed_lines(b, key, had, value);
    lemma_find_before(a, gl + (c + s1), key, false);
    lemma_find_before(a, gl + (c + s1), key, true);
    lemma_heading_step(head, c + s1, key, value, None, true);
    lemma_find_within(c, s1, key, false);
    lemma_find_within(c, s1, key, true);
}

#[verifier::spinoff_prover]
#[verifier::rlimit(100)]
proof fn lemma_second_part(a: Seq<char>, head: Seq<char>, c: Seq<char>, b: Seq<char>, key: Seq<char>, had: Seq<char>, value: Seq<char>)
    requires
        round_trip_shape(a, head, c, b, key, had, value),
    ensures
        claimed(holding_claimed(a, head, c, key, had, value, b), key, value) is None,
{
    lemma_holding_shapes(a, head, c, b, key, had, value);
    lemma_claimed_answers(a, head, c, b, key, had, value);
    lemma_claimed_lines(b, key, had, value);
    let gl = head + seq!['\n'];
    let s1 = note_line(key, had) + kv_line(key, value) + b;
    lemma_claim_before(a, gl + (c + s1), key, value, None, true, false);
    lemma_heading_step(head, c + s1, key, value, None, true);
    lemma_claim_within(c, s1, key, value, None, true);
}

#[verifier::spinoff_prover]
#[verifier::rlimit(100)]
proof fn lemma_undo_part(a: Seq<char>, head: Seq<char>, c: Seq<char>, b: Seq<char>, key: Seq<char>, had: Seq<char>, value: Seq<char>)
    requires
        round_trip_shape(a, head, c, b, key, had, value),
    ensures
        released(holding_claimed(a, head, c, key, had, value, b), key) == Some(holding(a, head, c, key, had, b)),
{
    lemma_holding_shapes(a, head, c, b, key, had, value);
    lemma_claimed_answers(a, head, c, b, key, had, value);
    lemma_claimed_lines(b, key, had, value);
    let gl = head + seq!['\n'];
    let s1 = note_line(key, had) + kv_line(key, value) + b;
    let q = gl + (c + s1);
    lemma_release_before(a, q, key, Some(had), false);
    lemma_heading_step(head, c + s1, key, value, None, true);
    lemma_release_within(c, s1, key, Some(had), false);
    assert(release_walk(q, key, Some(had), false, false) == (gl + (c + (kv_line(key, had) + b)), true));
    assert(a + (gl + (c + (kv_line(key, had) + b))) =~= holding(a, head, c, key, had, b));
}

/// A claim and its undo give the file back byte for byte: wherever in the [preferred] group the line
/// `key=had` stands, `had` a backend other than Flea's, under any heading line whose trimmed text is
/// [preferred], with other groups before the heading, other lines of the group before the key's, and
/// nothing of Flea's after it inside a [preferred] group, other groups free, the claim puts Flea's line in
/// its place under a note naming `had`, the key then reads as Flea's value, a second claim finds nothing
/// to do, and the undo restores the file exactly.
pub proof fn a_claim_and_its_undo_give_the_file_back(
    a: Seq<char>,
    head: Seq<char>,
    c: Seq<char>,
    b: Seq<char>,
    key: Seq<char>,
    had: Seq<char>,
    value: Seq<char>,
)
    requires
        no_group_heading(a),
        a.len() == 0 || a.last() == '\n',
        group_heading_line(head),
        other_lines(c, key),
        c.len() == 0 || c.last() == '\n',
        nothing_of_fleas(b, key, true),
        plain_key(key),
        plain_value(had),
        plain_value(value),
        is_fleas(value),
        !is_fleas(had),
    ensures
        claimed(holding(a, head, c, key, had, b), key, value) == Some(holding_claimed(a, head, c, key, had, value, b)),
        preferred_value_of(holding_claimed(a, head, c, key, had, value, b), key) == Some(value),
        claimed(holding_claimed(a, head, c, key, had, value, b), key, value) is None,
        released(holding_claimed(a, head, c, key, had, value, b), key) == Some(holding(a, head, c, key, had, b)),
{
    lemma_claimed_answers(a, head, c, b, key, had, value);
    lemma_claim_part(a, head, c, b, key, had, value);
    lemma_second_part(a, head, c, b, key, had, value);
    lemma_undo_part(a, head, c, b, key, had, value);
}

/// Every character of `r` is a carriage return.
spec fn all_cr(r: Seq<char>) -> bool {
    forall|j: int| 0 <= j < r.len() ==> r[j] == '\r'
}

proof fn lemma_cr_is_ws()
    ensures
        is_ws('\r'),
{
    assert(('\r' as u32) == 0x0d);
}

proof fn lemma_trim_start_cat(a: Seq<char>, r: Seq<char>)
    ensures
        trim_start(a + r) == (if trim_start(a).len() > 0 {
            trim_start(a) + r
        } else {
            trim_start(r)
        }),
    decreases a.len(),
{
    if a.len() == 0 {
        assert(a + r =~= r);
    } else if is_ws(a[0]) {
        assert((a + r).drop_first() =~= a.drop_first() + r);
        lemma_trim_start_cat(a.drop_first(), r);
    }
}

proof fn lemma_trim_start_cr(r: Seq<char>)
    requires
        all_cr(r),
    ensures
        trim_start(r).len() == 0,
    decreases r.len(),
{
    lemma_cr_is_ws();
    if r.len() > 0 {
        lemma_trim_start_cr(r.drop_first());
    }
}

proof fn lemma_trim_end_cr(a: Seq<char>, r: Seq<char>)
    requires
        all_cr(r),
    ensures
        trim_end(a + r) == trim_end(a),
    decreases r.len(),
{
    lemma_cr_is_ws();
    if r.len() == 0 {
        assert(a + r =~= a);
    } else {
        assert((a + r).drop_last() =~= a + r.drop_last());
        lemma_trim_end_cr(a, r.drop_last());
    }
}

/// Carriage returns at the end change nothing `str::trim` keeps.
proof fn lemma_trim_cr(a: Seq<char>, r: Seq<char>)
    requires
        all_cr(r),
    ensures
        trim(a + r) == trim(a),
{
    lemma_trim_start_cat(a, r);
    lemma_trim_start_cr(r);
    if trim_start(a).len() > 0 {
        lemma_trim_end_cr(trim_start(a), r);
    } else {
        assert(trim_start(a) =~= Seq::<char>::empty());
        assert(trim_start(a + r) =~= Seq::<char>::empty());
    }
}

/// A line read with carriage returns left at its end reads as the line without them.
proof fn lemma_readings_agree(s: Seq<char>, r: Seq<char>, key: Seq<char>)
    requires
        all_cr(r),
    ensures
        is_header(s + r) == is_header(s),
        is_group(s + r) == is_group(s),
        key_value(s + r, key) == key_value(s, key),
{
    lemma_trim_start_cat(s, r);
    lemma_trim_start_cr(r);
    lemma_trim_cr(s, r);
    let l = s + r;
    if s.len() > key.len() {
        assert(l.take(key.len() as int) =~= s.take(key.len() as int));
        assert(l[key.len() as int] == s[key.len() as int]);
        assert(l.skip(key.len() + 1int) =~= s.skip(key.len() + 1int) + r);
        lemma_trim_cr(s.skip(key.len() + 1int), r);
    } else if l.len() > key.len() {
        assert(l[key.len() as int] == r[key.len() - s.len()]);
    }
}

/// `strip_eol` removes carriage returns only, from a text without newlines.
proof fn lemma_strip_unterminated(q: Seq<char>)
    requires
        forall|j: int| 0 <= j < q.len() ==> q[j] != '\n',
    ensures
        strip_eol(q).len() <= q.len(),
        q.take(strip_eol(q).len() as int) == strip_eol(q),
        all_cr(q.skip(strip_eol(q).len() as int)),
    decreases q.len(),
{
    if q.len() > 0 && q.last() == '\r' {
        let d = q.drop_last();
        lemma_strip_unterminated(d);
        let k = strip_eol(d).len() as int;
        assert(q.take(k) =~= d.take(k));
        assert forall|j: int| 0 <= j < q.skip(k).len() implies q.skip(k)[j] == '\r' by {
            if k + j < d.len() {
                assert(q.skip(k)[j] == d.skip(k)[j]);
            }
        }
    } else {
        assert(q.take(q.len() as int) =~= q);
        assert(q.skip(q.len() as int).len() == 0);
    }
}

/// A piece has no newline but, perhaps, the one that ends it.
proof fn lemma_piece_lines(t: Seq<char>)
    requires
        t.len() > 0,
    ensures
        forall|j: int| 0 <= j < first_piece(t).len() - 1 ==> first_piece(t)[j] != '\n',
        after_piece(t).len() > 0 ==> first_piece(t).last() == '\n',
        first_piece(t).len() > 0,
{
    crate::keyfile::lemma_first_of_bound(t, '\n');
    crate::keyfile::lemma_piece_split(t);
}

/// `str::lines` leaves a piece as the claim reads it, carriage returns perhaps left at its end.
proof fn lemma_line_and_strip(p: Seq<char>)
    requires
        forall|j: int| 0 <= j < p.len() - 1 ==> p[j] != '\n',
    ensures
        strip_eol(p).len() <= line_of(p).len(),
        line_of(p) == strip_eol(p) + line_of(p).skip(strip_eol(p).len() as int),
        all_cr(line_of(p).skip(strip_eol(p).len() as int)),
{
    if p.len() > 0 && p.last() == '\n' {
        let q = p.drop_last();
        assert(strip_eol(p) == strip_eol(q));
        if q.len() > 0 && q.last() == '\r' {
            let d = q.drop_last();
            assert(strip_eol(q) == strip_eol(d));
            lemma_strip_unterminated(d);
            assert(line_of(p) == d);
        } else {
            lemma_strip_unterminated(q);
            assert(line_of(p) == q);
        }
    } else {
        lemma_strip_unterminated(p);
    }
    let s = strip_eol(p);
    let l = line_of(p);
    assert(l =~= s + l.skip(s.len() as int));
}

/// The value `key` has in [preferred], each line read as the claim reads it.
spec fn read_find(t: Seq<char>, key: Seq<char>, in_group: bool) -> Option<Seq<char>>
    decreases t.len(),
{
    if t.len() == 0 {
        None
    } else {
        let body = strip_eol(first_piece(t));
        if is_header(body) {
            read_find(after_piece(t), key, is_group(body))
        } else if in_group && key_value(body, key) is Some {
            key_value(body, key)
        } else {
            read_find(after_piece(t), key, in_group)
        }
    }
}

/// Both readings of a line find the same value for `key`.
proof fn lemma_find_reads(t: Seq<char>, key: Seq<char>, in_group: bool)
    ensures
        group_find(t, key, in_group, false) == read_find(t, key, in_group),
    decreases t.len(),
{
    if t.len() > 0 {
        let p = first_piece(t);
        lemma_piece_lines(t);
        lemma_line_and_strip(p);
        let s = strip_eol(p);
        lemma_readings_agree(s, line_of(p).skip(s.len() as int), key);
        let body = line_of(p);
        let g = if is_header(body) {
            is_group(body)
        } else {
            in_group
        };
        lemma_find_reads(after_piece(t), key, g);
    }
}

/// The value `key` has in the first [preferred] group the text reaches, each line read as the claim
/// reads it; the heading that closes that group ends the search.
pub open spec fn first_group_answer(t: Seq<char>, key: Seq<char>, in_group: bool) -> Option<Seq<char>>
    decreases t.len(),
{
    if t.len() == 0 {
        None
    } else {
        let body = strip_eol(first_piece(t));
        if is_header(body) {
            if in_group {
                None
            } else {
                first_group_answer(after_piece(t), key, is_group(body))
            }
        } else if in_group && key_value(body, key) is Some {
            key_value(body, key)
        } else {
            first_group_answer(after_piece(t), key, in_group)
        }
    }
}

/// Whether some line of `t`, read as the claim reads it, is the [preferred] heading.
pub open spec fn has_group_heading(t: Seq<char>) -> bool
    decreases t.len(),
{
    if t.len() == 0 {
        false
    } else {
        is_group(strip_eol(first_piece(t))) || has_group_heading(after_piece(t))
    }
}

/// Whether the walk is inside a [preferred] group once it has read `t`.
spec fn group_at_end(t: Seq<char>, in_group: bool) -> bool
    decreases t.len(),
{
    if t.len() == 0 {
        in_group
    } else {
        let body = strip_eol(first_piece(t));
        if is_header(body) {
            group_at_end(after_piece(t), is_group(body))
        } else {
            group_at_end(after_piece(t), in_group)
        }
    }
}

proof fn lemma_first_answer_found(t: Seq<char>, key: Seq<char>, in_group: bool)
    requires
        first_group_answer(t, key, in_group) is Some,
    ensures
        read_find(t, key, in_group) == first_group_answer(t, key, in_group),
    decreases t.len(),
{
    let body = strip_eol(first_piece(t));
    if is_header(body) {
        lemma_first_answer_found(after_piece(t), key, is_group(body));
    } else if !(in_group && key_value(body, key) is Some) {
        lemma_first_answer_found(after_piece(t), key, in_group);
    }
}

proof fn lemma_trim_end_prefix(s: Seq<char>)
    ensures
        trim_end(s).len() <= s.len(),
        trim_end(s) == s.take(trim_end(s).len() as int),
    decreases s.len(),
{
    if s.len() > 0 && is_ws(s.last()) {
        lemma_trim_end_prefix(s.drop_last());
        assert(s.drop_last().take(trim_end(s).len() as int) =~= s.take(trim_end(s).len() as int));
    } else {
        assert(s.take(s.len() as int) =~= s);
    }
}

proof fn lemma_trim_start_suffix(s: Seq<char>)
    ensures
        trim_start(s).len() <= s.len(),
        trim_start(s) == s.skip(s.len() - trim_start(s).len()),
    decreases s.len(),
{
    if s.len() > 0 && is_ws(s[0]) {
        lemma_trim_start_suffix(s.drop_first());
        assert(s.drop_first().skip(s.drop_first().len() - trim_start(s).len()) =~= s.skip(
            s.len() - trim_start(s).len(),
        ));
    } else {
        assert(s.skip(0) =~= s);
    }
}

/// A heading is what the walks take it for: its first character past the whitespace is `[`.
proof fn lemma_group_is_header(body: Seq<char>)
    requires
        is_group(body),
    ensures
        is_header(body),
{
    lemma_group_line();
    let ts = trim_start(body);
    assert(trim_end(ts) == group());
    lemma_trim_end_prefix(ts);
    assert(ts[0] == group()[0]);
    reveal_strlit("[preferred]");
}

/// A note for `key` is never the key's own line, nor a heading.
proof fn lemma_marker_no_key(body: Seq<char>, key: Seq<char>)
    requires
        is_marker(body, key),
        plain_key(key),
    ensures
        key_value(body, key) is None,
        !is_header(body),
{
    lemma_replaced_text();
    assert(body[0] == body.take(replaced().len() as int)[0]);
    assert(body[0] == '#');
    assert(!is_ws('#'));
    assert(trim_start(body) == body);
    lemma_noted_key_is_no_line(body, key);
}

/// A claim that has written its line goes on writing nothing else in its place.
proof fn lemma_written_stays(
    t: Seq<char>,
    key: Seq<char>,
    value: Seq<char>,
    note: Option<Seq<char>>,
    keep: bool,
    in_group: bool,
)
    ensures
        claim_walk(t, key, value, note, keep, in_group, true) is Some,
        (claim_walk(t, key, value, note, keep, in_group, true)->0).1,
    decreases t.len(),
{
    if t.len() > 0 {
        let body = strip_eol(first_piece(t));
        let g = if is_header(body) {
            is_group(body)
        } else {
            in_group
        };
        lemma_written_stays(after_piece(t), key, value, note, keep, g);
    }
}

/// A claim that stops for want of anything to do found the key's value where the reading finds it.
proof fn lemma_nothing_to_claim(
    t: Seq<char>,
    key: Seq<char>,
    value: Seq<char>,
    note: Option<Seq<char>>,
    keep: bool,
    in_group: bool,
)
    requires
        claim_walk(t, key, value, note, keep, in_group, false) is None,
        plain_key(key),
    ensures
        read_find(t, key, in_group) == Some(value),
    decreases t.len(),
{
    let raw = first_piece(t);
    let body = strip_eol(raw);
    let rest = after_piece(t);
    if is_header(body) {
        if in_group {
            lemma_written_stays(rest, key, value, note, keep, is_group(body));
        }
        lemma_nothing_to_claim(rest, key, value, note, keep, is_group(body));
    } else if in_group && !keep && is_marker(body, key) {
        lemma_marker_no_key(body, key);
        lemma_nothing_to_claim(rest, key, value, note, keep, in_group);
    } else if in_group && key_value(body, key) is Some {
        if key_value(body, key)->0 != value {
            lemma_written_stays(rest, key, value, note, keep, in_group);
        }
    } else {
        lemma_nothing_to_claim(rest, key, value, note, keep, in_group);
    }
}

/// Where the first [preferred] group already gives `key` the value, the claim finds nothing to do.
proof fn lemma_first_answer_stops_claim(
    t: Seq<char>,
    key: Seq<char>,
    value: Seq<char>,
    note: Option<Seq<char>>,
    keep: bool,
    in_group: bool,
)
    requires
        first_group_answer(t, key, in_group) == Some(value),
        plain_key(key),
    ensures
        claim_walk(t, key, value, note, keep, in_group, false) is None,
    decreases t.len(),
{
    let raw = first_piece(t);
    let body = strip_eol(raw);
    let rest = after_piece(t);
    if is_header(body) {
        lemma_first_answer_stops_claim(rest, key, value, note, keep, is_group(body));
    } else if in_group && !keep && is_marker(body, key) {
        lemma_marker_no_key(body, key);
        lemma_first_answer_stops_claim(rest, key, value, note, keep, in_group);
    } else if !(in_group && key_value(body, key) is Some) {
        lemma_first_answer_stops_claim(rest, key, value, note, keep, in_group);
    }
}

/// A piece that ends with its newline is the first piece of anything it starts.
proof fn lemma_whole_piece(raw: Seq<char>, y: Seq<char>)
    requires
        raw.len() > 0,
        raw.last() == '\n',
        forall|j: int| 0 <= j < raw.len() - 1 ==> raw[j] != '\n',
    ensures
        first_piece(raw + y) == raw,
        after_piece(raw + y) == y,
{
    let l = raw.drop_last();
    assert(raw =~= l + seq!['\n']);
    crate::keyfile::lemma_line_piece(l, y);
    assert(l + seq!['\n'] + y =~= raw + y);
}

/// A last piece without its newline, followed by text that starts with one, reads as the piece with it.
proof fn lemma_open_piece(raw: Seq<char>, y: Seq<char>)
    requires
        forall|j: int| 0 <= j < raw.len() ==> raw[j] != '\n',
    ensures
        first_piece(raw + (seq!['\n'] + y)) == raw + seq!['\n'],
        after_piece(raw + (seq!['\n'] + y)) == y,
        strip_eol(raw + seq!['\n']) == strip_eol(raw),
{
    crate::keyfile::lemma_line_piece(raw, y);
    assert(raw + seq!['\n'] + y =~= raw + (seq!['\n'] + y));
    assert((raw + seq!['\n']).drop_last() =~= raw);
}

proof fn lemma_answer_past_newline(y: Seq<char>, key: Seq<char>, in_group: bool)
    requires
        key.len() > 0,
    ensures
        first_group_answer(seq!['\n'] + y, key, in_group) == first_group_answer(y, key, in_group),
{
    let e = Seq::<char>::empty();
    lemma_open_piece(e, y);
    assert(e + (seq!['\n'] + y) =~= seq!['\n'] + y);
    assert(e + seq!['\n'] =~= seq!['\n']);
    assert(strip_eol(e) == e);
    assert(trim_start(e) == e);
}

/// Flea's line, as the reading meets it: the key's own line, answering the value.
proof fn lemma_kv_reads(key: Seq<char>, value: Seq<char>, y: Seq<char>)
    requires
        plain_key(key),
        plain_value(value),
    ensures
        first_group_answer(kv_line(key, value) + y, key, true) == Some(value),
{
    lemma_kv_body(key, value);
    let l = key + seq!['='] + value;
    crate::keyfile::lemma_line_piece(l, y);
    crate::keyfile::lemma_line_body(l);
    assert(kv_line(key, value) + y =~= l + seq!['\n'] + y);
}

/// A note line, as the reading meets it: neither a heading nor the key's line.
proof fn lemma_note_reads(key: Seq<char>, h: Seq<char>, y: Seq<char>, in_group: bool)
    requires
        forall|j: int| 0 <= j < h.len() ==> h[j] != '\n',
        plain_key(key),
    ensures
        first_group_answer(replaced() + key + seq!['='] + h + seq!['\n'] + y, key, in_group)
            == first_group_answer(y, key, in_group),
{
    lemma_replaced_text();
    let nb = replaced() + key + seq!['='] + h;
    let n = replaced().len() as int;
    assert forall|j: int| 0 <= j < nb.len() implies nb[j] != '\n' by {
        if j < n {
        } else if j < n + key.len() {
            assert(nb[j] == key[j - n]);
        } else if j > n + key.len() {
            assert(nb[j] == h[j - n - key.len() - 1]);
        }
    }
    crate::keyfile::lemma_line_piece(nb, y);
    lemma_open_piece(nb, Seq::empty());
    lemma_strip_unterminated(nb);
    let body = strip_eol(nb);
    let k = body.len() as int;
    if k <= n + key.len() {
        assert(nb.skip(k)[n + key.len() - k] == nb[n + key.len()]);
        assert(nb[n + key.len()] == '=');
    }
    assert(body[0] == nb.take(k)[0]);
    assert(body[0] == '#');
    assert(!is_ws('#'));
    assert(trim_start(body) == body);
    assert(body.take(n) =~= replaced());
    assert(body.skip(n).take(key.len() as int) =~= key);
    lemma_noted_key_is_no_line(body, key);
}

/// A claim that has not written its line leaves every line it read as the reading finds them, and ends
/// inside [preferred] once it has passed that heading.
#[verifier::spinoff_prover]
#[verifier::rlimit(100)]
proof fn lemma_unwritten(
    t: Seq<char>,
    key: Seq<char>,
    value: Seq<char>,
    note: Option<Seq<char>>,
    keep: bool,
    in_group: bool,
    o: Seq<char>,
    x: Seq<char>,
)
    requires
        claim_walk(t, key, value, note, keep, in_group, false) == Some((o, false)),
        x.len() == 0 || x[0] == '\n' || o.len() == 0 || o.last() == '\n',
        plain_key(key),
    ensures
        first_group_answer(o + x, key, in_group) == first_group_answer(x, key, group_at_end(t, in_group)),
        in_group || has_group_heading(t) ==> group_at_end(t, in_group),
    decreases t.len(),
{
    if t.len() == 0 {
        assert(o + x =~= x);
    } else {
        let raw = first_piece(t);
        let body = strip_eol(raw);
        let rest = after_piece(t);
        lemma_piece_lines(t);
        crate::keyfile::lemma_piece_split(t);
        if is_header(body) {
            if in_group {
                lemma_written_stays(rest, key, value, note, keep, is_group(body));
            }
            let g = is_group(body);
            let o2 = (claim_walk(rest, key, value, note, keep, g, false)->0).0;
            assert(o =~= raw + o2);
            if o2.len() > 0 {
                assert(o2.last() == o.last());
            }
            lemma_unwritten(rest, key, value, note, keep, g, o2, x);
            lemma_step(t, o2, x, key, in_group, g);
        } else if in_group && !keep && is_marker(body, key) {
            lemma_marker_no_key(body, key);
            lemma_unwritten(rest, key, value, note, keep, in_group, o, x);
        } else if in_group && key_value(body, key) is Some {
            if key_value(body, key)->0 != value {
                lemma_written_stays(rest, key, value, note, keep, in_group);
            }
        } else {
            if is_group(body) {
                lemma_group_is_header(body);
            }
            let o2 = (claim_walk(rest, key, value, note, keep, in_group, false)->0).0;
            assert(o =~= raw + o2);
            if o2.len() > 0 {
                assert(o2.last() == o.last());
            }
            lemma_unwritten(rest, key, value, note, keep, in_group, o2, x);
            lemma_step(t, o2, x, key, in_group, in_group);
        }
    }
}

/// The reading steps over the first piece of `t`, copied as it stands, into what follows it.
proof fn lemma_step(t: Seq<char>, o2: Seq<char>, x: Seq<char>, key: Seq<char>, in_group: bool, g: bool)
    requires
        t.len() > 0,
        after_piece(t).len() == 0 ==> o2.len() == 0,
        ({
            let raw = first_piece(t);
            let o = raw + o2;
            x.len() == 0 || x[0] == '\n' || o.last() == '\n'
        }),
        ({
            let body = strip_eol(first_piece(t));
            &&& is_header(body) ==> !in_group && g == is_group(body)
            &&& !is_header(body) ==> g == in_group && !(in_group && key_value(body, key) is Some)
        }),
        plain_key(key),
    ensures
        first_group_answer(first_piece(t) + o2 + x, key, in_group) == first_group_answer(o2 + x, key, g),
{
    let raw = first_piece(t);
    lemma_piece_lines(t);
    crate::keyfile::lemma_piece_split(t);
    assert(raw + o2 + x =~= raw + (o2 + x));
    if raw.last() == '\n' {
        lemma_whole_piece(raw, o2 + x);
        assert(first_group_answer(raw + (o2 + x), key, in_group) == first_group_answer(o2 + x, key, g));
    } else {
        assert(after_piece(t).len() == 0);
        assert(o2 + x =~= x);
        assert forall|j: int| 0 <= j < raw.len() implies raw[j] != '\n' by {
            if j == raw.len() - 1 {
                assert(raw[j] == raw.last());
            }
        }
        if x.len() == 0 {
            assert(raw + x =~= raw);
            assert(t =~= raw);
            assert(after_piece(raw).len() == 0);
            assert(first_piece(raw) == raw);
            assert(first_group_answer(after_piece(raw), key, g) is None);
            assert(first_group_answer(after_piece(raw), key, in_group) is None);
            assert(first_group_answer(raw, key, in_group) == first_group_answer(x, key, g));
        } else {
            let y = x.drop_first();
            assert(x =~= seq!['\n'] + y);
            lemma_open_piece(raw, y);
            lemma_answer_past_newline(y, key, g);
            assert(raw + (o2 + x) =~= raw + (seq!['\n'] + y));
            assert(first_group_answer(raw + (seq!['\n'] + y), key, in_group) == first_group_answer(y, key, g));
        }
    }
}

/// The claim's own lines, its note first where it leaves one: the reading finds the claimed value.
proof fn lemma_written_line(note: Option<Seq<char>>, key: Seq<char>, value: Seq<char>, y: Seq<char>)
    requires
        plain_key(key),
        plain_value(value),
        note is Some ==> forall|j: int| 0 <= j < note->0.len() ==> note->0[j] != '\n',
    ensures
        first_group_answer(
            match note {
                Some(h) => note_line(key, h),
                None => Seq::empty(),
            } + kv_line(key, value) + y,
            key,
            true,
        ) == Some(value),
{
    let tail = kv_line(key, value) + y;
    lemma_kv_reads(key, value, y);
    match note {
        Some(h) => {
            lemma_replaced_text();
            let nb = replaced() + key + seq!['='] + h;
            assert(nb[0] == replaced()[0]);
            assert forall|j: int| 0 <= j < nb.len() implies nb[j] != '\n' by {
                if j < replaced().len() {
                } else if j < replaced().len() + key.len() {
                    assert(nb[j] == key[j - replaced().len()]);
                } else if j > replaced().len() + key.len() {
                    assert(nb[j] == h[j - replaced().len() - key.len() - 1]);
                }
            }
            assert(note_line(key, h) + kv_line(key, value) + y =~= nb + seq!['\n'] + tail);
            lemma_note_reads(key, h, tail, true);
        },
        None => {
            assert(Seq::<char>::empty() + kv_line(key, value) + y =~= tail);
        },
    }
}

/// Once the claim has written its line, the first [preferred] group the reading reaches gives the key
/// the claimed value.
#[verifier::spinoff_prover]
#[verifier::rlimit(100)]
proof fn lemma_written(
    t: Seq<char>,
    key: Seq<char>,
    value: Seq<char>,
    note: Option<Seq<char>>,
    keep: bool,
    in_group: bool,
    o: Seq<char>,
    x: Seq<char>,
)
    requires
        claim_walk(t, key, value, note, keep, in_group, false) == Some((o, true)),
        plain_key(key),
        plain_value(value),
        note is Some ==> forall|j: int| 0 <= j < note->0.len() ==> note->0[j] != '\n',
    ensures
        first_group_answer(o + x, key, in_group) == Some(value),
    decreases t.len(),
{
    let raw = first_piece(t);
    let body = strip_eol(raw);
    let rest = after_piece(t);
    lemma_piece_lines(t);
    if is_header(body) {
        let g = is_group(body);
        if in_group {
            let o2 = (claim_walk(rest, key, value, note, keep, g, true)->0).0;
            assert(o + x =~= kv_line(key, value) + (raw + o2 + x));
            lemma_kv_reads(key, value, raw + o2 + x);
        } else {
            let o2 = (claim_walk(rest, key, value, note, keep, g, false)->0).0;
            assert(o =~= raw + o2);
            assert(rest.len() > 0);
            lemma_whole_piece(raw, o2 + x);
            assert(o + x =~= raw + (o2 + x));
            lemma_written(rest, key, value, note, keep, g, o2, x);
        }
    } else if in_group && !keep && is_marker(body, key) {
        lemma_written(rest, key, value, note, keep, in_group, o, x);
    } else if in_group && key_value(body, key) is Some {
        let o2 = (claim_walk(rest, key, value, note, keep, in_group, true)->0).0;
        let n = match note {
            Some(h) => note_line(key, h),
            None => Seq::empty(),
        };
        assert(o + x =~= n + kv_line(key, value) + (o2 + x));
        lemma_written_line(note, key, value, o2 + x);
    } else {
        let o2 = (claim_walk(rest, key, value, note, keep, in_group, false)->0).0;
        assert(o =~= raw + o2);
        assert(rest.len() > 0);
        lemma_whole_piece(raw, o2 + x);
        assert(o + x =~= raw + (o2 + x));
        lemma_written(rest, key, value, note, keep, in_group, o2, x);
    }
}

proof fn lemma_strip_prefix(s: Seq<char>)
    ensures
        strip_eol(s).len() <= s.len(),
        strip_eol(s) == s.take(strip_eol(s).len() as int),
    decreases s.len(),
{
    if s.len() > 0 && (s.last() == '\n' || s.last() == '\r') {
        lemma_strip_prefix(s.drop_last());
        assert(s.drop_last().take(strip_eol(s).len() as int) =~= s.take(strip_eol(s).len() as int));
    } else {
        assert(s.take(s.len() as int) =~= s);
    }
}

/// A text with a [preferred] heading line names [preferred].
proof fn lemma_heading_named(t: Seq<char>)
    requires
        has_group_heading(t),
    ensures
        contains(t, group()),
    decreases t.len(),
{
    let p = first_piece(t);
    let rest = after_piece(t);
    let n = group().len() as int;
    crate::keyfile::lemma_piece_split(t);
    if is_group(strip_eol(p)) {
        let b = strip_eol(p);
        lemma_strip_prefix(p);
        let ts = trim_start(b);
        lemma_trim_start_suffix(b);
        lemma_trim_end_prefix(ts);
        let i = b.len() - ts.len();
        assert(trim_end(ts) == group());
        assert(t.subrange(i, i + n) =~= group()) by {
            assert forall|j: int| 0 <= j < n implies t.subrange(i, i + n)[j] == group()[j] by {
                assert(group()[j] == ts[j]);
                assert(ts[j] == b[i + j]);
                assert(b[i + j] == p[i + j]);
                assert(p[i + j] == t[i + j]);
            }
        }
    } else {
        lemma_heading_named(rest);
        let i = choose|i: int| 0 <= i <= rest.len() - n && #[trigger] rest.subrange(i, i + n) == group();
        assert(t.subrange(p.len() + i, p.len() + i + n) =~= rest.subrange(i, i + n));
    }
}

/// A reading that finds a value passed a [preferred] heading.
proof fn lemma_answer_has_heading(t: Seq<char>, key: Seq<char>)
    requires
        first_group_answer(t, key, false) is Some,
    ensures
        has_group_heading(t),
    decreases t.len(),
{
    let body = strip_eol(first_piece(t));
    if !is_group(body) {
        lemma_answer_has_heading(after_piece(t), key);
    }
}

/// With no [preferred] heading the claim's walk copies the text and stays outside every group.
proof fn lemma_no_heading_walk(t: Seq<char>, key: Seq<char>, value: Seq<char>, note: Option<Seq<char>>, keep: bool)
    requires
        !has_group_heading(t),
    ensures
        claim_walk(t, key, value, note, keep, false, false) == Some((t, false)),
        !group_at_end(t, false),
    decreases t.len(),
{
    if t.len() > 0 {
        let raw = first_piece(t);
        lemma_no_heading_walk(after_piece(t), key, value, note, keep);
        crate::keyfile::lemma_piece_split(t);
        assert(Seq::<char>::empty() + raw =~= raw);
    }
}

/// `str::trim` keeps characters of the text only.
proof fn lemma_trim_no_newline(s: Seq<char>)
    requires
        forall|j: int| 0 <= j < s.len() ==> s[j] != '\n',
    ensures
        forall|j: int| 0 <= j < trim(s).len() ==> trim(s)[j] != '\n',
{
    lemma_trim_start_suffix(s);
    lemma_trim_end_prefix(trim_start(s));
    let ts = trim_start(s);
    assert forall|j: int| 0 <= j < trim(s).len() implies trim(s)[j] != '\n' by {
        assert(trim(s)[j] == ts[j]);
        assert(ts[j] == s[s.len() - ts.len() + j]);
    }
}

/// A value read from a line holds no newline.
proof fn lemma_read_no_newline(t: Seq<char>, key: Seq<char>, in_group: bool)
    requires
        read_find(t, key, in_group) is Some,
    ensures
        forall|j: int|
            0 <= j < read_find(t, key, in_group)->0.len() ==> read_find(t, key, in_group)->0[j] != '\n',
    decreases t.len(),
{
    let p = first_piece(t);
    let body = strip_eol(p);
    lemma_piece_lines(t);
    if is_header(body) {
        lemma_read_no_newline(after_piece(t), key, is_group(body));
    } else if in_group && key_value(body, key) is Some {
        let q = if p.last() == '\n' {
            p.drop_last()
        } else {
            p
        };
        assert(strip_eol(p) == strip_eol(q));
        assert forall|j: int| 0 <= j < q.len() implies q[j] != '\n' by {
            if j == p.len() - 1 {
                assert(q[j] == p.last());
            }
        }
        lemma_strip_unterminated(q);
        let v = body.skip(key.len() + 1int);
        assert forall|j: int| 0 <= j < v.len() implies v[j] != '\n' by {
            assert(v[j] == body[key.len() + 1 + j]);
            assert(body[key.len() + 1 + j] == q[key.len() + 1 + j]);
        }
        lemma_trim_no_newline(v);
    } else {
        lemma_read_no_newline(after_piece(t), key, in_group);
    }
}

/// A text whose first [preferred] group gives the key the value reads as that value, and a claim of
/// it finds nothing to do.
proof fn lemma_settled(out: Seq<char>, key: Seq<char>, value: Seq<char>)
    requires
        first_group_answer(out, key, false) == Some(value),
        plain_key(key),
    ensures
        preferred_value_of(out, key) == Some(value),
        claimed(out, key, value) is None,
{
    lemma_first_answer_found(out, key, false);
    lemma_find_reads(out, key, false);
    lemma_answer_has_heading(out, key);
    lemma_heading_named(out);
    lemma_first_answer_stops_claim(out, key, value, None, is_fleas(value), false);
}

/// A claim's value reads back: after a claim the key has the value it was given and a second claim
/// of it finds nothing to do, and where a claim finds nothing to do the key already has that value.
/// Wherever the text names [preferred], one of its lines is that heading.
pub proof fn a_claimed_value_reads_back(t: Seq<char>, key: Seq<char>, value: Seq<char>)
    requires
        plain_key(key),
        plain_value(value),
        contains(t, group()) ==> has_group_heading(t),
    ensures
        claimed(t, key, value) is Some ==> preferred_value_of(claimed(t, key, value)->0, key) == Some(value)
            && claimed(claimed(t, key, value)->0, key, value) is None,
        claimed(t, key, value) is None ==> preferred_value_of(t, key) == Some(value),
{
    let line = kv_line(key, value);
    if !contains(t, group()) {
        if has_group_heading(t) {
            lemma_heading_named(t);
        }
        lemma_no_heading_walk(t, key, value, None, false);
        let n = nl_if_needed(t);
        let x = n + (group() + seq!['\n'] + line);
        let out = t + n + group() + seq!['\n'] + line;
        assert(out =~= t + x);
        lemma_unwritten(t, key, value, None, false, false, t, x);
        lemma_fresh_group(n, key, value);
        lemma_settled(out, key, value);
    } else {
        let had = preferred_value_of(t, key);
        let note = if had is Some && had->0 != value && !is_fleas(had->0) {
            had
        } else {
            None
        };
        let keep = had is Some && is_fleas(had->0);
        lemma_find_reads(t, key, false);
        if had is Some {
            lemma_read_no_newline(t, key, false);
        }
        match claim_walk(t, key, value, note, keep, false, false) {
            None => {
                lemma_nothing_to_claim(t, key, value, note, keep, false);
            },
            Some((o, w)) => {
                if w {
                    lemma_written(t, key, value, note, keep, false, o, Seq::empty());
                    assert(o + Seq::<char>::empty() =~= o);
                    lemma_settled(o, key, value);
                } else {
                    let n = nl_if_needed(o);
                    let x = n + line;
                    assert(o + n + line =~= o + x);
                    lemma_unwritten(t, key, value, note, keep, false, o, x);
                    lemma_fresh_line(n, key, value);
                    lemma_settled(o + x, key, value);
                }
            },
        }
    }
}

/// Flea's line after the newline an unterminated text is owed: the group it stands in answers it.
proof fn lemma_fresh_line(n: Seq<char>, key: Seq<char>, value: Seq<char>)
    requires
        n.len() == 0 || n == seq!['\n'],
        plain_key(key),
        plain_value(value),
    ensures
        first_group_answer(n + kv_line(key, value), key, true) == Some(value),
{
    lemma_kv_reads(key, value, Seq::empty());
    let l = kv_line(key, value);
    assert(l + Seq::<char>::empty() =~= l);
    if n.len() == 0 {
        assert(n + l =~= l);
    } else {
        assert(n + l =~= seq!['\n'] + l);
        lemma_answer_past_newline(l, key, true);
    }
}

/// A new [preferred] group holding Flea's line answers it.
proof fn lemma_fresh_group(n: Seq<char>, key: Seq<char>, value: Seq<char>)
    requires
        n.len() == 0 || n == seq!['\n'],
        plain_key(key),
        plain_value(value),
    ensures
        first_group_answer(n + (group() + seq!['\n'] + kv_line(key, value)), key, false) == Some(value),
{
    let l = kv_line(key, value);
    let g = group();
    lemma_group_line();
    crate::keyfile::lemma_line_piece(g, l);
    crate::keyfile::lemma_line_body(g);
    lemma_kv_reads(key, value, Seq::empty());
    assert(l + Seq::<char>::empty() =~= l);
    let y = g + seq!['\n'] + l;
    if n.len() == 0 {
        assert(n + y =~= y);
    } else {
        assert(n + y =~= seq!['\n'] + y);
        lemma_answer_past_newline(y, key, false);
    }
}

/// The backend the undo would restore for `key`, each line read as the claim reads it: the first note
/// for `key` inside a [preferred] group.
spec fn read_note(t: Seq<char>, key: Seq<char>, in_group: bool) -> Option<Seq<char>>
    decreases t.len(),
{
    if t.len() == 0 {
        None
    } else {
        let body = strip_eol(first_piece(t));
        if is_header(body) {
            read_note(after_piece(t), key, is_group(body))
        } else if in_group && line_answer(body, key, true) is Some {
            line_answer(body, key, true)
        } else {
            read_note(after_piece(t), key, in_group)
        }
    }
}

proof fn lemma_replaced_has_no_cr()
    ensures
        forall|j: int| 0 <= j < replaced().len() ==> replaced()[j] != '\r',
{
    reveal_strlit("# flea replaced: ");
}

/// A note read with carriage returns left at its end names what it names without them.
proof fn lemma_note_agree(s: Seq<char>, r: Seq<char>, key: Seq<char>)
    requires
        all_cr(r),
    ensures
        line_answer(s + r, key, true) == line_answer(s, key, true),
{
    let n = replaced().len() as int;
    let l = s + r;
    lemma_replaced_text();
    if s.len() >= n {
        assert(l.take(n) =~= s.take(n));
        assert(l.skip(n) =~= s.skip(n) + r);
        lemma_readings_agree(s.skip(n), r, key);
    } else if l.len() >= n {
        lemma_replaced_has_no_cr();
        assert(l.take(n)[s.len() as int] == r[0]);
        assert(l.take(n) != replaced());
    }
}

/// Both readings of a line find the same note for `key`.
proof fn lemma_note_find_reads(t: Seq<char>, key: Seq<char>, in_group: bool)
    ensures
        group_find(t, key, in_group, true) == read_note(t, key, in_group),
    decreases t.len(),
{
    if t.len() > 0 {
        let p = first_piece(t);
        lemma_piece_lines(t);
        lemma_line_and_strip(p);
        let s = strip_eol(p);
        let r = line_of(p).skip(s.len() as int);
        lemma_readings_agree(s, r, key);
        lemma_note_agree(s, r, key);
        let body = line_of(p);
        let g = if is_header(body) {
            is_group(body)
        } else {
            in_group
        };
        lemma_note_find_reads(after_piece(t), key, g);
    }
}

proof fn lemma_note_past_newline(y: Seq<char>, key: Seq<char>, in_group: bool)
    ensures
        read_note(seq!['\n'] + y, key, in_group) == read_note(y, key, in_group),
{
    let e = Seq::<char>::empty();
    lemma_open_piece(e, y);
    assert(e + (seq!['\n'] + y) =~= seq!['\n'] + y);
    assert(e + seq!['\n'] =~= seq!['\n']);
    assert(strip_eol(e) == e);
    assert(trim_start(e) == e);
    lemma_replaced_text();
}

/// Flea's line is no note.
proof fn lemma_kv_no_note(key: Seq<char>, value: Seq<char>, y: Seq<char>, in_group: bool)
    requires
        plain_key(key),
        plain_value(value),
    ensures
        read_note(kv_line(key, value) + y, key, in_group) == read_note(y, key, in_group),
{
    lemma_kv_body(key, value);
    lemma_replaced_text();
    let l = key + seq!['='] + value;
    crate::keyfile::lemma_line_piece(l, y);
    crate::keyfile::lemma_line_body(l);
    assert(kv_line(key, value) + y =~= l + seq!['\n'] + y);
}

/// The reading of notes steps over the first piece of `t`, copied as it stands, into what follows it.
proof fn lemma_note_step(t: Seq<char>, o2: Seq<char>, x: Seq<char>, key: Seq<char>, in_group: bool, g: bool)
    requires
        t.len() > 0,
        after_piece(t).len() == 0 ==> o2.len() == 0,
        ({
            let o = first_piece(t) + o2;
            x.len() == 0 || x[0] == '\n' || o.last() == '\n'
        }),
        ({
            let body = strip_eol(first_piece(t));
            &&& is_header(body) ==> g == is_group(body)
            &&& !is_header(body) ==> g == in_group && !(in_group && line_answer(body, key, true) is Some)
        }),
    ensures
        read_note(first_piece(t) + o2 + x, key, in_group) == read_note(o2 + x, key, g),
{
    let raw = first_piece(t);
    lemma_piece_lines(t);
    crate::keyfile::lemma_piece_split(t);
    assert(raw + o2 + x =~= raw + (o2 + x));
    if raw.last() == '\n' {
        lemma_whole_piece(raw, o2 + x);
        assert(read_note(raw + (o2 + x), key, in_group) == read_note(o2 + x, key, g));
    } else {
        assert(after_piece(t).len() == 0);
        assert(o2 + x =~= x);
        assert forall|j: int| 0 <= j < raw.len() implies raw[j] != '\n' by {
            if j == raw.len() - 1 {
                assert(raw[j] == raw.last());
            }
        }
        if x.len() == 0 {
            assert(raw + x =~= raw);
            assert(t =~= raw);
            assert(first_piece(raw) == raw);
            assert(read_note(after_piece(raw), key, g) is None);
            assert(read_note(after_piece(raw), key, in_group) is None);
            assert(read_note(raw, key, in_group) == read_note(x, key, g));
        } else {
            let y = x.drop_first();
            assert(x =~= seq!['\n'] + y);
            lemma_open_piece(raw, y);
            lemma_note_past_newline(y, key, g);
            assert(raw + (o2 + x) =~= raw + (seq!['\n'] + y));
            assert(read_note(raw + (seq!['\n'] + y), key, in_group) == read_note(y, key, g));
        }
    }
}

/// Where the claim writes no line in place of the key's, it drops every note in [preferred] and leaves
/// none of its own.
#[verifier::spinoff_prover]
#[verifier::rlimit(100)]
proof fn lemma_notes_dropped(
    t: Seq<char>,
    key: Seq<char>,
    value: Seq<char>,
    note: Option<Seq<char>>,
    in_group: bool,
    written: bool,
    o: Seq<char>,
    x: Seq<char>,
)
    requires
        claim_walk(t, key, value, note, false, in_group, written) is Some,
        (claim_walk(t, key, value, note, false, in_group, written)->0).0 == o,
        !written ==> read_find(t, key, in_group) is None,
        x.len() == 0 || x[0] == '\n' || o.len() == 0 || o.last() == '\n',
        plain_key(key),
        plain_value(value),
    ensures
        read_note(o + x, key, in_group) == read_note(x, key, group_at_end(t, in_group)),
    decreases t.len(),
{
    if t.len() == 0 {
        assert(o + x =~= x);
    } else {
        let raw = first_piece(t);
        let body = strip_eol(raw);
        let rest = after_piece(t);
        lemma_piece_lines(t);
        crate::keyfile::lemma_piece_split(t);
        let g = is_group(body);
        if is_header(body) {
            let o2 = (claim_walk(rest, key, value, note, false, g, written || in_group)->0).0;
            if o2.len() > 0 {
                assert(o2.last() == o.last());
            }
            lemma_notes_dropped(rest, key, value, note, g, written || in_group, o2, x);
            if in_group && !written {
                assert(o =~= kv_line(key, value) + (raw + o2));
                assert(o + x =~= kv_line(key, value) + (raw + o2 + x));
                lemma_kv_no_note(key, value, raw + o2 + x, true);
                if (raw + o2).len() > 0 {
                    assert((raw + o2).last() == o.last());
                }
            } else {
                assert(o =~= raw + o2);
            }
            lemma_note_step(t, o2, x, key, in_group, g);
        } else if in_group && is_marker(body, key) {
            lemma_marker_no_key(body, key);
            lemma_notes_dropped(rest, key, value, note, in_group, written, o, x);
        } else if in_group && !written && key_value(body, key) is Some {
        } else {
            if is_group(body) {
                lemma_group_is_header(body);
            }
            let o2 = (claim_walk(rest, key, value, note, false, in_group, written)->0).0;
            assert(o =~= raw + o2);
            if o2.len() > 0 {
                assert(o2.last() == o.last());
            }
            lemma_notes_dropped(rest, key, value, note, in_group, written, o2, x);
            lemma_note_step(t, o2, x, key, in_group, in_group);
        }
    }
}

/// Where the first [preferred] group gives the key a value other than Flea's, the claim writes its
/// line in that one's place, under the note that names it.
#[verifier::spinoff_prover]
#[verifier::rlimit(100)]
proof fn lemma_note_written(t: Seq<char>, key: Seq<char>, value: Seq<char>, h: Seq<char>, in_group: bool)
    requires
        first_group_answer(t, key, in_group) is Some,
        first_group_answer(t, key, in_group)->0 != value,
        forall|j: int| 0 <= j < h.len() ==> h[j] != '\n',
        trim(h) == h,
        plain_key(key),
        plain_value(value),
    ensures
        claim_walk(t, key, value, Some(h), false, in_group, false) is Some,
        (claim_walk(t, key, value, Some(h), false, in_group, false)->0).1,
        read_note((claim_walk(t, key, value, Some(h), false, in_group, false)->0).0, key, in_group) == Some(h),
    decreases t.len(),
{
    let raw = first_piece(t);
    let body = strip_eol(raw);
    let rest = after_piece(t);
    let note = Some(h);
    lemma_piece_lines(t);
    crate::keyfile::lemma_piece_split(t);
    if is_header(body) {
        let g = is_group(body);
        lemma_note_written(rest, key, value, h, g);
        let o2 = (claim_walk(rest, key, value, note, false, g, false)->0).0;
        assert(rest.len() > 0);
        lemma_whole_piece(raw, o2);
        assert(Seq::<char>::empty() + raw =~= raw);
    } else if in_group && is_marker(body, key) {
        lemma_marker_no_key(body, key);
        lemma_note_written(rest, key, value, h, in_group);
    } else if in_group && key_value(body, key) is Some {
        lemma_written_stays(rest, key, value, note, false, in_group);
        let o2 = (claim_walk(rest, key, value, note, false, in_group, true)->0).0;
        lemma_replaced_text();
        let k = key + seq!['='] + h;
        let nb = replaced() + k;
        assert forall|j: int| 0 <= j < nb.len() implies nb[j] != '\n' by {
            if j < replaced().len() {
            } else if j < replaced().len() + key.len() {
                assert(nb[j] == key[j - replaced().len()]);
            } else if j > replaced().len() + key.len() {
                assert(nb[j] == h[j - replaced().len() - key.len() - 1]);
            }
        }
        let tail = kv_line(key, value) + o2;
        assert(note_line(key, h) + kv_line(key, value) + o2 =~= nb + seq!['\n'] + tail);
        crate::keyfile::lemma_line_piece(nb, tail);
        lemma_open_piece(nb, Seq::empty());
        lemma_strip_unterminated(nb);
        let s = strip_eol(nb);
        let r = nb.skip(s.len() as int);
        assert(nb =~= s + r);
        lemma_note_agree(s, r, key);
        assert(nb.take(replaced().len() as int) =~= replaced());
        assert(nb.skip(replaced().len() as int) =~= k);
        assert(k.take(key.len() as int) =~= key);
        assert(k.skip(key.len() + 1int) =~= h);
        assert(line_answer(nb, key, true) == Some(h));
        if s.len() == 0 {
            assert(r[0] == nb[0]);
        }
        assert(s[0] == nb.take(s.len() as int)[0]);
        assert(!is_ws('#'));
        assert(trim_start(s) == s);
    } else {
        lemma_note_written(rest, key, value, h, in_group);
        let o2 = (claim_walk(rest, key, value, note, false, in_group, false)->0).0;
        assert(rest.len() > 0);
        lemma_whole_piece(raw, o2);
    }
}

proof fn lemma_trim_start_first(s: Seq<char>)
    ensures
        trim_start(s).len() == 0 || !is_ws(trim_start(s)[0]),
    decreases s.len(),
{
    if s.len() > 0 && is_ws(s[0]) {
        lemma_trim_start_first(s.drop_first());
    }
}

proof fn lemma_trim_end_last(s: Seq<char>)
    ensures
        trim_end(s).len() == 0 || !is_ws(trim_end(s).last()),
    decreases s.len(),
{
    if s.len() > 0 && is_ws(s.last()) {
        lemma_trim_end_last(s.drop_last());
    }
}

/// What `str::trim` returns it would return unchanged.
proof fn lemma_trim_again(s: Seq<char>)
    ensures
        trim(trim(s)) == trim(s),
{
    let ts = trim_start(s);
    let u = trim(s);
    lemma_trim_start_first(s);
    lemma_trim_end_prefix(ts);
    lemma_trim_end_last(ts);
    if u.len() > 0 {
        assert(u[0] == ts[0]);
        assert(trim_start(u) == u);
        assert(trim_end(u) == u);
    } else {
        assert(trim_start(u) == u);
    }
}

/// A value read from a line is trimmed.
proof fn lemma_read_trimmed(t: Seq<char>, key: Seq<char>, in_group: bool)
    requires
        read_find(t, key, in_group) is Some,
    ensures
        trim(read_find(t, key, in_group)->0) == read_find(t, key, in_group)->0,
    decreases t.len(),
{
    let body = strip_eol(first_piece(t));
    if is_header(body) {
        lemma_read_trimmed(after_piece(t), key, is_group(body));
    } else if in_group && key_value(body, key) is Some {
        lemma_trim_again(body.skip(key.len() + 1int));
    } else {
        lemma_read_trimmed(after_piece(t), key, in_group);
    }
}

/// A new [preferred] group holding Flea's line holds no note.
proof fn lemma_fresh_group_notes(n: Seq<char>, key: Seq<char>, value: Seq<char>)
    requires
        n.len() == 0 || n == seq!['\n'],
        plain_key(key),
        plain_value(value),
    ensures
        read_note(n + (group() + seq!['\n'] + kv_line(key, value)), key, false) is None,
{
    let l = kv_line(key, value);
    let g = group();
    lemma_group_line();
    crate::keyfile::lemma_line_piece(g, l);
    crate::keyfile::lemma_line_body(g);
    lemma_kv_no_note(key, value, Seq::empty(), true);
    assert(l + Seq::<char>::empty() =~= l);
    let y = g + seq!['\n'] + l;
    if n.len() == 0 {
        assert(n + y =~= y);
    } else {
        assert(n + y =~= seq!['\n'] + y);
        lemma_note_past_newline(y, key, false);
    }
}

/// Flea's line after the newline an unterminated text is owed is no note.
proof fn lemma_fresh_line_notes(n: Seq<char>, key: Seq<char>, value: Seq<char>, in_group: bool)
    requires
        n.len() == 0 || n == seq!['\n'],
        plain_key(key),
        plain_value(value),
    ensures
        read_note(n + kv_line(key, value), key, in_group) is None,
{
    let l = kv_line(key, value);
    lemma_kv_no_note(key, value, Seq::empty(), in_group);
    assert(l + Seq::<char>::empty() =~= l);
    if n.len() == 0 {
        assert(n + l =~= l);
    } else {
        assert(n + l =~= seq!['\n'] + l);
        lemma_note_past_newline(l, key, in_group);
    }
}

/// Flea's line appended after a text, with the newline an unterminated text is owed, adds no note.
proof fn lemma_note_append(o: Seq<char>, key: Seq<char>, value: Seq<char>, in_group: bool)
    requires
        plain_key(key),
        plain_value(value),
    ensures
        read_note(o + nl_if_needed(o) + kv_line(key, value), key, in_group) == read_note(o, key, in_group),
    decreases o.len(),
{
    let n = nl_if_needed(o);
    let l = kv_line(key, value);
    if o.len() == 0 {
        assert(o + n + l =~= l);
        lemma_fresh_line_notes(Seq::empty(), key, value, in_group);
        assert(Seq::<char>::empty() + l =~= l);
    } else {
        let raw = first_piece(o);
        let body = strip_eol(raw);
        let rest = after_piece(o);
        lemma_piece_lines(o);
        crate::keyfile::lemma_piece_split(o);
        let g = if is_header(body) {
            is_group(body)
        } else {
            in_group
        };
        if rest.len() > 0 {
            assert(rest.last() == o.last());
            assert(nl_if_needed(rest) == n);
            lemma_note_append(rest, key, value, g);
            assert(o + n + l =~= raw + (rest + n + l));
            lemma_whole_piece(raw, rest + n + l);
            assert(o =~= raw + rest);
            lemma_whole_piece(raw, rest);
        } else {
            assert(o =~= raw);
            assert(first_piece(raw) == raw);
            lemma_fresh_line_notes(Seq::empty(), key, value, g);
            assert(Seq::<char>::empty() + l =~= l);
            assert(read_note(after_piece(raw), key, g) is None);
            if raw.last() == '\n' {
                lemma_whole_piece(raw, l);
                assert(o + n + l =~= raw + l);
            } else {
                assert forall|j: int| 0 <= j < raw.len() implies raw[j] != '\n' by {
                    if j == raw.len() - 1 {
                        assert(raw[j] == raw.last());
                    }
                }
                lemma_open_piece(raw, l);
                assert(o + n + l =~= raw + (seq!['\n'] + l));
            }
        }
    }
}

/// A claim that keeps the notes writes only lines that are no notes, so the notes read as they did.
#[verifier::spinoff_prover]
#[verifier::rlimit(100)]
proof fn lemma_notes_kept(t: Seq<char>, key: Seq<char>, value: Seq<char>, in_group: bool, written: bool)
    requires
        claim_walk(t, key, value, None, true, in_group, written) is Some,
        plain_key(key),
        plain_value(value),
    ensures
        read_note((claim_walk(t, key, value, None, true, in_group, written)->0).0, key, in_group) == read_note(
            t,
            key,
            in_group,
        ),
    decreases t.len(),
{
    if t.len() > 0 {
        let raw = first_piece(t);
        let body = strip_eol(raw);
        let rest = after_piece(t);
        lemma_piece_lines(t);
        crate::keyfile::lemma_piece_split(t);
        let o = (claim_walk(t, key, value, None, true, in_group, written)->0).0;
        lemma_replaced_text();
        if is_header(body) {
            let g = is_group(body);
            let w2 = written || in_group;
            lemma_notes_kept(rest, key, value, g, w2);
            let o2 = (claim_walk(rest, key, value, None, true, g, w2)->0).0;
            if rest.len() > 0 {
                lemma_whole_piece(raw, o2);
                lemma_whole_piece(raw, rest);
            } else {
                assert(o2.len() == 0);
                assert(raw + o2 =~= raw);
                assert(t =~= raw);
            }
            if in_group && !written {
                assert(o =~= kv_line(key, value) + (raw + o2));
                lemma_kv_no_note(key, value, raw + o2, true);
            } else {
                assert(o =~= raw + o2);
            }
        } else if in_group && !written && key_value(body, key) is Some {
            if key_value(body, key)->0 != value {
                let o2 = (claim_walk(rest, key, value, None, true, in_group, true)->0).0;
                lemma_notes_kept(rest, key, value, in_group, true);
                assert(o =~= kv_line(key, value) + o2);
                lemma_kv_no_note(key, value, o2, in_group);
                if is_marker(body, key) {
                    lemma_marker_no_key(body, key);
                }
                if rest.len() > 0 {
                    lemma_whole_piece(raw, rest);
                } else {
                    assert(t =~= raw);
                    assert(o2.len() == 0);
                }
            }
        } else {
            let o2 = (claim_walk(rest, key, value, None, true, in_group, written)->0).0;
            lemma_notes_kept(rest, key, value, in_group, written);
            assert(o =~= raw + o2);
            if rest.len() > 0 {
                lemma_whole_piece(raw, o2);
                lemma_whole_piece(raw, rest);
            } else {
                assert(o2.len() == 0);
                assert(raw + o2 =~= raw);
            }
        }
    }
}

/// A reading that finds a value passed a [preferred] heading.
proof fn lemma_read_has_heading(t: Seq<char>, key: Seq<char>)
    requires
        read_find(t, key, false) is Some,
    ensures
        has_group_heading(t),
    decreases t.len(),
{
    let body = strip_eol(first_piece(t));
    if !is_group(body) {
        lemma_read_has_heading(after_piece(t), key);
    }
}

/// What the undo puts back after a claim. Where the key had a value other than Flea's, and the first
/// [preferred] group held it, the claim leaves one note for the key and that note names the value, so
/// the undo restores it; where the key had no value, every note the text held for it in [preferred]
/// is dropped and the undo restores nothing; where the key had one of Flea's own values, the notes stay
/// as they were and the undo restores what it would have restored before.
pub proof fn a_claim_notes_what_it_replaced(t: Seq<char>, key: Seq<char>, value: Seq<char>)
    requires
        plain_key(key),
        plain_value(value),
        contains(t, group()) ==> has_group_heading(t),
    ensures
        claimed(t, key, value) is Some && preferred_value_of(t, key) is None ==> group_find(
            claimed(t, key, value)->0,
            key,
            false,
            true,
        ) is None,
        claimed(t, key, value) is Some && preferred_value_of(t, key) is Some && !is_fleas(
            preferred_value_of(t, key)->0,
        ) && first_group_answer(t, key, false) == preferred_value_of(t, key) ==> group_find(
            claimed(t, key, value)->0,
            key,
            false,
            true,
        ) == preferred_value_of(t, key),
        claimed(t, key, value) is Some && preferred_value_of(t, key) is Some && is_fleas(
            preferred_value_of(t, key)->0,
        ) ==> group_find(claimed(t, key, value)->0, key, false, true) == group_find(t, key, false, true),
{
    let line = kv_line(key, value);
    let had = preferred_value_of(t, key);
    lemma_find_reads(t, key, false);
    if claimed(t, key, value) is Some {
        let out = claimed(t, key, value)->0;
        lemma_note_find_reads(out, key, false);
        if had is None {
            if !contains(t, group()) {
                if has_group_heading(t) {
                    lemma_heading_named(t);
                }
                lemma_no_heading_walk(t, key, value, None, false);
                let n = nl_if_needed(t);
                let x = n + (group() + seq!['\n'] + line);
                assert(out =~= t + x);
                lemma_notes_dropped(t, key, value, None, false, false, t, x);
                lemma_fresh_group_notes(n, key, value);
            } else {
                let o = (claim_walk(t, key, value, None, false, false, false)->0).0;
                if (claim_walk(t, key, value, None, false, false, false)->0).1 {
                    assert(o + Seq::<char>::empty() =~= o);
                    lemma_notes_dropped(t, key, value, None, false, false, o, Seq::empty());
                } else {
                    let n = nl_if_needed(o);
                    let x = n + line;
                    assert(out =~= o + x);
                    lemma_notes_dropped(t, key, value, None, false, false, o, x);
                    lemma_fresh_line_notes(n, key, value, group_at_end(t, false));
                }
            }
        } else if !is_fleas(had->0) && first_group_answer(t, key, false) == had {
            lemma_answer_has_heading(t, key);
            lemma_heading_named(t);
            let h = had->0;
            if h == value {
                lemma_first_answer_stops_claim(t, key, value, None, is_fleas(value), false);
            }
            lemma_read_no_newline(t, key, false);
            lemma_read_trimmed(t, key, false);
            lemma_note_written(t, key, value, h, false);
        } else if is_fleas(had->0) {
            lemma_read_has_heading(t, key);
            lemma_heading_named(t);
            lemma_note_find_reads(t, key, false);
            lemma_notes_kept(t, key, value, false, false);
            let o = (claim_walk(t, key, value, None, true, false, false)->0).0;
            if !(claim_walk(t, key, value, None, true, false, false)->0).1 {
                lemma_note_append(o, key, value, false);
            }
        }
    }
}

/// How many lines of `t`, read as the claim reads them, are the [preferred] heading.
pub open spec fn group_headings(t: Seq<char>) -> nat
    decreases t.len(),
{
    if t.len() == 0 {
        0
    } else {
        (if is_group(strip_eol(first_piece(t))) {
            1nat
        } else {
            0nat
        }) + group_headings(after_piece(t))
    }
}

/// With no [preferred] heading left, the reading finds nothing outside a group.
proof fn lemma_no_more_groups(t: Seq<char>, key: Seq<char>)
    requires
        group_headings(t) == 0,
    ensures
        read_find(t, key, false) is None,
    decreases t.len(),
{
    if t.len() > 0 {
        lemma_no_more_groups(after_piece(t), key);
    }
}

/// In a text with one [preferred] group, the value the reading finds is the one that group gives.
proof fn lemma_one_group_first(t: Seq<char>, key: Seq<char>, in_group: bool)
    requires
        group_headings(t) + (if in_group {
            1nat
        } else {
            0nat
        }) <= 1,
    ensures
        first_group_answer(t, key, in_group) == read_find(t, key, in_group),
    decreases t.len(),
{
    if t.len() > 0 {
        let body = strip_eol(first_piece(t));
        let rest = after_piece(t);
        if is_header(body) {
            if in_group {
                lemma_no_more_groups(rest, key);
            } else {
                lemma_one_group_first(rest, key, is_group(body));
            }
        } else {
            if is_group(body) {
                lemma_group_is_header(body);
            }
            lemma_one_group_first(rest, key, in_group);
        }
    }
}

/// What the undo puts back after a claim on a text with one [preferred] group: the backend the claim
/// replaced where the key had a value other than Flea's, named by the one note the claim leaves;
/// nothing where the key had no value, every stale note being dropped; and what it would have put
/// back before where the key had one of Flea's own values, the notes kept as they were.
pub proof fn one_group_claim_notes_what_it_replaced(t: Seq<char>, key: Seq<char>, value: Seq<char>)
    requires
        plain_key(key),
        plain_value(value),
        group_headings(t) <= 1,
        contains(t, group()) ==> has_group_heading(t),
    ensures
        claimed(t, key, value) is Some && preferred_value_of(t, key) is None ==> group_find(
            claimed(t, key, value)->0,
            key,
            false,
            true,
        ) is None,
        claimed(t, key, value) is Some && preferred_value_of(t, key) is Some && !is_fleas(
            preferred_value_of(t, key)->0,
        ) ==> group_find(claimed(t, key, value)->0, key, false, true) == preferred_value_of(t, key),
        claimed(t, key, value) is Some && preferred_value_of(t, key) is Some && is_fleas(
            preferred_value_of(t, key)->0,
        ) ==> group_find(claimed(t, key, value)->0, key, false, true) == group_find(t, key, false, true),
{
    lemma_one_group_first(t, key, false);
    lemma_find_reads(t, key, false);
    a_claim_notes_what_it_replaced(t, key, value);
}

/// No line inside a [preferred] group, read as the claim reads it, is a note for `key` or gives `key`
/// a value: a group that has never routed the key.
pub open spec fn nothing_for_key(t: Seq<char>, key: Seq<char>, in_group: bool) -> bool
    decreases t.len(),
{
    if t.len() == 0 {
        true
    } else {
        let body = strip_eol(first_piece(t));
        let g = if is_header(body) {
            is_group(body)
        } else {
            in_group
        };
        &&& (!is_header(body) && in_group) ==> !is_marker(body, key) && key_value(body, key) is None
        &&& nothing_for_key(after_piece(t), key, g)
    }
}

proof fn lemma_nothing_found(t: Seq<char>, key: Seq<char>, in_group: bool)
    requires
        nothing_for_key(t, key, in_group),
    ensures
        read_find(t, key, in_group) is None,
    decreases t.len(),
{
    if t.len() > 0 {
        let body = strip_eol(first_piece(t));
        let g = if is_header(body) {
            is_group(body)
        } else {
            in_group
        };
        lemma_nothing_found(after_piece(t), key, g);
    }
}

/// Once written, the claim copies a text that has nothing for the key as it stands.
proof fn lemma_free_claim_copies(t: Seq<char>, key: Seq<char>, value: Seq<char>, in_group: bool)
    requires
        nothing_for_key(t, key, in_group),
    ensures
        claim_walk(t, key, value, None, false, in_group, true) == Some((t, true)),
    decreases t.len(),
{
    if t.len() > 0 {
        let raw = first_piece(t);
        let body = strip_eol(raw);
        let g = if is_header(body) {
            is_group(body)
        } else {
            in_group
        };
        lemma_free_claim_copies(after_piece(t), key, value, g);
        crate::keyfile::lemma_piece_split(t);
        assert(Seq::<char>::empty() + raw =~= raw);
    }
}

/// The undo copies a text that has nothing for the key as it stands.
proof fn lemma_free_release_copies(t: Seq<char>, key: Seq<char>, in_group: bool, changed: bool)
    requires
        nothing_for_key(t, key, in_group),
    ensures
        release_walk(t, key, None, in_group, changed) == (t, changed),
    decreases t.len(),
{
    if t.len() > 0 {
        let raw = first_piece(t);
        let body = strip_eol(raw);
        let g = if is_header(body) {
            is_group(body)
        } else {
            in_group
        };
        lemma_free_release_copies(after_piece(t), key, g, changed);
        crate::keyfile::lemma_piece_split(t);
    }
}

/// Flea's line at the front of a group, as the undo meets it: it goes, and nothing is put back.
proof fn lemma_release_drops_line(key: Seq<char>, value: Seq<char>, y: Seq<char>, changed: bool)
    requires
        plain_key(key),
        plain_value(value),
        is_fleas(value),
    ensures
        release_walk(kv_line(key, value) + y, key, None, true, changed) == release_walk(y, key, None, true, true),
{
    lemma_kv_body(key, value);
    let l = key + seq!['='] + value;
    crate::keyfile::lemma_line_piece(l, y);
    crate::keyfile::lemma_line_body(l);
    assert(kv_line(key, value) + y =~= l + seq!['\n'] + y);
    let o = release_walk(y, key, None, true, true).0;
    assert(Seq::<char>::empty() + o =~= o);
}

/// Flea's line appended at the end of the group a text ends in is what the undo takes out again.
proof fn lemma_release_appended(t: Seq<char>, key: Seq<char>, value: Seq<char>, in_group: bool)
    requires
        nothing_for_key(t, key, in_group),
        t.len() == 0 || t.last() == '\n',
        group_at_end(t, in_group),
        plain_key(key),
        plain_value(value),
        is_fleas(value),
    ensures
        release_walk(t + kv_line(key, value), key, None, in_group, false) == (t, true),
    decreases t.len(),
{
    let l = kv_line(key, value);
    if t.len() == 0 {
        assert(t + l =~= l);
        assert(l =~= l + Seq::<char>::empty());
        lemma_release_drops_line(key, value, Seq::empty(), false);
    } else {
        let raw = first_piece(t);
        let body = strip_eol(raw);
        let rest = after_piece(t);
        lemma_piece_lines(t);
        crate::keyfile::lemma_piece_split(t);
        let g = if is_header(body) {
            is_group(body)
        } else {
            in_group
        };
        if rest.len() > 0 {
            assert(rest.last() == t.last());
        } else {
            assert(t =~= raw);
        }
        lemma_release_appended(rest, key, value, g);
        lemma_whole_piece(raw, rest + l);
        assert(t + l =~= raw + (rest + l));
        assert(raw + rest =~= t);
    }
}

/// The claim on a text that has nothing for the key, and its undo: either the claim wrote Flea's line
/// where the first [preferred] group closes and the undo takes it out, or it wrote nothing on the way.
#[verifier::spinoff_prover]
#[verifier::rlimit(100)]
proof fn lemma_free_round_trip(t: Seq<char>, key: Seq<char>, value: Seq<char>, in_group: bool)
    requires
        nothing_for_key(t, key, in_group),
        t.len() == 0 || t.last() == '\n',
        plain_key(key),
        plain_value(value),
        is_fleas(value),
    ensures
        claim_walk(t, key, value, None, false, in_group, false) is Some,
        ({
            let (o, w) = claim_walk(t, key, value, None, false, in_group, false)->0;
            &&& w ==> release_walk(o, key, None, in_group, false) == (t, true)
            &&& !w ==> o == t
        }),
    decreases t.len(),
{
    if t.len() > 0 {
        let raw = first_piece(t);
        let body = strip_eol(raw);
        let rest = after_piece(t);
        lemma_piece_lines(t);
        crate::keyfile::lemma_piece_split(t);
        assert(raw + rest =~= t);
        if rest.len() > 0 {
            assert(rest.last() == t.last());
        } else {
            assert(t =~= raw);
        }
        let g = if is_header(body) {
            is_group(body)
        } else {
            in_group
        };
        if is_header(body) && in_group {
            lemma_free_claim_copies(rest, key, value, g);
            lemma_free_release_copies(rest, key, g, true);
            let o = kv_line(key, value) + raw + rest;
            assert(claim_walk(t, key, value, None, false, in_group, false) == Some((o, true)));
            assert(o =~= kv_line(key, value) + (raw + rest));
            lemma_release_drops_line(key, value, raw + rest, false);
            lemma_whole_piece(raw, rest);
        } else {
            lemma_free_round_trip(rest, key, value, g);
            let o2 = (claim_walk(rest, key, value, None, false, g, false)->0).0;
            if is_header(body) {
                assert(Seq::<char>::empty() + raw =~= raw);
            }
            assert(claim_walk(t, key, value, None, false, in_group, false) == prepend(
                raw,
                claim_walk(rest, key, value, None, false, g, false),
            ));
            lemma_whole_piece(raw, o2);
        }
    }
}

/// A claim and its undo give the file back where [preferred] has never routed the key: the claim adds
/// Flea's line where the first [preferred] group closes, or at the end when it is the last, and the
/// undo takes it out again, byte for byte.
pub proof fn a_claim_added_and_undone_gives_the_file_back(t: Seq<char>, key: Seq<char>, value: Seq<char>)
    requires
        has_group_heading(t),
        t.len() == 0 || t.last() == '\n',
        nothing_for_key(t, key, false),
        plain_key(key),
        plain_value(value),
        is_fleas(value),
    ensures
        claimed(t, key, value) is Some,
        released(claimed(t, key, value)->0, key) == Some(t),
{
    lemma_heading_named(t);
    lemma_nothing_found(t, key, false);
    lemma_find_reads(t, key, false);
    lemma_free_round_trip(t, key, value, false);
    let (o, w) = claim_walk(t, key, value, None, false, false, false)->0;
    let out = claimed(t, key, value)->0;
    lemma_note_find_reads(out, key, false);
    if w {
        assert(o + Seq::<char>::empty() =~= o);
        lemma_notes_dropped(t, key, value, None, false, false, o, Seq::empty());
    } else {
        let line = kv_line(key, value);
        assert(nl_if_needed(o) =~= Seq::<char>::empty());
        assert(out =~= t + line);
        lemma_unwritten(t, key, value, None, false, false, o, Seq::empty());
        lemma_notes_dropped(t, key, value, None, false, false, o, line);
        lemma_fresh_line_notes(Seq::empty(), key, value, group_at_end(t, false));
        assert(Seq::<char>::empty() + line =~= line);
        lemma_release_appended(t, key, value, false);
    }
}

/// One piece of the claim: what it appends, and the group and written flags after it.
#[verifier::rlimit(60)]
fn claim_piece(
    t: &Vec<char>,
    p: &Piece,
    k: &Vec<char>,
    val: &Vec<char>,
    grp: &Vec<char>,
    rep: &Vec<char>,
    note: Option<(usize, usize)>,
    Ghost(note_s): Ghost<Option<Seq<char>>>,
    keep: bool,
    in_group: bool,
    written: bool,
    out: &mut String,
) -> (r: Option<(bool, bool)>)
    requires
        piece_ok(t@, p.start as int, *p),
        grp@ == group(),
        rep@ == replaced(),
        match note {
            Some((a, b)) => a <= b <= t.len(),
            None => true,
        },
        note_s == (match note {
            Some((a, b)) => Some(t@.subrange(a as int, b as int)),
            None => None,
        }),
    ensures
        match r {
            Some((g, w)) => {
                &&& final(out)@.len() >= old(out)@.len()
                &&& final(out)@.take(old(out)@.len() as int) == old(out)@
                &&& prepend(
                    final(out)@.skip(old(out)@.len() as int),
                    claim_walk(t@.skip(p.end as int), k@, val@, note_s, keep, g, w),
                ) == claim_walk(t@.skip(p.start as int), k@, val@, note_s, keep, in_group, written)
            },
            None => claim_walk(t@.skip(p.start as int), k@, val@, note_s, keep, in_group, written) is None,
        },
{
    let ghost s = t@.skip(p.start as int);
    let ghost o = out@;
    assert(after_piece(s) == t@.skip(p.end as int));
    if header_at(t, p.start, p.body_end) {
        // Leaving the group without having found the key: it goes in at the end of the group.
        if in_group && !written {
            push_kv_line(out, k, val);
        }
        push_range(out, t, p.start, p.end);
        let g = trimmed_is(t, p.start, p.body_end, grp);
        assert(out@.skip(o.len() as int) =~= (if in_group && !written {
            kv_line(k@, val@)
        } else {
            Seq::empty()
        }) + first_piece(s));
        assert(out@.take(o.len() as int) =~= o);
        Some((g, written || in_group))
    } else if in_group && !keep && marker_at(t, p.start, p.body_end, k, rep) {
        assert(out@.skip(o.len() as int) =~= Seq::<char>::empty());
        assert(out@.take(o.len() as int) =~= o);
        proof {
            lemma_prepend_empty(claim_walk(t@.skip(p.end as int), k@, val@, note_s, keep, in_group, written));
        }
        Some((in_group, written))
    } else if in_group && !written && key_value_at(t, p.start, p.body_end, k).is_some() {
        let (a, b) = key_value_at(t, p.start, p.body_end, k).unwrap();
        if range_eq(t, a, b, val) {
            return None;
        }
        match note {
            Some((na, nb)) => {
                push_all(out, rep);
                push_kv_line_range(out, k, t, na, nb);
            },
            None => {},
        }
        push_kv_line(out, k, val);
        assert(out@.skip(o.len() as int) =~= (match note_s {
            Some(h) => note_line(k@, h),
            None => Seq::empty(),
        }) + kv_line(k@, val@));
        assert(out@.take(o.len() as int) =~= o);
        Some((in_group, true))
    } else {
        push_range(out, t, p.start, p.end);
        assert(out@.skip(o.len() as int) =~= first_piece(s));
        assert(out@.take(o.len() as int) =~= o);
        Some((in_group, written))
    }
}

fn push_kv_line_range(out: &mut String, key: &Vec<char>, v: &Vec<char>, lo: usize, hi: usize)
    requires
        lo <= hi <= v.len(),
    ensures
        final(out)@ == old(out)@ + kv_line(key@, v@.subrange(lo as int, hi as int)),
{
    push_all(out, key);
    crate::text::push_char(out, '=');
    push_range(out, v, lo, hi);
    crate::text::push_char(out, '\n');
    assert(final(out)@ =~= old(out)@ + kv_line(key@, v@.subrange(lo as int, hi as int)));
}

/// portals.conf(5) is a key file, of which only one key in one group is Flea's:
///   [preferred]
///   default=hyprland;gtk
///   # flea replaced: org.freedesktop.impl.portal.FileChooser=gnome;gtk
///   org.freedesktop.impl.portal.FileChooser=flea;gtk
/// Returns the file with `key=value` in [preferred], or None when it already says exactly that. A
/// default= line is never touched: it is what every other interface still resolves through.
pub fn set_preferred(text: &str, key: &str, value: &str) -> (r: Option<String>)
    ensures
        opt_view(r) == claimed(text@, key@, value@),
{
    let t = chars_of(text);
    let k = chars_of(key);
    let val = chars_of(value);
    let grp = chars_of(GROUP);
    let rep = chars_of(REPLACED);
    let fl = chars_of(FLEA);
    if !contains_at_all(&t, &grp) {
        let mut out = String::new();
        push_all(&mut out, &t);
        push_nl_if_needed(&mut out);
        push_all(&mut out, &grp);
        crate::text::push_char(&mut out, '\n');
        push_kv_line(&mut out, &k, &val);
        assert(out@ =~= t@ + nl_if_needed(t@) + group() + seq!['\n'] + kv_line(k@, val@));
        return Some(out);
    }
    // A backend that is not Flea's earns a note; an older note survives only over a Flea-spelled line it still explains.
    let had = find_in_group(&t, &k, false);
    let mut note: Option<(usize, usize)> = None;
    let mut keep_old_note = false;
    match had {
        Some((a, b)) => {
            let same = range_eq(&t, a, b, &val);
            let theirs = fleas_at(&t, a, b, &fl);
            if !same && !theirs {
                note = Some((a, b));
            }
            keep_old_note = theirs;
        },
        None => {},
    }
    let ghost note_s: Option<Seq<char>> = match note {
        Some((a, b)) => Some(t@.subrange(a as int, b as int)),
        None => None,
    };
    assert(note_s == (if preferred_value_of(t@, k@) is Some && preferred_value_of(t@, k@)->0 != val@
        && !is_fleas(preferred_value_of(t@, k@)->0) {
        preferred_value_of(t@, k@)
    } else {
        None
    }));
    assert(keep_old_note == (preferred_value_of(t@, k@) is Some && is_fleas(
        preferred_value_of(t@, k@)->0,
    )));
    let mut out = String::new();
    let mut in_group = false;
    let mut written = false;
    let mut i: usize = 0;
    assert(t@.skip(0) =~= t@);
    assert(prepend(out@, claim_walk(t@, k@, val@, note_s, keep_old_note, false, false)) =~= claim_walk(
        t@,
        k@,
        val@,
        note_s,
        keep_old_note,
        false,
        false,
    )) by {
        lemma_prepend_empty(claim_walk(t@, k@, val@, note_s, keep_old_note, false, false));
    }
    while i < t.len()
        invariant
            i <= t.len(),
            grp@ == group(),
            rep@ == replaced(),
            contains(t@, group()),
            t@ == text@,
            k@ == key@,
            val@ == value@,
            keep_old_note == (preferred_value_of(t@, k@) is Some && is_fleas(
                preferred_value_of(t@, k@)->0,
            )),
            note_s == (if preferred_value_of(t@, k@) is Some && preferred_value_of(t@, k@)->0 != val@
                && !is_fleas(preferred_value_of(t@, k@)->0) {
                preferred_value_of(t@, k@)
            } else {
                None
            }),
            match note {
                Some((a, b)) => a <= b <= t.len(),
                None => true,
            },
            note_s == (match note {
                Some((a, b)) => Some(t@.subrange(a as int, b as int)),
                None => None,
            }),
            claim_walk(t@, k@, val@, note_s, keep_old_note, false, false) == prepend(
                out@,
                claim_walk(t@.skip(i as int), k@, val@, note_s, keep_old_note, in_group, written),
            ),
        decreases t.len() - i,
    {
        let p = next_piece(&t, i);
        let ghost before = out@;
        match claim_piece(&t, &p, &k, &val, &grp, &rep, note, Ghost(note_s), keep_old_note, in_group, written, &mut out) {
            Some((g, w)) => {
                proof {
                    lemma_prepend_assoc(
                        before,
                        out@.skip(before.len() as int),
                        claim_walk(t@.skip(p.end as int), k@, val@, note_s, keep_old_note, g, w),
                    );
                    assert(before + out@.skip(before.len() as int) =~= out@);
                }
                in_group = g;
                written = w;
            },
            None => {
                assert(claim_walk(t@, k@, val@, note_s, keep_old_note, false, false) is None);
                return None;
            },
        }
        i = p.end;
    }
    assert(t@.skip(t.len() as int) =~= Seq::<char>::empty());
    assert(out@ + Seq::<char>::empty() =~= out@);
    if !written {
        push_nl_if_needed(&mut out);
        push_kv_line(&mut out, &k, &val);
    }
    Some(out)
}


pub open spec fn release_step(
    s: Seq<char>,
    key: Seq<char>,
    restore: Option<Seq<char>>,
    in_group: bool,
    changed: bool,
    out: Seq<char>,
) -> (Seq<char>, bool) {
    let (o, c) = release_walk(s, key, restore, in_group, changed);
    (out + o, c)
}

/// One piece of the undo: what it appends, and the group and changed flags after it.
#[verifier::rlimit(60)]
fn release_piece(
    t: &Vec<char>,
    p: &Piece,
    k: &Vec<char>,
    grp: &Vec<char>,
    rep: &Vec<char>,
    fl: &Vec<char>,
    restore: Option<(usize, usize)>,
    Ghost(restore_s): Ghost<Option<Seq<char>>>,
    in_group: bool,
    changed: bool,
    out: &mut String,
) -> (r: (bool, bool))
    requires
        piece_ok(t@, p.start as int, *p),
        grp@ == group(),
        rep@ == replaced(),
        fl@ == flea(),
        match restore {
            Some((a, b)) => a <= b <= t.len(),
            None => true,
        },
        restore_s == (match restore {
            Some((a, b)) => Some(t@.subrange(a as int, b as int)),
            None => None,
        }),
    ensures
        release_step(t@.skip(p.start as int), k@, restore_s, in_group, changed, old(out)@)
            == release_step(t@.skip(p.end as int), k@, restore_s, r.0, r.1, final(out)@),
{
    let ghost s = t@.skip(p.start as int);
    let ghost o = out@;
    assert(after_piece(s) == t@.skip(p.end as int));
    if header_at(t, p.start, p.body_end) {
        push_range(out, t, p.start, p.end);
        let g = trimmed_is(t, p.start, p.body_end, grp);
        let ghost (ro, rc) = release_walk(t@.skip(p.end as int), k@, restore_s, g, changed);
        assert(o + (first_piece(s) + ro) =~= out@ + ro);
        (g, changed)
    } else if in_group && marker_at(t, p.start, p.body_end, k, rep) {
        (in_group, changed)
    } else if in_group && match key_value_at(t, p.start, p.body_end, k) {
        Some((a, b)) => fleas_at(t, a, b, fl),
        None => false,
    } {
        match restore {
            Some((a, b)) => {
                push_kv_line_range(out, k, t, a, b);
            },
            None => {},
        }
        let ghost (ro, rc) = release_walk(t@.skip(p.end as int), k@, restore_s, in_group, true);
        let ghost pre = match restore_s {
            Some(h) => kv_line(k@, h),
            None => Seq::empty(),
        };
        assert(o + (pre + ro) =~= out@ + ro);
        (in_group, true)
    } else {
        push_range(out, t, p.start, p.end);
        let ghost (ro, rc) = release_walk(t@.skip(p.end as int), k@, restore_s, in_group, changed);
        assert(o + (first_piece(s) + ro) =~= out@ + ro);
        (in_group, changed)
    }
}

/// Flea's `key` line in [preferred] goes, or becomes the backend a REPLACED note names; None when no line is Flea's.
pub fn drop_preferred(text: &str, key: &str) -> (r: Option<String>)
    ensures
        opt_view(r) == released(text@, key@),
{
    let t = chars_of(text);
    let k = chars_of(key);
    let grp = chars_of(GROUP);
    let rep = chars_of(REPLACED);
    let fl = chars_of(FLEA);
    let restore = find_in_group(&t, &k, true);
    let ghost restore_s: Option<Seq<char>> = match restore {
        Some((a, b)) => Some(t@.subrange(a as int, b as int)),
        None => None,
    };
    let mut out = String::new();
    let mut in_group = false;
    let mut changed = false;
    let mut i: usize = 0;
    assert(t@.skip(0) =~= t@);
    assert(release_step(t@, k@, restore_s, false, false, out@) == release_walk(t@, k@, restore_s, false, false)) by {
        let (o, c) = release_walk(t@, k@, restore_s, false, false);
        assert(Seq::<char>::empty() + o =~= o);
    }
    while i < t.len()
        invariant
            i <= t.len(),
            grp@ == group(),
            rep@ == replaced(),
            fl@ == flea(),
            match restore {
                Some((a, b)) => a <= b <= t.len(),
                None => true,
            },
            restore_s == (match restore {
                Some((a, b)) => Some(t@.subrange(a as int, b as int)),
                None => None,
            }),
            release_walk(t@, k@, restore_s, false, false) == release_step(
                t@.skip(i as int),
                k@,
                restore_s,
                in_group,
                changed,
                out@,
            ),
        decreases t.len() - i,
    {
        let p = next_piece(&t, i);
        let (g, c) = release_piece(&t, &p, &k, &grp, &rep, &fl, restore, Ghost(restore_s), in_group, changed, &mut out);
        in_group = g;
        changed = c;
        i = p.end;
    }
    assert(t@.skip(t.len() as int) =~= Seq::<char>::empty());
    assert(out@ + Seq::<char>::empty() =~= out@);
    if changed {
        Some(out)
    } else {
        None
    }
}

/// Output on a terminal gets the restart done; piped or redirected output is Settings > About or a script, which own theirs.
pub fn follow_line<F: FnOnce() -> bool>(terminal: bool, restart: F) -> (r: &'static str)
    requires
        call_requires(restart, ()),
    ensures
        !terminal ==> r == AT_STARTUP,
        terminal ==> exists|done: bool| call_ensures(restart, (), done) && r == (if done {
            RESTARTED
        } else {
            AT_STARTUP
        }),
{
    if terminal && restart() {
        RESTARTED
    } else {
        AT_STARTUP
    }
}


/// What a claim or an undo does to one portal file.
#[derive(Debug, PartialEq, Eq)]
pub enum FileWrite {
    Create(String),
    Replace(String),
    Remove,
    Keep,
}

pub enum WriteView {
    Create(Seq<char>),
    Replace(Seq<char>),
    Remove,
    Keep,
}

pub open spec fn write_view(w: FileWrite) -> WriteView {
    match w {
        FileWrite::Create(t) => WriteView::Create(t@),
        FileWrite::Replace(t) => WriteView::Replace(t@),
        FileWrite::Remove => WriteView::Remove,
        FileWrite::Keep => WriteView::Keep,
    }
}

/// The line a claim that rewrote the file prints: where it wrote, whether that is the desktop's own
/// file, and what the undo will put back.
pub open spec fn claim_line(path: Seq<char>, before: Option<Seq<char>>, desktop_file: bool) -> Seq<char> {
    IFACE@ + ": "@ + PREFERRED@ + ", written to "@ + path + (if desktop_file {
        ", the file xdg-desktop-portal reads on this desktop"@
    } else {
        Seq::empty()
    }) + (match before {
        Some(had) => if !is_fleas(had) {
            "; it named "@ + had + " before, and the undo below puts that back"@
        } else {
            "; every other interface keeps the routing it had"@
        },
        None => "; every other interface keeps the routing it had"@,
    })
}

/// A claim on the file at `path`, given its text or None when there is no such file: a missing file is
/// created holding only Flea's line, one that already prefers Flea is left, and any other gets the line.
pub open spec fn claim_of(text: Option<Seq<char>>, path: Seq<char>, desktop_file: bool) -> (WriteView, Seq<char>) {
    match text {
        None => (
            WriteView::Create(GROUP@ + "\n"@ + IFACE@ + "="@ + PREFERRED@ + "\n"@),
            IFACE@ + ": "@ + PREFERRED@ + ", written to "@ + path,
        ),
        Some(t) => match claimed(t, IFACE@, PREFERRED@) {
            None => (WriteView::Keep, IFACE@ + ": already "@ + PREFERRED@ + " in "@ + path),
            Some(next) => (WriteView::Replace(next), claim_line(path, preferred_value_of(t, IFACE@), desktop_file)),
        },
    }
}

pub fn claim_plan(text: Option<&str>, path: &str, desktop_file: bool) -> (r: (FileWrite, String))
    ensures
        (write_view(r.0), r.1@) == claim_of(crate::env::opt_str_view(text), path@, desktop_file),
{
    let mut line = String::new();
    push_str(&mut line, IFACE);
    match text {
        None => {
            let mut body = String::new();
            push_str(&mut body, GROUP);
            push_str(&mut body, "\n");
            push_str(&mut body, IFACE);
            push_str(&mut body, "=");
            push_str(&mut body, PREFERRED);
            push_str(&mut body, "\n");
            push_str(&mut line, ": ");
            push_str(&mut line, PREFERRED);
            push_str(&mut line, ", written to ");
            push_str(&mut line, path);
            (FileWrite::Create(body), line)
        },
        Some(t) => {
            let before = preferred_value(t, IFACE);
            match set_preferred(t, IFACE, PREFERRED) {
                None => {
                    push_str(&mut line, ": already ");
                    push_str(&mut line, PREFERRED);
                    push_str(&mut line, " in ");
                    push_str(&mut line, path);
                    (FileWrite::Keep, line)
                },
                Some(next) => {
                    push_str(&mut line, ": ");
                    push_str(&mut line, PREFERRED);
                    push_str(&mut line, ", written to ");
                    push_str(&mut line, path);
                    let ghost head = line@;
                    if desktop_file {
                        push_str(&mut line, ", the file xdg-desktop-portal reads on this desktop");
                    }
                    let ghost mid = line@;
                    let named = match &before {
                        Some(had) => if !is_fleas_value(had.as_str()) {
                            push_str(&mut line, "; it named ");
                            push_str(&mut line, had.as_str());
                            push_str(&mut line, " before, and the undo below puts that back");
                            true
                        } else {
                            false
                        },
                        None => false,
                    };
                    if !named {
                        push_str(&mut line, "; every other interface keeps the routing it had");
                    }
                    assert(line@ =~= claim_line(path@, opt_view(before), desktop_file));
                    (FileWrite::Replace(next), line)
                },
            }
        },
    }
}

/// An undo on the file at `path`, given its text or None when there is no such file: Flea's line goes,
/// or becomes the backend its note names, and a file of Flea's own left holding only the group heading
/// goes with it. The line says what happened; nothing happens, and nothing is said, to a file with no
/// line of Flea's.
pub open spec fn release_of(text: Option<Seq<char>>, path: Seq<char>, own_file: bool) -> (WriteView, Option<
    Seq<char>,
>) {
    match text {
        None => (WriteView::Keep, None),
        Some(t) => match released(t, IFACE@) {
            None => (WriteView::Keep, None),
            Some(next) => if own_file && trim(next) == GROUP@ {
                (
                    WriteView::Remove,
                    Some(IFACE@ + ": Flea's line removed, and "@ + path + " held nothing else, so it is gone"@),
                )
            } else {
                (
                    WriteView::Replace(next),
                    Some(
                        match preferred_value_of(next, IFACE@) {
                            Some(had) => IFACE@ + ": "@ + had + " put back in "@ + path,
                            None => IFACE@ + ": Flea's line removed from "@ + path,
                        },
                    ),
                )
            },
        },
    }
}

fn trims_to_group(t: &str) -> (r: bool)
    ensures
        r == (trim(t@) == GROUP@),
{
    let v = chars_of(t);
    let (a, b) = crate::text::trim_range(&v, 0, v.len());
    assert(v@.subrange(0, v.len() as int) =~= v@);
    let g = chars_of(GROUP);
    range_eq(&v, a, b, &g)
}

pub fn release_plan(text: Option<&str>, path: &str, own_file: bool) -> (r: (FileWrite, Option<String>))
    ensures
        (write_view(r.0), opt_view(r.1)) == release_of(crate::env::opt_str_view(text), path@, own_file),
{
    let t = match text {
        Some(t) => t,
        None => return (FileWrite::Keep, None),
    };
    let next = match drop_preferred(t, IFACE) {
        Some(next) => next,
        None => return (FileWrite::Keep, None),
    };
    let mut line = String::new();
    push_str(&mut line, IFACE);
    if own_file && trims_to_group(next.as_str()) {
        push_str(&mut line, ": Flea's line removed, and ");
        push_str(&mut line, path);
        push_str(&mut line, " held nothing else, so it is gone");
        return (FileWrite::Remove, Some(line));
    }
    match preferred_value(next.as_str(), IFACE) {
        Some(had) => {
            push_str(&mut line, ": ");
            push_str(&mut line, had.as_str());
            push_str(&mut line, " put back in ");
            push_str(&mut line, path);
        },
        None => {
            push_str(&mut line, ": Flea's line removed from ");
            push_str(&mut line, path);
        },
    }
    (FileWrite::Replace(next), Some(line))
}

/// What an undo over every portal file prints: each file's line, or one line saying none named Flea.
pub open spec fn release_summary_of(lines: Seq<Seq<char>>) -> Seq<char> {
    if lines.len() == 0 {
        IFACE@ + ": nothing to undo, no portal configuration names Flea"@
    } else {
        crate::vulkan::joined(lines, '\n')
    }
}

pub fn release_summary(lines: &Vec<String>) -> (r: String)
    ensures
        r@ == release_summary_of(lines@.map_values(|l: String| l@)),
{
    let ghost parts = lines@.map_values(|l: String| l@);
    let mut out = String::new();
    if lines.len() == 0 {
        push_str(&mut out, IFACE);
        push_str(&mut out, ": nothing to undo, no portal configuration names Flea");
        return out;
    }
    push_str(&mut out, lines[0].as_str());
    assert(parts.take(1) =~= seq![parts[0]]);
    assert(crate::vulkan::joined(parts.take(1), '\n') == parts[0]);
    let mut k: usize = 1;
    while k < lines.len()
        invariant
            1 <= k <= lines.len(),
            parts == lines@.map_values(|l: String| l@),
            out@ == crate::vulkan::joined(parts.take(k as int), '\n'),
        decreases lines.len() - k,
    {
        let ghost before = out@;
        crate::text::push_char(&mut out, '\n');
        push_str(&mut out, lines[k].as_str());
        assert(parts.take(k + 1).drop_last() =~= parts.take(k as int));
        assert(out@ =~= before + seq!['\n'] + parts[k as int]);
        k = k + 1;
    }
    assert(parts.take(lines.len() as int) =~= parts);
    out
}

/// What the claim or undo prints: each half's line, on stdout when it worked and as "flea: why" on stderr
/// when it did not; the exit status, 1 when either half failed; and whether the portal is told to
/// follow, which only a routing that worked earns.
pub open spec fn report_of(routing: Result<Seq<char>, Seq<char>>, window: Result<Seq<char>, Seq<char>>) -> (
    Seq<(bool, Seq<char>)>,
    i32,
    bool,
) {
    let said = |half: Result<Seq<char>, Seq<char>>|
        match half {
            Ok(line) => (true, line),
            Err(why) => (false, "flea: "@ + why),
        };
    (
        seq![said(routing), said(window)],
        if routing is Ok && window is Ok {
            0
        } else {
            1
        },
        routing is Ok,
    )
}

pub open spec fn result_view(r: Result<String, String>) -> Result<Seq<char>, Seq<char>> {
    match r {
        Ok(l) => Ok(l@),
        Err(w) => Err(w@),
    }
}

fn said(half: &Result<String, String>) -> (r: (bool, String))
    ensures
        (r.0, r.1@) == (match result_view(*half) {
            Ok(line) => (true, line),
            Err(why) => (false, "flea: "@ + why),
        }),
{
    let mut out = String::new();
    match half {
        Ok(line) => {
            push_str(&mut out, line.as_str());
            (true, out)
        },
        Err(why) => {
            push_str(&mut out, "flea: ");
            push_str(&mut out, why.as_str());
            (false, out)
        },
    }
}

pub fn report_lines(routing: &Result<String, String>, window: &Result<String, String>) -> (r: (
    Vec<(bool, String)>,
    i32,
    bool,
))
    ensures
        (r.0@.map_values(|l: (bool, String)| (l.0, l.1@)), r.1, r.2) == report_of(
            result_view(*routing),
            result_view(*window),
        ),
{
    let mut lines: Vec<(bool, String)> = Vec::new();
    lines.push(said(routing));
    lines.push(said(window));
    let status: i32 = if routing.is_ok() && window.is_ok() {
        0
    } else {
        1
    };
    let r = (lines, status, routing.is_ok());
    assert(r.0@.map_values(|l: (bool, String)| (l.0, l.1@)) =~= report_of(
        result_view(*routing),
        result_view(*window),
    ).0);
    r
}


/// A desktop-specific portal file is <desktop>-portals.conf; the plain portals.conf has no dash before it.
pub const DESKTOP_SUFFIX: &'static str = "-portals.conf";

/// What the portal registers as; xdg-desktop-portal names a backend by this file's stem.
pub const PORTAL_FILE: &'static str = "flea.portal";

/// What a claim on a box with no flea.portal says.
pub const NOT_INSTALLED: &'static str =
    "flea.portal is not installed in any portal directory, so there is no backend to prefer; install the package first";

/// Unicode's lower case of the text, as `str::to_lowercase` gives it.
pub uninterp spec fn lowercase(s: Seq<char>) -> Seq<char>;

/// `str::to_lowercase`: its result depends on the text alone and is named `lowercase`; which character
/// each one maps to is Unicode's table, and nothing more of it is claimed here.
#[verifier::external_body]
fn to_lower(s: &str) -> (r: String)
    ensures
        r@ == lowercase(s@),
{
    s.to_lowercase()
}

/// Whether a file in the portal directory is a desktop's own.
pub fn is_desktop_file_name(name: &str) -> (r: bool)
    ensures
        r == crate::text::ends_with(name@, DESKTOP_SUFFIX@),
{
    let v = chars_of(name);
    let p = chars_of(DESKTOP_SUFFIX);
    if p.len() > v.len() {
        return false;
    }
    let at = v.len() - p.len();
    let r = crate::text::range_eq(&v, at, v.len(), &p);
    assert(v@.subrange(at as int, v.len() as int) =~= v@.skip(at as int));
    r
}

/// The names in a colon-separated list, empty ones left out.
pub open spec fn names_in(list: Seq<char>) -> Seq<Seq<char>>
    decreases list.len(),
{
    if list.len() == 0 {
        Seq::empty()
    } else {
        let k = first_of(list, ':') as int;
        let head = list.take(k);
        let rest = if k < list.len() {
            names_in(list.skip(k + 1))
        } else {
            Seq::empty()
        };
        if head.len() == 0 {
            rest
        } else {
            seq![head] + rest
        }
    }
}

/// The file each desktop XDG_CURRENT_DESKTOP names would have, in its order; inside one directory
/// xdg-desktop-portal reads the first that exists and stops. Sample input: "Hyprland" gives
/// "hyprland-portals.conf".
pub open spec fn candidates_of(desktops: Seq<char>) -> Seq<Seq<char>> {
    names_in(desktops).map_values(|d: Seq<char>| lowercase(d) + DESKTOP_SUFFIX@)
}

pub fn desktop_candidates(desktops: &str) -> (r: Vec<String>)
    ensures
        r@.map_values(|c: String| c@) == candidates_of(desktops@),
{
    let v = chars_of(desktops);
    let n = v.len();
    let mut out: Vec<String> = Vec::new();
    let mut i: usize = 0;
    assert(v@.skip(0) =~= v@);
    while i < n
        invariant
            i <= n,
            n == v.len(),
            candidates_of(desktops@) == out@.map_values(|c: String| c@) + candidates_of(v@.skip(i as int)),
            v@ == desktops@,
        decreases n - i,
    {
        let ghost rest = v@.skip(i as int);
        let j = crate::text::find_char(&v, i, n, ':');
        proof {
            lemma_first_colon(v@, i as int, j as int);
        }
        let ghost before = out@.map_values(|c: String| c@);
        if j > i {
            let name = crate::text::string_of_range(&v, i, j);
            let mut file = to_lower(name.as_str());
            push_str(&mut file, DESKTOP_SUFFIX);
            out.push(file);
        }
        let next = if j < n {
            j + 1
        } else {
            n
        };
        proof {
            let k = j - i;
            assert(rest.take(k) =~= v@.subrange(i as int, j as int));
            if j < n {
                assert(rest.skip(k + 1) =~= v@.skip(next as int));
            } else {
                assert(v@.skip(next as int) =~= Seq::<char>::empty());
            }
            assert(names_in(v@.skip(next as int)).map_values(|d: Seq<char>| lowercase(d) + DESKTOP_SUFFIX@)
                == candidates_of(v@.skip(next as int)));
            if j > i {
                assert(names_in(rest) == seq![rest.take(k)] + names_in(v@.skip(next as int)));
                assert(out@.map_values(|c: String| c@) =~= before + seq![lowercase(rest.take(k)) + DESKTOP_SUFFIX@]);
                assert(candidates_of(rest) =~= seq![lowercase(rest.take(k)) + DESKTOP_SUFFIX@] + candidates_of(
                    v@.skip(next as int),
                ));
            } else {
                assert(names_in(rest) == names_in(v@.skip(next as int)));
                assert(out@.map_values(|c: String| c@) =~= before);
            }
            assert(before + (seq![lowercase(rest.take(k)) + DESKTOP_SUFFIX@] + candidates_of(v@.skip(next as int)))
                =~= (before + seq![lowercase(rest.take(k)) + DESKTOP_SUFFIX@]) + candidates_of(v@.skip(next as int)));
        }
        i = next;
    }
    assert(v@.skip(n as int) =~= Seq::<char>::empty());
    assert(out@.map_values(|c: String| c@) + Seq::<Seq<char>>::empty() =~= out@.map_values(|c: String| c@));
    out
}

proof fn lemma_first_colon(v: Seq<char>, i: int, j: int)
    requires
        0 <= i <= j <= v.len(),
        forall|q: int| i <= q < j ==> v[q] != ':',
        j < v.len() ==> v[j] == ':',
    ensures
        first_of(v.skip(i), ':') == j - i,
{
    crate::keyfile::lemma_first_of(v.skip(i), ':', j - i);
}

/// Which user portal file a claim writes: the desktop's own when one exists, since it hides the plain
/// one; with no desktop named, a desktop file may be the one the portal reads, so portals.conf would be
/// a guess and the claim is refused; otherwise the plain file. The flag says it is the desktop's file.
pub open spec fn conf_choice(shadowing: Option<Seq<char>>, desktop_named: bool, found: Seq<Seq<char>>, plain: Seq<
    char,
>) -> Result<(Seq<char>, bool), Seq<char>> {
    match shadowing {
        Some(p) => Ok((p, true)),
        None => if !desktop_named && found.len() > 0 {
            Err(
                "XDG_CURRENT_DESKTOP is not set, so it is unknown whether "@ + crate::vulkan::spliced(found, " or "@)
                    + " is the file this desktop reads; run it from inside the desktop session"@,
            )
        } else {
            Ok((plain, false))
        },
    }
}

pub fn effective_conf(shadowing: Option<String>, desktop_named: bool, found: &Vec<String>, plain: String) -> (r: Result<
    (String, bool),
    String,
>)
    ensures
        match r {
            Ok((p, d)) => conf_choice(opt_view(shadowing), desktop_named, found@.map_values(|f: String| f@), plain@)
                == Ok::<(Seq<char>, bool), Seq<char>>((p@, d)),
            Err(e) => conf_choice(opt_view(shadowing), desktop_named, found@.map_values(|f: String| f@), plain@)
                == Err::<(Seq<char>, bool), Seq<char>>(e@),
        },
{
    if let Some(p) = shadowing {
        return Ok((p, true));
    }
    if desktop_named || found.len() == 0 {
        return Ok((plain, false));
    }
    let ghost parts = found@.map_values(|f: String| f@);
    let mut msg = String::new();
    push_str(&mut msg, "XDG_CURRENT_DESKTOP is not set, so it is unknown whether ");
    let ghost start = msg@;
    push_str(&mut msg, found[0].as_str());
    assert(parts.take(1) =~= seq![parts[0]]);
    let mut k: usize = 1;
    while k < found.len()
        invariant
            1 <= k <= found.len(),
            parts == found@.map_values(|f: String| f@),
            msg@ == start + crate::vulkan::spliced(parts.take(k as int), " or "@),
        decreases found.len() - k,
    {
        let ghost before = msg@;
        push_str(&mut msg, " or ");
        push_str(&mut msg, found[k].as_str());
        assert(parts.take(k + 1).drop_last() =~= parts.take(k as int));
        assert(msg@ =~= start + (crate::vulkan::spliced(parts.take(k as int), " or "@) + " or "@ + parts[k as int]));
        k = k + 1;
    }
    assert(parts.take(found.len() as int) =~= parts);
    push_str(&mut msg, " is the file this desktop reads; run it from inside the desktop session");
    Err(msg)
}

} // verus!
