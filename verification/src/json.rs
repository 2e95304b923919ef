// The few JSON reads and writes the line protocol needs: one field of a compact request line, and a
// string escaped for an answer line.
use crate::keyfile::first_of;
use crate::text::{chars_of, contains, digits_value, is_digit, push_char};
use crate::vulkan::{all_hex, find_str, first_match, hex_digit, hex_value};
use vstd::prelude::*;

verus! {

/// A key as a compact JSON line writes it: quoted and followed by its colon.
pub open spec fn key_pattern(key: Seq<char>) -> Seq<char> {
    seq!['"'] + key + seq!['"', ':']
}

/// What follows the first `"key":` of the line.
pub open spec fn after_key(line: Seq<char>, key: Seq<char>) -> Option<Seq<char>> {
    let p = key_pattern(key);
    if contains(line, p) {
        Some(line.skip(first_match(line, p) + p.len()))
    } else {
        None
    }
}

/// The character a one-letter escape stands for.
pub open spec fn unescaped(c: char) -> Option<char> {
    if c == '"' {
        Some('"')
    } else if c == '\\' {
        Some('\\')
    } else if c == '/' {
        Some('/')
    } else if c == 'b' {
        Some('\x08')
    } else if c == 'f' {
        Some('\x0c')
    } else if c == 'n' {
        Some('\n')
    } else if c == 'r' {
        Some('\r')
    } else if c == 't' {
        Some('\t')
    } else {
        None
    }
}

/// A Unicode scalar value: a code point that is not a surrogate.
pub open spec fn scalar(n: nat) -> bool {
    n < 0xD800 || (0xE000 <= n && n <= 0x10FFFF)
}

pub open spec fn opt_prepend(p: Seq<char>, o: Option<Seq<char>>) -> Option<Seq<char>> {
    match o {
        Some(r) => Some(p + r),
        None => None,
    }
}

/// The body of a JSON string, decoded, read from just after its opening quote up to its closing one.
/// A `\u` escape names one scalar value in four hex digits; a surrogate escape is not read.
pub open spec fn string_body(s: Seq<char>) -> Option<Seq<char>>
    decreases s.len(),
{
    if s.len() == 0 {
        None
    } else if s[0] == '"' {
        Some(Seq::empty())
    } else if s[0] == '\\' {
        if s.len() < 2 {
            None
        } else if unescaped(s[1]) is Some {
            opt_prepend(seq![unescaped(s[1])->0], string_body(s.skip(2)))
        } else if s[1] == 'u' && s.len() >= 6 && all_hex(s.subrange(2, 6)) && scalar(
            hex_value(s.subrange(2, 6)),
        ) {
            opt_prepend(seq![hex_value(s.subrange(2, 6)) as char], string_body(s.skip(6)))
        } else {
            None
        }
    } else {
        opt_prepend(seq![s[0]], string_body(s.skip(1)))
    }
}

/// The string value of `key` in a compact JSON line.
pub open spec fn str_field(line: Seq<char>, key: Seq<char>) -> Option<Seq<char>> {
    match after_key(line, key) {
        Some(v) => if v.len() > 0 && v[0] == '"' {
            string_body(v.skip(1))
        } else {
            None
        },
        None => None,
    }
}

/// How many ASCII digits `s` starts with.
pub open spec fn digit_prefix(s: Seq<char>) -> nat
    decreases s.len(),
{
    if s.len() > 0 && is_digit(s[0]) {
        1 + digit_prefix(s.drop_first())
    } else {
        0
    }
}

/// The unsigned number value of `key` in a compact JSON line: the digits it starts with, within usize.
pub open spec fn usize_field(line: Seq<char>, key: Seq<char>) -> Option<usize> {
    match after_key(line, key) {
        Some(v) => {
            let d = v.take(digit_prefix(v) as int);
            if d.len() > 0 && digits_value(d) <= usize::MAX {
                Some(digits_value(d) as usize)
            } else {
                None
            }
        },
        None => None,
    }
}

/// `char::from_u32`: the character a number names when the number is a scalar value, that is at most
/// 0x10FFFF and not a surrogate, and None for every other number.
#[verifier::external_body]
pub(crate) fn char_of(n: u32) -> (r: Option<char>)
    ensures
        r == (if scalar(n as nat) {
            Some(n as char)
        } else {
            None
        }),
{
    char::from_u32(n)
}

/// The value of four hex digits at `v[at..at + 4]`, when all four are hex digits.
pub(crate) fn hex4_at(v: &Vec<char>, at: usize) -> (r: Option<u32>)
    requires
        at + 4 <= v.len(),
    ensures
        match r {
            Some(n) => all_hex(v@.subrange(at as int, at + 4)) && n == hex_value(v@.subrange(at as int, at + 4)),
            None => !all_hex(v@.subrange(at as int, at + 4)),
        },
{
    let ghost s = v@.subrange(at as int, at + 4);
    let mut acc: u32 = 0;
    let mut k: usize = 0;
    while k < 4
        invariant
            k <= 4,
            at + 4 <= v.len(),
            s == v@.subrange(at as int, at + 4),
            all_hex(s.take(k as int)),
            acc == hex_value(s.take(k as int)),
            acc < 0x10000,
            k == 0 ==> acc == 0,
            k == 1 ==> acc < 0x10,
            k == 2 ==> acc < 0x100,
            k == 3 ==> acc < 0x1000,
        decreases 4 - k,
    {
        let c = v[at + k];
        assert(s[k as int] == c);
        let h: u32 = if '0' <= c && c <= '9' {
            c as u32 - '0' as u32
        } else if 'a' <= c && c <= 'f' {
            c as u32 - 'a' as u32 + 10
        } else if 'A' <= c && c <= 'F' {
            c as u32 - 'A' as u32 + 10
        } else {
            assert(!hex_digit(s[k as int]));
            return None;
        };
        assert(s.take(k + 1).drop_last() =~= s.take(k as int));
        assert forall|q: int| 0 <= q < k + 1 implies hex_digit(#[trigger] s.take(k + 1)[q]) by {
            if q < k {
                assert(s.take(k + 1)[q] == s.take(k as int)[q]);
            }
        }
        acc = acc * 16 + h;
        k = k + 1;
    }
    assert(s.take(4) =~= s);
    Some(acc)
}

/// Decodes the JSON string body that starts at `v[i]`, just past its opening quote.
fn decode_at(v: &Vec<char>, i: usize) -> (r: Option<String>)
    requires
        i <= v.len(),
    ensures
        crate::chooser::opt_view(r) == string_body(v@.skip(i as int)),
{
    let mut out = String::new();
    let mut k: usize = i;
    let n = v.len();
    assert(string_body(v@.skip(i as int)) == opt_prepend(out@, string_body(v@.skip(k as int)))) by {
        match string_body(v@.skip(i as int)) {
            Some(b) => assert(Seq::<char>::empty() + b =~= b),
            None => {},
        }
    }
    while k < n
        invariant
            i <= k <= n,
            n == v.len(),
            string_body(v@.skip(i as int)) == opt_prepend(out@, string_body(v@.skip(k as int))),
        decreases n - k,
    {
        let ghost rest = v@.skip(k as int);
        let ghost before = out@;
        let c = v[k];
        assert(rest[0] == c);
        if c == '"' {
            assert(before + Seq::<char>::empty() =~= before);
            return Some(out);
        }
        let step: usize;
        let got: char;
        if c == '\\' {
            if k + 1 >= n {
                return None;
            }
            let e = v[k + 1];
            assert(rest[1] == e);
            if e == '"' || e == '\\' || e == '/' || e == 'b' || e == 'f' || e == 'n' || e == 'r' || e == 't' {
                got = if e == 'b' {
                    '\x08'
                } else if e == 'f' {
                    '\x0c'
                } else if e == 'n' {
                    '\n'
                } else if e == 'r' {
                    '\r'
                } else if e == 't' {
                    '\t'
                } else {
                    e
                };
                step = 2;
            } else if e == 'u' && n - k >= 6 {
                assert(rest.subrange(2, 6) =~= v@.subrange(k + 2, k + 6));
                let h = match hex4_at(v, k + 2) {
                    Some(h) => h,
                    None => return None,
                };
                got = match char_of(h) {
                    Some(ch) => ch,
                    None => return None,
                };
                step = 6;
            } else {
                return None;
            }
        } else {
            got = c;
            step = 1;
        }
        assert(rest.skip(step as int) =~= v@.skip(k + step));
        assert(string_body(rest) == opt_prepend(seq![got], string_body(v@.skip(k + step))));
        push_char(&mut out, got);
        proof {
            match string_body(v@.skip(k + step)) {
                Some(b) => {
                    assert(before + (seq![got] + b) =~= before.push(got) + b);
                },
                None => {},
            }
        }
        k = k + step;
    }
    None
}

/// The string value of `key` in a compact JSON line, decoded; None when the key is absent or its value
/// is not a well-formed string.
pub fn field_str(line: &str, key: &str) -> (r: Option<String>)
    ensures
        crate::chooser::opt_view(r) == str_field(line@, key@),
{
    let v = chars_of(line);
    let p = pattern_of(key);
    let at = match find_str(&v, &p) {
        Some(at) => at,
        None => return None,
    };
    let a = at + p.len();
    if a >= v.len() || v[a] != '"' {
        return None;
    }
    assert(v@.skip(a as int).skip(1) =~= v@.skip(a + 1));
    decode_at(&v, a + 1)
}

fn pattern_of(key: &str) -> (p: Vec<char>)
    ensures
        p@ == key_pattern(key@),
{
    let mut p: Vec<char> = Vec::new();
    p.push('"');
    let k = chars_of(key);
    let mut i: usize = 0;
    while i < k.len()
        invariant
            i <= k.len(),
            p@ == seq!['"'] + k@.take(i as int),
        decreases k.len() - i,
    {
        p.push(k[i]);
        assert(p@ =~= seq!['"'] + k@.take(i + 1));
        i = i + 1;
    }
    p.push('"');
    p.push(':');
    assert(k@.take(i as int) =~= k@);
    assert(p@ =~= key_pattern(key@));
    p
}

/// The unsigned number value of `key` in a compact JSON line.
pub fn field_usize(line: &str, key: &str) -> (r: Option<usize>)
    ensures
        r == usize_field(line@, key@),
{
    let v = chars_of(line);
    let p = pattern_of(key);
    let at = match find_str(&v, &p) {
        Some(at) => at,
        None => return None,
    };
    let a = at + p.len();
    let ghost after = v@.skip(a as int);
    let mut e: usize = a;
    while e < v.len() && '0' <= v[e] && v[e] <= '9'
        invariant
            a <= e <= v.len(),
            after == v@.skip(a as int),
            digit_prefix(after) == (e - a) + digit_prefix(v@.skip(e as int)),
            forall|q: int| a <= q < e ==> is_digit(#[trigger] v@[q]),
        decreases v.len() - e,
    {
        assert(v@.skip(e as int).drop_first() =~= v@.skip(e + 1));
        e = e + 1;
    }
    assert(digit_prefix(v@.skip(e as int)) == 0);
    let ghost d = after.take(e - a);
    assert(d =~= v@.subrange(a as int, e as int));
    if e == a {
        return None;
    }
    match crate::text::parse_digits(&v, a, e) {
        Some(n) => if n <= usize::MAX as u64 {
            Some(n as usize)
        } else {
            None
        },
        None => None,
    }
}

/// How `escape` writes one character.
pub open spec fn escaped_char(c: char) -> Seq<char> {
    if c == '"' {
        seq!['\\', '"']
    } else if c == '\\' {
        seq!['\\', '\\']
    } else if c == '\n' {
        seq!['\\', 'n']
    } else if c == '\r' {
        seq!['\\', 'r']
    } else if c == '\t' {
        seq!['\\', 't']
    } else if (c as u32) < 0x20 {
        seq!['\\', 'u', '0', '0', hex_char((c as u32 / 16) as nat), hex_char((c as u32 % 16) as nat)]
    } else {
        seq![c]
    }
}

/// A lower-case hex digit.
pub open spec fn hex_char(d: nat) -> char {
    if d < 10 {
        (('0' as u32) + d) as char
    } else {
        (('a' as u32) + d - 10) as char
    }
}

/// A string written as the body of a JSON string.
pub open spec fn escaped(s: Seq<char>) -> Seq<char>
    decreases s.len(),
{
    if s.len() == 0 {
        Seq::empty()
    } else {
        escaped(s.drop_last()) + escaped_char(s.last())
    }
}

fn hex_digit_char(d: u32) -> (c: char)
    requires
        d < 16,
    ensures
        c == hex_char(d as nat),
{
    match d {
        0 => '0',
        1 => '1',
        2 => '2',
        3 => '3',
        4 => '4',
        5 => '5',
        6 => '6',
        7 => '7',
        8 => '8',
        9 => '9',
        10 => 'a',
        11 => 'b',
        12 => 'c',
        13 => 'd',
        14 => 'e',
        _ => 'f',
    }
}

/// The text written between the quotes of a JSON string so that it reads back as `s`.
pub fn escape(s: &str) -> (r: String)
    ensures
        r@ == escaped(s@),
{
    let v = chars_of(s);
    let mut out = String::new();
    let mut i: usize = 0;
    while i < v.len()
        invariant
            i <= v.len(),
            v@ == s@,
            out@ == escaped(v@.take(i as int)),
        decreases v.len() - i,
    {
        let c = v[i];
        let ghost before = out@;
        assert(v@.take(i + 1).drop_last() =~= v@.take(i as int));
        if c == '"' {
            push_char(&mut out, '\\');
            push_char(&mut out, '"');
        } else if c == '\\' {
            push_char(&mut out, '\\');
            push_char(&mut out, '\\');
        } else if c == '\n' {
            push_char(&mut out, '\\');
            push_char(&mut out, 'n');
        } else if c == '\r' {
            push_char(&mut out, '\\');
            push_char(&mut out, 'r');
        } else if c == '\t' {
            push_char(&mut out, '\\');
            push_char(&mut out, 't');
        } else if (c as u32) < 0x20 {
            push_char(&mut out, '\\');
            push_char(&mut out, 'u');
            push_char(&mut out, '0');
            push_char(&mut out, '0');
            push_char(&mut out, hex_digit_char(c as u32 / 16));
            push_char(&mut out, hex_digit_char(c as u32 % 16));
        } else {
            push_char(&mut out, c);
        }
        assert(out@ =~= before + escaped_char(c));
        i = i + 1;
    }
    assert(v@.take(i as int) =~= v@);
    out
}

/// Escaping two texts one after the other writes what escaping them joined writes.
pub proof fn lemma_escaped_concat(a: Seq<char>, b: Seq<char>)
    ensures
        escaped(a + b) == escaped(a) + escaped(b),
    decreases b.len(),
{
    if b.len() == 0 {
        assert(a + b =~= a);
        assert(escaped(a) + escaped(b) =~= escaped(a));
    } else {
        assert((a + b).drop_last() =~= a + b.drop_last());
        lemma_escaped_concat(a, b.drop_last());
        assert(escaped(a) + escaped(b.drop_last()) + escaped_char(b.last()) =~= escaped(a) + (escaped(
            b.drop_last(),
        ) + escaped_char(b.last())));
    }
}

/// A hex digit `hex_char` writes reads back as its value.
pub proof fn lemma_hex_char(d: nat)
    requires
        d < 16,
    ensures
        hex_digit(hex_char(d)),
        crate::vulkan::hex_val(hex_char(d)) == d,
{
}

/// One escaped character followed by more text reads back as that character followed by what the
/// rest reads as.
proof fn lemma_char_reads_back(c: char, rest: Seq<char>)
    ensures
        string_body(escaped_char(c) + rest) == opt_prepend(seq![c], string_body(rest)),
{
    let e = escaped_char(c) + rest;
    if c == '"' || c == '\\' || c == '\n' || c == '\r' || c == '\t' {
        assert(e.skip(2) =~= rest);
    } else if (c as u32) < 0x20 {
        let hi = (c as u32 / 16) as nat;
        let lo = (c as u32 % 16) as nat;
        lemma_hex_char(hi);
        lemma_hex_char(lo);
        let h = e.subrange(2, 6);
        assert(h =~= seq!['0', '0', hex_char(hi), hex_char(lo)]);
        let h3 = seq!['0', '0', hex_char(hi)];
        let h2 = seq!['0', '0'];
        let h1 = seq!['0'];
        let h0 = Seq::<char>::empty();
        assert(h.drop_last() =~= h3);
        assert(h3.drop_last() =~= h2);
        assert(h2.drop_last() =~= h1);
        assert(h1.drop_last() =~= h0);
        assert(hex_value(h0) == 0);
        assert(hex_value(h1) == 0);
        assert(hex_value(h2) == 0);
        assert(hex_value(h3) == hi);
        assert(hex_value(h) == hi * 16 + lo);
        assert(all_hex(h)) by {
            assert forall|q: int| 0 <= q < h.len() implies hex_digit(#[trigger] h[q]) by {}
        }
        assert(e.skip(6) =~= rest);
        assert(hex_value(h) == c as u32);
    } else {
        assert(e.skip(1) =~= rest);
    }
}

proof fn lemma_body_reads_back(s: Seq<char>, rest: Seq<char>)
    ensures
        string_body(escaped(s) + rest) == opt_prepend(s, string_body(rest)),
    decreases s.len(),
{
    if s.len() == 0 {
        assert(escaped(s) + rest =~= rest);
        match string_body(rest) {
            Some(b) => assert(s + b =~= b),
            None => {},
        }
    } else {
        let t = s.drop_first();
        assert(s =~= seq![s[0]] + t);
        lemma_escaped_concat(seq![s[0]], t);
        assert(seq![s[0]].drop_last() =~= Seq::<char>::empty());
        assert(escaped(Seq::<char>::empty()) == Seq::<char>::empty());
        assert(escaped(seq![s[0]]) == escaped(seq![s[0]].drop_last()) + escaped_char(seq![s[0]].last()));
        assert(escaped(seq![s[0]]) =~= escaped_char(s[0]));
        assert(escaped(s) + rest =~= escaped_char(s[0]) + (escaped(t) + rest));
        lemma_char_reads_back(s[0], escaped(t) + rest);
        lemma_body_reads_back(t, rest);
        match string_body(rest) {
            Some(b) => assert(seq![s[0]] + (t + b) =~= s + b),
            None => {},
        }
    }
}

/// A line that writes a string with `escape` under a key, as `{"key":"..."}`.
pub open spec fn written(key: Seq<char>, value: Seq<char>) -> Seq<char> {
    seq!['{'] + key_pattern(key) + seq!['"'] + escaped(value) + seq!['"', '}']
}

/// What `escape` writes reads back whole: a line that writes `value` under `key` holds exactly `value`
/// under `key`.
pub proof fn escape_reads_back(key: Seq<char>, value: Seq<char>)
    ensures
        str_field(written(key, value), key) == Some(value),
{
    let line = written(key, value);
    let p = key_pattern(key);
    assert(line.subrange(1, 1int + p.len()) =~= p);
    assert(contains(line, p));
    let w = first_match(line, p);
    assert(w == 1) by {
        assert(line.subrange(w, w + p.len()) == p);
        if w == 0 {
            assert(line.subrange(w, w + p.len())[0] == '{');
        }
        if w > 1 {
            assert(line.subrange(1, 1int + p.len()) != p);
        }
    }
    let after = line.skip(1int + p.len());
    assert(after =~= seq!['"'] + escaped(value) + seq!['"', '}']);
    assert(after.skip(1) =~= escaped(value) + seq!['"', '}']);
    lemma_body_reads_back(value, seq!['"', '}']);
    assert(string_body(seq!['"', '}']) == Some(Seq::<char>::empty()));
    assert(value + Seq::<char>::empty() =~= value);
}

} // verus!
