// JSON documents as RFC 8259 writes them: a parse that checks the whole text, and reads of the
// values inside it by their place in the text.
use crate::json::{scalar, unescaped};
use crate::text::{chars_of, is_digit, push_char};
use crate::vulkan::{all_hex, hex_value};
use vstd::prelude::*;

verus! {

/// The four characters JSON allows between tokens.
pub open spec fn space(c: char) -> bool {
    c == ' ' || c == '\t' || c == '\n' || c == '\r'
}

/// Where the whitespace starting at `i` ends.
pub open spec fn skip_space(s: Seq<char>, i: int) -> int
    decreases s.len() - i,
{
    if 0 <= i < s.len() && space(s[i]) {
        skip_space(s, i + 1)
    } else {
        i
    }
}

/// Where the run of digits starting at `i` ends.
pub open spec fn digits_to(s: Seq<char>, i: int) -> int
    decreases s.len() - i,
{
    if 0 <= i < s.len() && is_digit(s[i]) {
        digits_to(s, i + 1)
    } else {
        i
    }
}

/// `i < k <= n`: a step forward that stays inside the text.
pub open spec fn forward(i: int, k: int, n: int) -> bool {
    i < k <= n
}

/// The end of the number at `i`: `-`, then `0` or digits not starting with `0`, then a fraction and an
/// exponent, each optional and each with at least one digit.
pub open spec fn number_end(s: Seq<char>, i: int) -> Option<int> {
    let j = if 0 <= i < s.len() && s[i] == '-' {
        i + 1
    } else {
        i
    };
    let k = if 0 <= j < s.len() && s[j] == '0' {
        j + 1
    } else if 0 <= j < s.len() && is_digit(s[j]) {
        digits_to(s, j)
    } else {
        -1
    };
    if k < 0 {
        None
    } else {
        let f = if k < s.len() && s[k] == '.' {
            if digits_to(s, k + 1) > k + 1 {
                digits_to(s, k + 1)
            } else {
                -1
            }
        } else {
            k
        };
        if f < 0 {
            None
        } else if f < s.len() && (s[f] == 'e' || s[f] == 'E') {
            let m = if f + 1 < s.len() && (s[f + 1] == '+' || s[f + 1] == '-') {
                f + 2
            } else {
                f + 1
            };
            if digits_to(s, m) > m {
                Some(digits_to(s, m))
            } else {
                None
            }
        } else {
            Some(f)
        }
    }
}

pub open spec fn prepend(c: char, r: Option<(Seq<char>, int)>) -> Option<(Seq<char>, int)> {
    match r {
        Some((t, e)) => Some((seq![c] + t, e)),
        None => None,
    }
}

/// The string whose body starts at `j`, just past its opening quote: its text, decoded, and where it
/// ends, just past its closing quote. A raw control character is refused, and so is a `\u` escape that
/// names a surrogate rather than a scalar value.
pub open spec fn text_from(s: Seq<char>, j: int) -> Option<(Seq<char>, int)>
    decreases s.len() - j,
{
    if j < 0 || j >= s.len() {
        None
    } else if s[j] == '"' {
        Some((Seq::empty(), j + 1))
    } else if s[j] == '\\' {
        if j + 1 >= s.len() {
            None
        } else if unescaped(s[j + 1]) is Some {
            prepend(unescaped(s[j + 1])->0, text_from(s, j + 2))
        } else if s[j + 1] == 'u' && j + 6 <= s.len() && all_hex(s.subrange(j + 2, j + 6)) && scalar(
            hex_value(s.subrange(j + 2, j + 6)),
        ) {
            prepend(hex_value(s.subrange(j + 2, j + 6)) as char, text_from(s, j + 6))
        } else {
            None
        }
    } else if (s[j] as int) < 32 {
        None
    } else {
        prepend(s[j], text_from(s, j + 1))
    }
}

/// Whether the text at `i` spells `word`.
pub open spec fn spells(s: Seq<char>, i: int, word: Seq<char>) -> bool {
    0 <= i && i + word.len() <= s.len() && s.subrange(i, i + word.len() as int) == word
}

/// The end of the value that starts at `i`, if a whole value starts there.
pub open spec fn value_end(s: Seq<char>, i: int) -> Option<int>
    decreases s.len() - i, 0int,
{
    if i < 0 || i >= s.len() {
        None
    } else if s[i] == '{' {
        let k = skip_space(s, i + 1);
        if forward(i, k, s.len() as int) {
            members_end(s, k, true)
        } else {
            None
        }
    } else if s[i] == '[' {
        let k = skip_space(s, i + 1);
        if forward(i, k, s.len() as int) {
            items_end(s, k, true)
        } else {
            None
        }
    } else if s[i] == '"' {
        match text_from(s, i + 1) {
            Some((_, e)) => Some(e),
            None => None,
        }
    } else if spells(s, i, "true"@) || spells(s, i, "null"@) {
        Some(i + 4)
    } else if spells(s, i, "false"@) {
        Some(i + 5)
    } else if s[i] == '-' || is_digit(s[i]) {
        number_end(s, i)
    } else {
        None
    }
}

/// The end of an array whose next element, or closing bracket when `first`, starts at `i`.
pub open spec fn items_end(s: Seq<char>, i: int, first: bool) -> Option<int>
    decreases s.len() - i, 1int,
{
    if first && 0 <= i < s.len() && s[i] == ']' {
        Some(i + 1)
    } else if i < 0 || i >= s.len() {
        None
    } else {
        match value_end(s, i) {
            Some(e) => {
                let k = skip_space(s, e);
                if 0 <= k < s.len() && s[k] == ',' {
                    let n = skip_space(s, k + 1);
                    if forward(i, n, s.len() as int) {
                        items_end(s, n, false)
                    } else {
                        None
                    }
                } else if 0 <= k < s.len() && s[k] == ']' {
                    Some(k + 1)
                } else {
                    None
                }
            },
            None => None,
        }
    }
}

/// The end of an object whose next member, or closing brace when `first`, starts at `i`.
pub open spec fn members_end(s: Seq<char>, i: int, first: bool) -> Option<int>
    decreases s.len() - i, 1int,
{
    if first && 0 <= i < s.len() && s[i] == '}' {
        Some(i + 1)
    } else if i < 0 || i >= s.len() || s[i] != '"' {
        None
    } else {
        match text_from(s, i + 1) {
            Some((_, e)) => {
                let c = skip_space(s, e);
                if 0 <= c < s.len() && s[c] == ':' {
                    let v = skip_space(s, c + 1);
                    if forward(i, v, s.len() as int) {
                        match value_end(s, v) {
                            Some(ve) => {
                                let k = skip_space(s, ve);
                                if 0 <= k < s.len() && s[k] == ',' {
                                    let n = skip_space(s, k + 1);
                                    if forward(i, n, s.len() as int) {
                                        members_end(s, n, false)
                                    } else {
                                        None
                                    }
                                } else if 0 <= k < s.len() && s[k] == '}' {
                                    Some(k + 1)
                                } else {
                                    None
                                }
                            },
                            None => None,
                        }
                    } else {
                        None
                    }
                } else {
                    None
                }
            },
            None => None,
        }
    }
}

/// A document: one value with nothing but whitespace around it. The answer is where the value starts.
pub open spec fn document(s: Seq<char>) -> Option<int> {
    let i = skip_space(s, 0);
    match value_end(s, i) {
        Some(e) => if skip_space(s, e) == s.len() {
            Some(i)
        } else {
            None
        },
        None => None,
    }
}


pub open spec fn opt_int(r: Option<usize>) -> Option<int> {
    match r {
        Some(u) => Some(u as int),
        None => None,
    }
}

pub open spec fn extend(t: Seq<char>, r: Option<(Seq<char>, int)>) -> Option<(Seq<char>, int)> {
    match r {
        Some((u, e)) => Some((t + u, e)),
        None => None,
    }
}

fn is_space(c: char) -> (r: bool)
    ensures
        r == space(c),
{
    c == ' ' || c == '\t' || c == '\n' || c == '\r'
}

fn skip_space_at(v: &Vec<char>, i: usize) -> (r: usize)
    requires
        i <= v.len(),
    ensures
        r as int == skip_space(v@, i as int),
        i <= r <= v.len(),
{
    let mut k = i;
    while k < v.len() && is_space(v[k])
        invariant
            i <= k <= v.len(),
            skip_space(v@, i as int) == skip_space(v@, k as int),
        decreases v.len() - k,
    {
        k = k + 1;
    }
    k
}

fn digits_at(v: &Vec<char>, i: usize) -> (r: usize)
    requires
        i <= v.len(),
    ensures
        r as int == digits_to(v@, i as int),
        i <= r <= v.len(),
{
    let mut k = i;
    while k < v.len() && '0' <= v[k] && v[k] <= '9'
        invariant
            i <= k <= v.len(),
            digits_to(v@, i as int) == digits_to(v@, k as int),
        decreases v.len() - k,
    {
        k = k + 1;
    }
    k
}

fn number_at(v: &Vec<char>, i: usize) -> (r: Option<usize>)
    requires
        i <= v.len(),
    ensures
        opt_int(r) == number_end(v@, i as int),
{
    let n = v.len();
    let j = if i < n && v[i] == '-' {
        i + 1
    } else {
        i
    };
    let k = if j < n && v[j] == '0' {
        j + 1
    } else if j < n && '0' <= v[j] && v[j] <= '9' {
        digits_at(v, j)
    } else {
        return None;
    };
    let f = if k < n && v[k] == '.' {
        let d = digits_at(v, k + 1);
        if d > k + 1 {
            d
        } else {
            return None;
        }
    } else {
        k
    };
    if f < n && (v[f] == 'e' || v[f] == 'E') {
        let m = if f + 1 < n && (v[f + 1] == '+' || v[f + 1] == '-') {
            f + 2
        } else {
            f + 1
        };
        let d = digits_at(v, m);
        if d > m {
            Some(d)
        } else {
            None
        }
    } else {
        Some(f)
    }
}

fn unescape(e: char) -> (r: Option<char>)
    ensures
        r == unescaped(e),
{
    if e == '"' || e == '\\' || e == '/' {
        Some(e)
    } else if e == 'b' {
        Some('\x08')
    } else if e == 'f' {
        Some('\x0c')
    } else if e == 'n' {
        Some('\n')
    } else if e == 'r' {
        Some('\r')
    } else if e == 't' {
        Some('\t')
    } else {
        None
    }
}

/// The string whose body starts at `v[j]`: its decoded text and the index just past its closing quote.
fn text_at(v: &Vec<char>, j: usize) -> (r: Option<(String, usize)>)
    requires
        j <= v.len(),
    ensures
        match r {
            Some((t, e)) => text_from(v@, j as int) == Some((t@, e as int)) && e <= v.len(),
            None => text_from(v@, j as int) is None,
        },
{
    let mut out = String::new();
    let mut k: usize = j;
    let n = v.len();
    assert(text_from(v@, j as int) == extend(out@, text_from(v@, k as int))) by {
        match text_from(v@, j as int) {
            Some((b, e)) => assert(Seq::<char>::empty() + b =~= b),
            None => {},
        }
    }
    while k < n
        invariant
            j <= k <= n,
            n == v.len(),
            text_from(v@, j as int) == extend(out@, text_from(v@, k as int)),
        decreases n - k,
    {
        let ghost before = out@;
        let c = v[k];
        if c == '"' {
            assert(before + Seq::<char>::empty() =~= before);
            return Some((out, k + 1));
        }
        let step: usize;
        let got: char;
        if c == '\\' {
            if k + 1 >= n {
                return None;
            }
            let e = v[k + 1];
            match unescape(e) {
                Some(u) => {
                    got = u;
                    step = 2;
                },
                None => {
                    if e == 'u' && n - k >= 6 {
                        let h = match crate::json::hex4_at(v, k + 2) {
                            Some(h) => h,
                            None => return None,
                        };
                        got = match crate::json::char_of(h) {
                            Some(ch) => ch,
                            None => return None,
                        };
                        step = 6;
                    } else {
                        return None;
                    }
                },
            }
        } else {
            if '\u{1f}' >= c {
                return None;
            }
            got = c;
            step = 1;
        }
        assert(text_from(v@, k as int) == prepend(got, text_from(v@, k + step)));
        push_char(&mut out, got);
        proof {
            match text_from(v@, k + step) {
                Some((b, e)) => {
                    assert(before + (seq![got] + b) =~= before.push(got) + b);
                },
                None => {},
            }
        }
        k = k + step;
    }
    None
}

fn spells_at(v: &Vec<char>, i: usize, word: &str) -> (r: bool)
    requires
        i <= v.len(),
    ensures
        r == spells(v@, i as int, word@),
{
    let w = chars_of(word);
    if w.len() > v.len() - i {
        return false;
    }
    let r = crate::text::has_at(v, i, v.len(), &w);
    assert(r == spells(v@, i as int, w@)) by {
        if r {
            assert(v@.subrange(i as int, v.len() as int).take(w.len() as int) =~= v@.subrange(
                i as int,
                i + w.len(),
            ));
        } else {
            assert(v@.subrange(i as int, v.len() as int).take(w.len() as int) =~= v@.subrange(
                i as int,
                i + w.len(),
            ));
        }
    }
    r
}

fn value_at(v: &Vec<char>, i: usize) -> (r: Option<usize>)
    requires
        i <= v.len(),
    ensures
        opt_int(r) == value_end(v@, i as int),
        match r {
            Some(e) => e <= v.len(),
            None => true,
        },
    decreases v.len() - i, 0int,
{
    let n = v.len();
    if i >= n {
        return None;
    }
    proof {
        reveal_strlit("true");
        reveal_strlit("null");
        reveal_strlit("false");
    }
    let c = v[i];
    if c == '{' {
        let k = skip_space_at(v, i + 1);
        if i < k && k <= n {
            members_at(v, k, true)
        } else {
            None
        }
    } else if c == '[' {
        let k = skip_space_at(v, i + 1);
        if i < k && k <= n {
            items_at(v, k, true)
        } else {
            None
        }
    } else if c == '"' {
        match text_at(v, i + 1) {
            Some((_, e)) => Some(e),
            None => None,
        }
    } else if spells_at(v, i, "true") || spells_at(v, i, "null") {
        Some(i + 4)
    } else if spells_at(v, i, "false") {
        Some(i + 5)
    } else if c == '-' || ('0' <= c && c <= '9') {
        let r = number_at(v, i);
        proof {
            lemma_number_inside(v@, i as int);
        }
        r
    } else {
        None
    }
}

proof fn lemma_digits_inside(s: Seq<char>, i: int)
    requires
        0 <= i <= s.len(),
    ensures
        i <= digits_to(s, i) <= s.len(),
    decreases s.len() - i,
{
    if i < s.len() && is_digit(s[i]) {
        lemma_digits_inside(s, i + 1);
    }
}

proof fn lemma_number_inside(s: Seq<char>, i: int)
    requires
        0 <= i < s.len(),
    ensures
        match number_end(s, i) {
            Some(e) => e <= s.len(),
            None => true,
        },
{
    let j = if s[i] == '-' {
        i + 1
    } else {
        i
    };
    if j < s.len() {
        lemma_digits_inside(s, j);
    }
    let k = if 0 <= j < s.len() && s[j] == '0' {
        j + 1
    } else if 0 <= j < s.len() && is_digit(s[j]) {
        digits_to(s, j)
    } else {
        -1
    };
    if 0 <= k && k < s.len() {
        lemma_digits_inside(s, k + 1);
    }
    let f = if k < s.len() && s[k] == '.' {
        if digits_to(s, k + 1) > k + 1 {
            digits_to(s, k + 1)
        } else {
            -1
        }
    } else {
        k
    };
    if 0 <= f && f + 2 <= s.len() {
        lemma_digits_inside(s, f + 2);
    }
    if 0 <= f && f + 1 <= s.len() {
        lemma_digits_inside(s, f + 1);
    }
}

fn items_at(v: &Vec<char>, i: usize, first: bool) -> (r: Option<usize>)
    requires
        i <= v.len(),
    ensures
        opt_int(r) == items_end(v@, i as int, first),
        match r {
            Some(e) => e <= v.len(),
            None => true,
        },
    decreases v.len() - i, 1int,
{
    let n = v.len();
    if first && i < n && v[i] == ']' {
        return Some(i + 1);
    }
    if i >= n {
        return None;
    }
    match value_at(v, i) {
        Some(e) => {
            let k = skip_space_at(v, e);
            if k < n && v[k] == ',' {
                let m = skip_space_at(v, k + 1);
                if i < m && m <= n {
                    items_at(v, m, false)
                } else {
                    None
                }
            } else if k < n && v[k] == ']' {
                Some(k + 1)
            } else {
                None
            }
        },
        None => None,
    }
}

fn members_at(v: &Vec<char>, i: usize, first: bool) -> (r: Option<usize>)
    requires
        i <= v.len(),
    ensures
        opt_int(r) == members_end(v@, i as int, first),
        match r {
            Some(e) => e <= v.len(),
            None => true,
        },
    decreases v.len() - i, 1int,
{
    let n = v.len();
    if first && i < n && v[i] == '}' {
        return Some(i + 1);
    }
    if i >= n || v[i] != '"' {
        return None;
    }
    match text_at(v, i + 1) {
        Some((_, e)) => {
            let c = skip_space_at(v, e);
            if c < n && v[c] == ':' {
                let w = skip_space_at(v, c + 1);
                if i < w && w <= n {
                    match value_at(v, w) {
                        Some(ve) => {
                            let k = skip_space_at(v, ve);
                            if k < n && v[k] == ',' {
                                let m = skip_space_at(v, k + 1);
                                if i < m && m <= n {
                                    members_at(v, m, false)
                                } else {
                                    None
                                }
                            } else if k < n && v[k] == '}' {
                                Some(k + 1)
                            } else {
                                None
                            }
                        },
                        None => None,
                    }
                } else {
                    None
                }
            } else {
                None
            }
        },
        None => None,
    }
}


/// A text that held one JSON document, and where its value starts.
pub struct Doc {
    pub text: Vec<char>,
    pub root: usize,
}

/// Sample input: {"c":"sort","by":"size"}.
pub fn parse(text: &str) -> (r: Option<Doc>)
    ensures
        match r {
            Some(d) => d.text@ == text@ && document(text@) == Some(d.root as int),
            None => document(text@) is None,
        },
{
    let v = chars_of(text);
    let i = skip_space_at(&v, 0);
    match value_at(&v, i) {
        Some(e) => {
            if skip_space_at(&v, e) == v.len() {
                Some(Doc { text: v, root: i })
            } else {
                None
            }
        },
        None => None,
    }
}

/// The first member named `key` of the object whose next member, or closing brace when `first`, starts
/// at `i`: where its value starts.
pub open spec fn member_from(s: Seq<char>, i: int, key: Seq<char>, first: bool) -> Option<int>
    decreases s.len() - i,
{
    if first && 0 <= i < s.len() && s[i] == '}' {
        None
    } else if i < 0 || i >= s.len() || s[i] != '"' {
        None
    } else {
        match text_from(s, i + 1) {
            Some((name, e)) => {
                let c = skip_space(s, e);
                if 0 <= c < s.len() && s[c] == ':' {
                    let v = skip_space(s, c + 1);
                    if !forward(i, v, s.len() as int) {
                        None
                    } else if name == key {
                        Some(v)
                    } else {
                        match value_end(s, v) {
                            Some(ve) => {
                                let k = skip_space(s, ve);
                                if 0 <= k < s.len() && s[k] == ',' {
                                    let n = skip_space(s, k + 1);
                                    if forward(i, n, s.len() as int) {
                                        member_from(s, n, key, false)
                                    } else {
                                        None
                                    }
                                } else {
                                    None
                                }
                            },
                            None => None,
                        }
                    }
                } else {
                    None
                }
            },
            None => None,
        }
    }
}

/// The value of the object at `at` under `key`: where it starts, if `at` holds an object with that key.
pub open spec fn member(s: Seq<char>, at: int, key: Seq<char>) -> Option<int> {
    if 0 <= at < s.len() && s[at] == '{' {
        member_from(s, skip_space(s, at + 1), key, true)
    } else {
        None
    }
}

/// Where each element of the array whose next element starts at `i` starts, in order.
pub open spec fn items_from(s: Seq<char>, i: int, first: bool) -> Seq<int>
    decreases s.len() - i,
{
    if first && 0 <= i < s.len() && s[i] == ']' {
        Seq::empty()
    } else if i < 0 || i >= s.len() {
        Seq::empty()
    } else {
        match value_end(s, i) {
            Some(e) => {
                let k = skip_space(s, e);
                let n = skip_space(s, k + 1);
                if 0 <= k < s.len() && s[k] == ',' && forward(i, n, s.len() as int) {
                    seq![i] + items_from(s, n, false)
                } else {
                    seq![i]
                }
            },
            None => Seq::empty(),
        }
    }
}

/// The elements of the array at `at`, if `at` holds an array.
pub open spec fn elements(s: Seq<char>, at: int) -> Option<Seq<int>> {
    if 0 <= at < s.len() && s[at] == '[' {
        Some(items_from(s, skip_space(s, at + 1), true))
    } else {
        None
    }
}

/// The text of the string at `at`, decoded, if `at` holds a string.
pub open spec fn string_at(s: Seq<char>, at: int) -> Option<Seq<char>> {
    if 0 <= at < s.len() && s[at] == '"' {
        match text_from(s, at + 1) {
            Some((t, _)) => Some(t),
            None => None,
        }
    } else {
        None
    }
}

/// The boolean at `at`, if `at` holds one.
pub open spec fn bool_at(s: Seq<char>, at: int) -> Option<bool> {
    if spells(s, at, "true"@) {
        Some(true)
    } else if spells(s, at, "false"@) {
        Some(false)
    } else {
        None
    }
}

/// `value.get(key)`: where the member named `key` of the object at `at` starts.
pub fn get(d: &Doc, at: usize, key: &str) -> (r: Option<usize>)
    ensures
        opt_int(r) == member(d.text@, at as int, key@),
        match r {
            Some(w) => w <= d.text.len(),
            None => true,
        },
{
    let v = &d.text;
    let n = v.len();
    if at >= n || v[at] != '{' {
        return None;
    }
    let want = chars_of(key);
    let mut i = skip_space_at(v, at + 1);
    let mut first = true;
    while i < n
        invariant
            n == v.len(),
            v@ == d.text@,
            i <= n,
            want@ == key@,
            member(v@, at as int, key@) == member_from(v@, i as int, key@, first),
        decreases n - i,
    {
        match member_step(v, i, &want, first) {
            Ok(w) => {
                return Some(w);
            },
            Err(Some(m)) => {
                i = m;
                first = false;
            },
            Err(None) => {
                return None;
            },
        }
    }
    None
}

/// One member of an object: its value's start when its name is `want`, or where the next member
/// starts, or neither when the object ends or is malformed there.
fn member_step(v: &Vec<char>, i: usize, want: &Vec<char>, first: bool) -> (r: Result<usize, Option<usize>>)
    requires
        i < v.len(),
    ensures
        match r {
            Ok(w) => member_from(v@, i as int, want@, first) == Some(w as int) && w <= v.len(),
            Err(Some(m)) => member_from(v@, i as int, want@, first) == member_from(v@, m as int, want@, false) && i
                < m <= v.len(),
            Err(None) => member_from(v@, i as int, want@, first) is None,
        },
{
    let n = v.len();
    if first && v[i] == '}' {
        return Err(None);
    }
    if v[i] != '"' {
        return Err(None);
    }
    let (name, e) = match text_at(v, i + 1) {
        Some(t) => t,
        None => return Err(None),
    };
    let c = skip_space_at(v, e);
    if c >= n || v[c] != ':' {
        return Err(None);
    }
    let w = skip_space_at(v, c + 1);
    if !(i < w && w <= n) {
        return Err(None);
    }
    let nm = chars_of(name.as_str());
    assert(nm@.subrange(0, nm.len() as int) =~= nm@);
    if crate::text::range_eq(&nm, 0, nm.len(), want) {
        return Ok(w);
    }
    let ve = match value_at(v, w) {
        Some(ve) => ve,
        None => return Err(None),
    };
    let k = skip_space_at(v, ve);
    if k >= n || v[k] != ',' {
        return Err(None);
    }
    let m = skip_space_at(v, k + 1);
    if !(i < m && m <= n) {
        return Err(None);
    }
    Err(Some(m))
}

/// The elements of the array at `at`, where each starts.
pub fn items(d: &Doc, at: usize) -> (r: Option<Vec<usize>>)
    ensures
        match r {
            Some(es) => elements(d.text@, at as int) is Some && es@.len() == elements(d.text@, at as int)->0.len()
                && forall|k: int| 0 <= k < es@.len() ==> es@[k] as int == elements(d.text@, at as int)->0[k],
            None => elements(d.text@, at as int) is None,
        },
{
    let v = &d.text;
    let n = v.len();
    if at >= n || v[at] != '[' {
        return None;
    }
    let mut out: Vec<usize> = Vec::new();
    let mut i = skip_space_at(v, at + 1);
    let mut first = true;
    let ghost all = items_from(v@, i as int, true);
    let mut more = true;
    while more && i < n
        invariant
            n == v.len(),
            v@ == d.text@,
            i <= n,
            all == elements(v@, at as int)->0,
            elements(v@, at as int) is Some,
            more ==> all == out@.map_values(|u: usize| u as int) + items_from(v@, i as int, first),
            !more ==> all == out@.map_values(|u: usize| u as int),
        decreases n - i, (if more { 1int } else { 0int }),
    {
        if first && v[i] == ']' {
            assert(out@.map_values(|u: usize| u as int) + Seq::<int>::empty() =~= out@.map_values(|u: usize| u as int));
            more = false;
        } else {
            match value_at(v, i) {
                Some(e) => {
                    let k = skip_space_at(v, e);
                    let ghost before = out@.map_values(|u: usize| u as int);
                    out.push(i);
                    assert(out@.map_values(|u: usize| u as int) =~= before + seq![i as int]);
                    if k < n && v[k] == ',' {
                        let m = skip_space_at(v, k + 1);
                        if i < m && m <= n {
                            assert(before + (seq![i as int] + items_from(v@, m as int, false)) =~= (before
                                + seq![i as int]) + items_from(v@, m as int, false));
                            i = m;
                            first = false;
                        } else {
                            assert(before + seq![i as int] =~= out@.map_values(|u: usize| u as int));
                            more = false;
                        }
                    } else {
                        more = false;
                    }
                },
                None => {
                    assert(out@.map_values(|u: usize| u as int) + Seq::<int>::empty() =~= out@.map_values(
                        |u: usize| u as int,
                    ));
                    more = false;
                },
            }
        }
    }
    if more {
        assert(out@.map_values(|u: usize| u as int) + Seq::<int>::empty() =~= out@.map_values(|u: usize| u as int));
    }
    let ghost got = out@.map_values(|u: usize| u as int);
    assert(forall|k: int| 0 <= k < out@.len() ==> out@[k] as int == got[k]);
    Some(out)
}

/// `value.as_str()`: the string at `at`, decoded.
pub fn str_value(d: &Doc, at: usize) -> (r: Option<String>)
    ensures
        crate::chooser::opt_view(r) == string_at(d.text@, at as int),
{
    let v = &d.text;
    if at >= v.len() || v[at] != '"' {
        return None;
    }
    match text_at(v, at + 1) {
        Some((t, _)) => Some(t),
        None => None,
    }
}

/// `value.as_bool()`: the boolean at `at`.
pub fn bool_value(d: &Doc, at: usize) -> (r: Option<bool>)
    ensures
        r == bool_at(d.text@, at as int),
{
    let v = &d.text;
    if at > v.len() {
        return None;
    }
    if spells_at(v, at, "true") {
        Some(true)
    } else if spells_at(v, at, "false") {
        Some(false)
    } else {
        None
    }
}


proof fn lemma_char_read(s: Seq<char>, j: int, c: char)
    requires
        0 <= j,
        j + crate::json::escaped_char(c).len() <= s.len(),
        s.subrange(j, j + crate::json::escaped_char(c).len()) == crate::json::escaped_char(c),
    ensures
        text_from(s, j) == prepend(c, text_from(s, j + crate::json::escaped_char(c).len())),
{
    let ec = crate::json::escaped_char(c);
    assert(s[j] == ec[0]);
    if c == '"' || c == '\\' || c == '\n' || c == '\r' || c == '\t' {
        assert(s[j + 1] == ec[1]);
    } else if (c as u32) < 0x20 {
        assert(s[j + 1] == ec[1]);
        let hi = (c as u32 / 16) as nat;
        let lo = (c as u32 % 16) as nat;
        crate::json::lemma_hex_char(hi);
        crate::json::lemma_hex_char(lo);
        let h = s.subrange(j + 2, j + 6);
        assert(h =~= seq!['0', '0', crate::json::hex_char(hi), crate::json::hex_char(lo)]);
        let h3 = seq!['0', '0', crate::json::hex_char(hi)];
        let h2 = seq!['0', '0'];
        let h1 = seq!['0'];
        let h0 = Seq::<char>::empty();
        assert(h.drop_last() =~= h3);
        assert(h3.drop_last() =~= h2);
        assert(h2.drop_last() =~= h1);
        assert(h1.drop_last() =~= h0);
        assert(hex_value(h0) == 0);
        assert(hex_value(h1) == 0);
        assert(hex_value(h2) == 0);
        assert(hex_value(h3) == hi);
        assert(hex_value(h) == hi * 16 + lo);
        assert(all_hex(h)) by {
            assert forall|q: int| 0 <= q < h.len() implies crate::vulkan::hex_digit(#[trigger] h[q]) by {}
        }
        assert(hex_value(h) == c as u32);
    } else {
        assert(ec.len() == 1);
    }
}

proof fn lemma_text_read(s: Seq<char>, j: int, t: Seq<char>)
    requires
        0 <= j,
        j + crate::json::escaped(t).len() < s.len(),
        s.subrange(j, j + crate::json::escaped(t).len()) == crate::json::escaped(t),
        s[j + crate::json::escaped(t).len()] == '"',
    ensures
        text_from(s, j) == Some((t, j + crate::json::escaped(t).len() + 1)),
    decreases t.len(),
{
    if t.len() == 0 {
        assert(crate::json::escaped(t) =~= Seq::<char>::empty());
    } else {
        let c = t[0];
        let rest = t.drop_first();
        assert(t =~= seq![c] + rest);
        crate::json::lemma_escaped_concat(seq![c], rest);
        assert(seq![c].drop_last() =~= Seq::<char>::empty());
        assert(crate::json::escaped(Seq::<char>::empty()) == Seq::<char>::empty());
        assert(crate::json::escaped(seq![c]) == crate::json::escaped(seq![c].drop_last()) + crate::json::escaped_char(
            seq![c].last(),
        ));
        assert(crate::json::escaped(seq![c]) =~= crate::json::escaped_char(c));
        let ec = crate::json::escaped_char(c);
        let er = crate::json::escaped(rest);
        assert(crate::json::escaped(t) =~= ec + er);
        assert(s.subrange(j, j + ec.len()) =~= ec) by {
            assert forall|q: int| 0 <= q < ec.len() implies s.subrange(j, j + ec.len())[q] == ec[q] by {
                assert(s.subrange(j, j + crate::json::escaped(t).len())[q] == (ec + er)[q]);
            }
        }
        lemma_char_read(s, j, c);
        let k = j + ec.len();
        assert(s.subrange(k, k + er.len()) =~= er) by {
            assert forall|q: int| 0 <= q < er.len() implies s.subrange(k, k + er.len())[q] == er[q] by {
                assert(s.subrange(j, j + crate::json::escaped(t).len())[ec.len() + q] == (ec + er)[ec.len() + q]);
            }
        }
        lemma_text_read(s, k, rest);
        assert(seq![c] + rest =~= t);
    }
}

/// What the backend writes with `escape` between quotes is a JSON document holding exactly that string,
/// so a reader of the line protocol gets back every character it was sent.
pub proof fn an_escaped_string_reads_back(value: Seq<char>)
    ensures
        document(seq!['"'] + crate::json::escaped(value) + seq!['"']) == Some(0int),
        string_at(seq!['"'] + crate::json::escaped(value) + seq!['"'], 0) == Some(value),
{
    let e = crate::json::escaped(value);
    let s = seq!['"'] + e + seq!['"'];
    assert(s.subrange(1, 1int + e.len()) =~= e);
    assert(s[1int + e.len()] == '"');
    lemma_text_read(s, 1, value);
    assert(skip_space(s, 0) == 0);
    assert(skip_space(s, s.len() as int) == s.len());
}

} // verus!
