// Whitespace-separated words, as `str::split_whitespace` yields them.
use crate::text::{is_ws, is_ws_char, skip_ws, trim_start};
use vstd::prelude::*;

verus! {

/// The length of the leading run of characters that are not whitespace.
pub open spec fn word_len(s: Seq<char>) -> nat
    decreases s.len(),
{
    if s.len() == 0 || is_ws(s[0]) {
        0
    } else {
        1 + word_len(s.drop_first())
    }
}

/// The words of `s`, in order.
pub open spec fn words(s: Seq<char>) -> Seq<Seq<char>>
    decreases s.len(),
{
    let t = trim_start(s);
    if t.len() == 0 {
        Seq::empty()
    } else if t.len() < s.len() {
        words(t)
    } else {
        let k = word_len(s);
        if 0 < k <= s.len() {
            seq![s.take(k as int)] + words(s.skip(k as int))
        } else {
            Seq::empty()
        }
    }
}

proof fn lemma_word_len(s: Seq<char>, k: int)
    requires
        0 <= k <= s.len(),
        forall|j: int| 0 <= j < k ==> !is_ws(s[j]),
        k == s.len() || is_ws(s[k]),
    ensures
        word_len(s) == k,
    decreases k,
{
    if k > 0 {
        lemma_word_len(s.drop_first(), k - 1);
    }
}

pub proof fn lemma_trim_start_shape(s: Seq<char>)
    ensures
        trim_start(s).len() <= s.len(),
        trim_start(s) == s.skip(s.len() - trim_start(s).len()),
        trim_start(s).len() > 0 ==> !is_ws(trim_start(s)[0]),
    decreases s.len(),
{
    if s.len() > 0 && is_ws(s[0]) {
        lemma_trim_start_shape(s.drop_first());
        assert(s.drop_first().skip(s.drop_first().len() - trim_start(s).len()) =~= s.skip(
            s.len() - trim_start(s).len(),
        ));
    } else {
        assert(s.skip(0) =~= s);
    }
}

proof fn lemma_trim_start_idem(s: Seq<char>)
    requires
        s.len() == 0 || !is_ws(s[0]),
    ensures
        trim_start(s) == s,
{
}

/// The end of the run of non-whitespace characters that starts at `a`.
fn word_end(v: &Vec<char>, a: usize, hi: usize) -> (b: usize)
    requires
        a <= hi <= v.len(),
    ensures
        a <= b <= hi,
        forall|j: int| a <= j < b ==> !is_ws(v@[j]),
        b == hi || is_ws(v@[b as int]),
{
    let mut b: usize = a;
    while b < hi && !is_ws_char(v[b])
        invariant
            a <= b <= hi <= v.len(),
            forall|j: int| a <= j < b ==> !is_ws(v@[j]),
        decreases hi - b,
    {
        b = b + 1;
    }
    b
}

/// The words of `v[lo..hi]`, as ranges.
pub fn words_of(v: &Vec<char>, lo: usize, hi: usize) -> (r: Vec<(usize, usize)>)
    requires
        lo <= hi <= v.len(),
    ensures
        r@.len() == words(v@.subrange(lo as int, hi as int)).len(),
        forall|i: int|
            0 <= i < r@.len() ==> {
                &&& lo <= (#[trigger] r@[i]).0 <= r@[i].1 <= hi
                &&& v@.subrange(r@[i].0 as int, r@[i].1 as int) == words(
                    v@.subrange(lo as int, hi as int),
                )[i]
            },
{
    let mut r: Vec<(usize, usize)> = Vec::new();
    let mut i: usize = lo;
    let ghost acc: Seq<Seq<char>> = Seq::empty();
    assert(v@.subrange(lo as int, hi as int) =~= v@.subrange(i as int, hi as int));
    assert(acc + words(v@.subrange(lo as int, hi as int)) =~= words(v@.subrange(lo as int, hi as int)));
    while i < hi
        invariant
            lo <= i <= hi <= v.len(),
            r@.len() == acc.len(),
            words(v@.subrange(lo as int, hi as int)) == acc + words(v@.subrange(i as int, hi as int)),
            forall|q: int|
                0 <= q < r@.len() ==> {
                    &&& lo <= (#[trigger] r@[q]).0 <= r@[q].1 <= hi
                    &&& v@.subrange(r@[q].0 as int, r@[q].1 as int) == acc[q]
                },
        decreases hi - i,
    {
        let ghost s = v@.subrange(i as int, hi as int);
        let a = skip_ws(v, i, hi);
        proof {
            lemma_trim_start_shape(s);
        }
        if a == hi {
            assert(words(s) == Seq::<Seq<char>>::empty());
            assert(words(v@.subrange(hi as int, hi as int)) == Seq::<Seq<char>>::empty());
            i = hi;
        } else {
            let ghost t = v@.subrange(a as int, hi as int);
            let b = word_end(v, a, hi);
            proof {
                assert forall|j: int| 0 <= j < b - a implies !is_ws(t[j]) by {
                    assert(t[j] == v@[a + j]);
                }
                lemma_word_len(t, b - a);
                assert(t.len() > 0 && !is_ws(t[0]));
                lemma_trim_start_idem(t);
                if a > i {
                    assert(words(s) == words(t));
                } else {
                    assert(s =~= t);
                }
                assert(words(t) == seq![t.take(b - a)] + words(t.skip(b - a)));
                assert(t.take(b - a) =~= v@.subrange(a as int, b as int));
                assert(t.skip(b - a) =~= v@.subrange(b as int, hi as int));
                acc = acc.push(v@.subrange(a as int, b as int));
                assert(words(v@.subrange(lo as int, hi as int)) =~= acc + words(
                    v@.subrange(b as int, hi as int),
                ));
            }
            let ghost old_r = r@;
            r.push((a, b));
            assert forall|q: int| 0 <= q < r@.len() implies {
                &&& lo <= r@[q].0 <= r@[q].1 <= hi
                &&& v@.subrange(r@[q].0 as int, r@[q].1 as int) == acc[q]
            } by {
                if q < r@.len() - 1 {
                    assert(r@[q] == old_r[q]);
                    assert(lo <= old_r[q].0 <= old_r[q].1 <= hi);
                } else {
                    assert(r@[q] == (a, b));
                    assert(lo <= a);
                    assert(a <= b);
                    assert(b <= hi);
                }
            }
            i = b;
        }
    }
    assert(words(v@.subrange(hi as int, hi as int)) == Seq::<Seq<char>>::empty());
    assert(acc + Seq::<Seq<char>>::empty() =~= acc);
    r
}

} // verus!
