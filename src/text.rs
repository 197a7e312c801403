//! Small verified operations on text.
use vstd::prelude::*;

verus! {

/// Whether `a` and `b` hold the same characters.
pub fn text_eq(a: &str, b: &str) -> (r: bool)
    ensures
        r == (a@ == b@),
{
    let n = a.unicode_len();
    if n != b.unicode_len() {
        return false;
    }
    let mut i: usize = 0;
    while i < n
        invariant
            n == a@.len(),
            n == b@.len(),
            i <= n,
            forall|j: int| 0 <= j < i ==> a@[j] == b@[j],
        decreases n - i,
    {
        if a.get_char(i) != b.get_char(i) {
            return false;
        }
        i += 1;
    }
    assert(a@ =~= b@);
    true
}

/// What follows the last `/` of `s`; all of `s` if it holds none.
pub open spec fn after_last_slash(s: Seq<char>) -> Seq<char>
    decreases s.len(),
{
    if s.len() == 0 {
        s
    } else if s.last() == '/' {
        Seq::empty()
    } else {
        after_last_slash(s.drop_last()).push(s.last())
    }
}

/// The segment after the last `/` of `s`.
pub fn last_segment(s: &str) -> (r: String)
    ensures
        r@ == after_last_slash(s@),
{
    let n = s.unicode_len();
    let mut i: usize = n;
    proof {
        assert(s@.take(n as int) =~= s@);
        assert(after_last_slash(s@) + s@.subrange(n as int, n as int) =~= after_last_slash(s@));
    }
    while i > 0 && s.get_char(i - 1) != '/'
        invariant
            n == s@.len(),
            i <= n,
            after_last_slash(s@) == after_last_slash(s@.take(i as int)) + s@.subrange(
                i as int,
                n as int,
            ),
        decreases i,
    {
        proof {
            let t = s@.take(i as int);
            assert(t.drop_last() =~= s@.take(i - 1));
            assert(after_last_slash(t) == after_last_slash(s@.take(i - 1)).push(s@[i - 1]));
            assert(after_last_slash(s@.take(i - 1)).push(s@[i - 1]) + s@.subrange(i as int, n as int)
                =~= after_last_slash(s@.take(i - 1)) + s@.subrange(i - 1, n as int));
        }
        i -= 1;
    }
    proof {
        if i > 0 {
            assert(s@.take(i as int).last() == '/');
        } else {
            assert(s@.take(0) =~= Seq::<char>::empty());
        }
        assert(after_last_slash(s@.take(i as int)) + s@.subrange(i as int, n as int)
            =~= s@.subrange(i as int, n as int));
    }
    s.substring_char(i, n).to_owned()
}

/// Whether every character of `s` is a decimal digit.
pub open spec fn all_digits(s: Seq<char>) -> bool {
    forall|i: int| 0 <= i < s.len() ==> '0' <= #[trigger] s[i] <= '9'
}

/// The value of the decimal numeral `s`.
pub open spec fn decimal_value(s: Seq<char>) -> nat
    decreases s.len(),
{
    if s.len() == 0 {
        0
    } else {
        decimal_value(s.drop_last()) * 10 + ((s.last() as u32) - ('0' as u32)) as nat
    }
}

/// The value of `s` if it is a non-empty decimal numeral below 1000.
pub open spec fn small_numeral(s: Seq<char>) -> Option<nat> {
    if s.len() > 0 && all_digits(s) && decimal_value(s) < 1000 {
        Some(decimal_value(s))
    } else {
        None
    }
}

/// Reads `s` as a decimal numeral below 1000.
pub fn parse_small_numeral(s: &str) -> (r: Option<usize>)
    ensures
        match r {
            Some(v) => small_numeral(s@) == Some(v as nat),
            None => small_numeral(s@) is None,
        },
{
    let n = s.unicode_len();
    if n == 0 {
        return None;
    }
    let mut v: usize = 0;
    let mut i: usize = 0;
    while i < n
        invariant
            n == s@.len(),
            i <= n,
            all_digits(s@.take(i as int)),
            v == (if decimal_value(s@.take(i as int)) < 1000 {
                decimal_value(s@.take(i as int))
            } else {
                1000
            }),
        decreases n - i,
    {
        let c = s.get_char(i);
        if c < '0' || c > '9' {
            assert(!all_digits(s@));
            return None;
        }
        let d = (c as u32 - '0' as u32) as usize;
        proof {
            assert(s@.take(i + 1).drop_last() =~= s@.take(i as int));
            assert(decimal_value(s@.take(i + 1)) == decimal_value(s@.take(i as int)) * 10 + d);
        }
        if v < 1000 {
            v = v * 10 + d;
            if v >= 1000 {
                v = 1000;
            }
        }
        i += 1;
        assert(all_digits(s@.take(i as int))) by {
            assert forall|j: int| 0 <= j < i implies '0' <= #[trigger] s@.take(i as int)[j] <= '9' by {
                if j < i - 1 {
                    assert(s@.take(i as int)[j] == s@.take(i - 1)[j]);
                }
            }
        }
    }
    assert(s@.take(n as int) =~= s@);
    if v < 1000 {
        Some(v)
    } else {
        None
    }
}

/// Whether `a` comes strictly before `b` in the order of their characters'
/// code points, a proper prefix first.
pub open spec fn text_less(a: Seq<char>, b: Seq<char>) -> bool
    decreases a.len(),
{
    if a.len() == 0 {
        b.len() > 0
    } else if b.len() == 0 {
        false
    } else if a[0] != b[0] {
        (a[0] as u32) < (b[0] as u32)
    } else {
        text_less(a.drop_first(), b.drop_first())
    }
}

proof fn lemma_text_less_skip(a: Seq<char>, b: Seq<char>, i: int)
    requires
        0 <= i <= a.len(),
        i <= b.len(),
        a.take(i) == b.take(i),
    ensures
        text_less(a, b) == text_less(a.skip(i), b.skip(i)),
    decreases i,
{
    if i > 0 {
        assert(a[0] == a.take(i)[0]);
        assert(b[0] == b.take(i)[0]);
        assert(a.drop_first().take(i - 1) =~= a.take(i).drop_first());
        assert(b.drop_first().take(i - 1) =~= b.take(i).drop_first());
        lemma_text_less_skip(a.drop_first(), b.drop_first(), i - 1);
        assert(a.drop_first().skip(i - 1) =~= a.skip(i));
        assert(b.drop_first().skip(i - 1) =~= b.skip(i));
    } else {
        assert(a.skip(0) =~= a);
        assert(b.skip(0) =~= b);
    }
}

/// Whether `a` comes strictly before `b`.
pub fn less_text(a: &str, b: &str) -> (r: bool)
    ensures
        r == text_less(a@, b@),
{
    let n = a.unicode_len();
    let m = b.unicode_len();
    let mut i: usize = 0;
    while i < n && i < m
        invariant
            n == a@.len(),
            m == b@.len(),
            i <= n,
            i <= m,
            a@.take(i as int) == b@.take(i as int),
        decreases n - i,
    {
        let x = a.get_char(i);
        let y = b.get_char(i);
        if x != y {
            proof {
                lemma_text_less_skip(a@, b@, i as int);
                assert(a@.skip(i as int)[0] == x);
                assert(b@.skip(i as int)[0] == y);
            }
            return (x as u32) < (y as u32);
        }
        assert(a@.take(i + 1) =~= a@.take(i as int).push(x));
        assert(b@.take(i + 1) =~= b@.take(i as int).push(y));
        i += 1;
    }
    proof {
        lemma_text_less_skip(a@, b@, i as int);
    }
    i == n && i < m
}

/// The position of the least key among `keys[..i]`, starting from `best`;
/// the first of equal keys is kept.
pub open spec fn least_from(keys: Seq<Seq<char>>, i: int, best: int) -> int
    decreases keys.len() - i,
{
    if i < 0 || i >= keys.len() {
        best
    } else if text_less(keys[i], keys[best]) {
        least_from(keys, i + 1, i)
    } else {
        least_from(keys, i + 1, best)
    }
}

/// The position of the least of the keys, which are not empty.
pub open spec fn least_key(keys: Seq<Seq<char>>) -> int {
    least_from(keys, 1, 0)
}

/// The keys of a sequence of entries.
pub open spec fn keys_of<V>(es: Seq<(String, V)>) -> Seq<Seq<char>> {
    es.map_values(|e: (String, V)| e.0@)
}

proof fn lemma_least_from_range(keys: Seq<Seq<char>>, i: int, best: int)
    requires
        0 <= best < keys.len(),
        0 <= i,
    ensures
        0 <= least_from(keys, i, best) < keys.len(),
    decreases keys.len() - i,
{
    if i < keys.len() {
        lemma_least_from_range(keys, i + 1, if text_less(keys[i], keys[best]) { i } else { best });
    }
}

/// The position of the entry with the least key; `es` is not empty.
pub fn least_entry<V>(es: &Vec<(String, V)>) -> (r: usize)
    requires
        es.len() > 0,
    ensures
        r == least_key(keys_of(es@)),
        r < es.len(),
{
    let ghost keys = keys_of(es@);
    let mut best: usize = 0;
    let mut i: usize = 1;
    while i < es.len()
        invariant
            keys == keys_of(es@),
            1 <= i <= es.len(),
            best < i,
            least_key(keys) == least_from(keys, i as int, best as int),
        decreases es.len() - i,
    {
        assert(keys[i as int] == es@[i as int].0@);
        assert(keys[best as int] == es@[best as int].0@);
        if less_text(es[i].0.as_str(), es[best].0.as_str()) {
            best = i;
        }
        i += 1;
    }
    proof {
        lemma_least_from_range(keys, 1, 0);
    }
    best
}

} // verus!
