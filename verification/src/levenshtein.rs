//! Edit distance over Unicode code points: insertions, deletions and
//! substitutions at unit cost, computed with a single-row dynamic-programming
//! sweep and proved equal to the classic recursive definition.

use vstd::prelude::*;
use vstd::string::*;

verus! {

pub open spec fn min2(a: int, b: int) -> int {
    if a <= b {
        a
    } else {
        b
    }
}

pub open spec fn min3(a: int, b: int, c: int) -> int {
    min2(a, min2(b, c))
}

/// The classic edit distance between two character sequences.
pub open spec fn lev(a: Seq<char>, b: Seq<char>) -> int
    decreases a.len() + b.len(),
{
    if a.len() == 0 {
        b.len() as int
    } else if b.len() == 0 {
        a.len() as int
    } else {
        let cost: int = if a.last() == b.last() {
            0
        } else {
            1
        };
        min3(
            lev(a.drop_last(), b.drop_last()) + cost,
            lev(a.drop_last(), b) + 1,
            lev(a, b.drop_last()) + 1,
        )
    }
}

/// The distance is never negative and never exceeds the longer length.
pub proof fn lemma_lev_bounds(a: Seq<char>, b: Seq<char>)
    ensures
        0 <= lev(a, b),
        lev(a, b) <= if a.len() >= b.len() {
            a.len() as int
        } else {
            b.len() as int
        },
    decreases a.len() + b.len(),
{
    if a.len() != 0 && b.len() != 0 {
        lemma_lev_bounds(a.drop_last(), b.drop_last());
        lemma_lev_bounds(a.drop_last(), b);
        lemma_lev_bounds(a, b.drop_last());
    }
}

/// A sequence is at distance zero from itself.
pub proof fn lemma_lev_self(a: Seq<char>)
    ensures
        lev(a, a) == 0,
    decreases a.len(),
{
    if a.len() > 0 {
        lemma_lev_self(a.drop_last());
        lemma_lev_bounds(a.drop_last(), a);
        lemma_lev_bounds(a, a.drop_last());
    }
}

/// The distance from the empty sequence is the other sequence's length.
pub proof fn lemma_lev_empty(s: Seq<char>)
    ensures
        lev(Seq::<char>::empty(), s) == s.len(),
        lev(s, Seq::<char>::empty()) == s.len(),
{
}

/// The dynamic-programming recurrence over prefixes.
proof fn lemma_lev_step(a: Seq<char>, b: Seq<char>, i: int, j: int)
    requires
        0 <= i < a.len(),
        0 <= j < b.len(),
    ensures
        lev(a.take(i + 1), b.take(j + 1)) == min3(
            lev(a.take(i), b.take(j)) + (if a[i] == b[j] {
                0int
            } else {
                1int
            }),
            lev(a.take(i + 1), b.take(j)) + 1,
            lev(a.take(i), b.take(j + 1)) + 1,
        ),
{
    let pa = a.take(i + 1);
    let pb = b.take(j + 1);
    assert(pa.last() == a[i]);
    assert(pb.last() == b[j]);
    assert(pa.drop_last() =~= a.take(i));
    assert(pb.drop_last() =~= b.take(j));
}

fn chars_of(s: &str) -> (r: Vec<char>)
    ensures
        r@ == s@,
{
    let len = s.unicode_len();
    let mut r: Vec<char> = Vec::new();
    let mut i: usize = 0;
    while i < len
        invariant
            i <= len,
            len == s@.len(),
            r@ =~= s@.take(i as int),
        decreases len - i,
    {
        r.push(s.get_char(i));
        i += 1;
    }
    proof {
        assert(r@ =~= s@);
    }
    r
}

fn char_vecs_eq(a: &Vec<char>, b: &Vec<char>) -> (r: bool)
    ensures
        r == (a@ == b@),
{
    if a.len() != b.len() {
        return false;
    }
    let mut i: usize = 0;
    while i < a.len()
        invariant
            i <= a.len(),
            a@.len() == b@.len(),
            forall|k: int| 0 <= k < i ==> a@[k] == b@[k],
        decreases a.len() - i,
    {
        if a[i] != b[i] {
            return false;
        }
        i += 1;
    }
    proof {
        assert(a@ =~= b@);
    }
    true
}

/// Edit distance between two strings, over code points (not bytes).
///
/// An exact match short-circuits to 0 and either empty string short-circuits
/// to the other's length; otherwise a rolling cost row of the length of the
/// first string is swept once per character of the second.
pub fn distance(a: &str, b: &str) -> (r: usize)
    ensures
        r as int == lev(a@, b@),
{
    let av = chars_of(a);
    let bv = chars_of(b);
    if char_vecs_eq(&av, &bv) {
        proof {
            lemma_lev_self(a@);
        }
        return 0;
    }
    let n = av.len();
    let m = bv.len();
    if n == 0 {
        return m;
    }
    if m == 0 {
        return n;
    }
    let mut cache: Vec<usize> = Vec::new();
    let mut i: usize = 0;
    while i < n
        invariant
            i <= n,
            cache@.len() == i,
            forall|k: int| 0 <= k < i ==> cache@[k] == k + 1,
        decreases n - i,
    {
        cache.push(i + 1);
        i += 1;
    }
    proof {
        assert forall|k: int| 0 <= k < n implies cache@[k] == lev(
            av@.take(k + 1),
            bv@.take(0),
        ) by {
            assert(bv@.take(0) =~= Seq::<char>::empty());
            assert(lev(av@.take(k + 1), bv@.take(0)) == k + 1);
        }
    }
    let mut j: usize = 0;
    while j < m
        invariant
            j <= m,
            n == av@.len(),
            m == bv@.len(),
            0 < n,
            0 < m,
            cache@.len() == n,
            forall|k: int| 0 <= k < n ==> cache@[k] == lev(av@.take(k + 1), bv@.take(j as int)),
        decreases m - j,
    {
        let cb = bv[j];
        let mut dist: usize = j;
        let mut res: usize = j + 1;
        proof {
            assert(av@.take(0) =~= Seq::<char>::empty());
            assert(lev(av@.take(0), bv@.take(j as int)) == j);
            assert(lev(av@.take(0), bv@.take(j + 1)) == j + 1);
        }
        let mut i: usize = 0;
        while i < n
            invariant
                i <= n,
                j < m,
                n == av@.len(),
                m == bv@.len(),
                cb == bv@[j as int],
                cache@.len() == n,
                dist as int == lev(av@.take(i as int), bv@.take(j as int)),
                res as int == lev(av@.take(i as int), bv@.take(j + 1)),
                forall|k: int| 0 <= k < i ==> cache@[k] == lev(av@.take(k + 1), bv@.take(j + 1)),
                forall|k: int| i <= k < n ==> cache@[k] == lev(av@.take(k + 1), bv@.take(j as int)),
            decreases n - i,
        {
            let ca = av[i];
            let cache_i = cache[i];
            proof {
                lemma_lev_step(av@, bv@, i as int, j as int);
                lemma_lev_bounds(av@.take(i as int), bv@.take(j as int));
                lemma_lev_bounds(av@.take(i + 1), bv@.take(j as int));
                lemma_lev_bounds(av@.take(i as int), bv@.take(j + 1));
            }
            let mut next: usize = if ca == cb {
                dist
            } else {
                dist + 1
            };
            if cache_i < next {
                let c = cache_i + 1;
                if c < next {
                    next = c;
                }
            }
            if res < next {
                let c = res + 1;
                if c < next {
                    next = c;
                }
            }
            assert(next as int == lev(av@.take(i + 1), bv@.take(j + 1)));
            dist = cache_i;
            res = next;
            cache[i] = next;
            i += 1;
        }
        j += 1;
    }
    let r = cache[n - 1];
    proof {
        assert(av@.take(n as int) =~= av@);
        assert(bv@.take(m as int) =~= bv@);
    }
    r
}

} // verus!
