//! Character-level Levenshtein distance, verified against its
//! recursive definition: the least number of single-character
//! insertions, deletions and substitutions turning one string into the
//! other, each at unit cost.

use vstd::prelude::*;

verus! {

/// The smaller of two naturals.
pub open spec fn min2(x: nat, y: nat) -> nat {
    if x <= y {
        x
    } else {
        y
    }
}

/// The larger of two naturals.
pub open spec fn max2(x: nat, y: nat) -> nat {
    if x >= y {
        x
    } else {
        y
    }
}

/// Levenshtein distance between two character sequences.
pub open spec fn lev(a: Seq<char>, b: Seq<char>) -> nat
    decreases a.len() + b.len(),
{
    if a.len() == 0 {
        b.len()
    } else if b.len() == 0 {
        a.len()
    } else {
        let cost: nat = if a.last() == b.last() {
            0
        } else {
            1
        };
        min2(
            min2(lev(a.drop_last(), b.drop_last()) + cost, lev(a.drop_last(), b) + 1),
            lev(a, b.drop_last()) + 1,
        )
    }
}

/// The distance never exceeds the longer length: deleting all of one
/// string and inserting all of the other is always available.
pub proof fn lemma_lev_le_max(a: Seq<char>, b: Seq<char>)
    ensures
        lev(a, b) <= max2(a.len(), b.len()),
    decreases a.len() + b.len(),
{
    if a.len() == 0 || b.len() == 0 {
    } else {
        lemma_lev_le_max(a.drop_last(), b.drop_last());
        lemma_lev_le_max(a.drop_last(), b);
        lemma_lev_le_max(a, b.drop_last());
    }
}

/// Collect the characters of a string slice, in order.
pub fn chars_vec(s: &str) -> (r: Vec<char>)
    ensures
        r@ == s@,
{
    let n: usize = s.unicode_len();
    let mut r: Vec<char> = Vec::new();
    let mut i: usize = 0;
    while i < n
        invariant
            0 <= i <= n,
            n == s@.len(),
            r@ == s@.subrange(0, i as int),
        decreases n - i,
    {
        let c = s.get_char(i);
        r.push(c);
        proof {
            assert(r@ =~= s@.subrange(0, i + 1));
        }
        i = i + 1;
    }
    proof {
        assert(r@ =~= s@);
    }
    r
}

/// Levenshtein distance of two character vectors by dynamic
/// programming over prefixes, two rows at a time.
pub fn lev_chars(a: &Vec<char>, b: &Vec<char>) -> (r: usize)
    ensures
        r == lev(a@, b@),
{
    let m: usize = a.len();
    let n: usize = b.len();
    let mut prev: Vec<usize> = Vec::new();
    prev.push(0);
    let mut j0: usize = 0;
    while j0 < n
        invariant
            0 <= j0 <= n,
            n == b@.len(),
            prev@.len() == j0 + 1,
            forall|j: int| 0 <= j <= j0 ==> prev@[j] == lev(Seq::<char>::empty(), b@.take(j)),
        decreases n - j0,
    {
        proof {
            assert(b@.take(j0 + 1).len() == j0 + 1);
        }
        prev.push(j0 + 1);
        j0 = j0 + 1;
    }
    let mut i0: usize = 0;
    while i0 < m
        invariant
            0 <= i0 <= m,
            m == a@.len(),
            n == b@.len(),
            prev@.len() == n + 1,
            forall|j: int| 0 <= j <= n ==> prev@[j] == lev(a@.take(i0 as int), b@.take(j)),
        decreases m - i0,
    {
        let i: usize = i0 + 1;
        let mut cur: Vec<usize> = Vec::new();
        proof {
            assert(a@.take(i as int).len() == i);
            assert(b@.take(0).len() == 0);
        }
        cur.push(i);
        let mut j0i: usize = 0;
        while j0i < n
            invariant
                0 <= j0i <= n,
                i == i0 + 1,
                0 <= i0 < m,
                m == a@.len(),
                n == b@.len(),
                prev@.len() == n + 1,
                forall|k: int| 0 <= k <= n ==> prev@[k] == lev(a@.take(i - 1), b@.take(k)),
                cur@.len() == j0i + 1,
                forall|k: int| 0 <= k <= j0i ==> cur@[k] == lev(a@.take(i as int), b@.take(k)),
            decreases n - j0i,
        {
            let j: usize = j0i + 1;
            let cost: usize = if a[i - 1] == b[j - 1] {
                0
            } else {
                1
            };
            proof {
                lemma_lev_le_max(a@.take(i - 1), b@.take(j - 1));
                lemma_lev_le_max(a@.take(i - 1), b@.take(j as int));
                lemma_lev_le_max(a@.take(i as int), b@.take(j - 1));
            }
            let c1: usize = prev[j - 1] + cost;
            let mut best: usize = c1;
            if prev[j] < best {
                best = prev[j] + 1;
            }
            if cur[j - 1] < best {
                best = cur[j - 1] + 1;
            }
            proof {
                let ta = a@.take(i as int);
                let tb = b@.take(j as int);
                assert(ta.drop_last() =~= a@.take(i - 1));
                assert(tb.drop_last() =~= b@.take(j - 1));
                assert(ta.last() == a@[i - 1]);
                assert(tb.last() == b@[j - 1]);
                assert(lev(ta, tb) == min2(
                    min2(
                        lev(a@.take(i - 1), b@.take(j - 1)) + (cost as nat),
                        lev(a@.take(i - 1), tb) + 1,
                    ),
                    lev(ta, b@.take(j - 1)) + 1,
                ));
            }
            cur.push(best);
            j0i = j0i + 1;
        }
        prev = cur;
        i0 = i0 + 1;
    }
    proof {
        assert(a@.take(m as int) =~= a@);
        assert(b@.take(n as int) =~= b@);
    }
    prev[n]
}

/// Levenshtein distance between two strings.
pub fn levenshtein(a: &str, b: &str) -> (r: usize)
    ensures
        r == lev(a@, b@),
{
    let av = chars_vec(a);
    let bv = chars_vec(b);
    lev_chars(&av, &bv)
}

} // verus!
