//! Enumeration of the non-empty subsets of a set of positions.
//!
//! A subset is written as the strictly increasing sequence of its members,
//! so that two subsets are equal exactly when their sequences are.

use itertools::Itertools;
use vstd::prelude::*;

verus! {

/// `s` is strictly increasing.
pub open spec fn increasing(s: Seq<usize>) -> bool {
    forall|i: int, j: int| 0 <= i < j < s.len() ==> s[i] < s[j]
}

/// Every element of `t` occurs in `pool`.
pub open spec fn drawn_from(t: Seq<usize>, pool: Seq<usize>) -> bool {
    forall|i: int| 0 <= i < t.len() ==> pool.contains(#[trigger] t[i])
}

/// `t` chooses `k` members of `pool`, in increasing order.
pub open spec fn is_choice(t: Seq<usize>, pool: Seq<usize>, k: nat) -> bool {
    t.len() == k && increasing(t) && drawn_from(t, pool)
}

/// `t` chooses at least one member of `pool`, in increasing order.
pub open spec fn is_pattern(t: Seq<usize>, pool: Seq<usize>) -> bool {
    t.len() > 0 && increasing(t) && drawn_from(t, pool)
}

/// `a` comes before `b` in lexicographic order.
pub open spec fn lex_less(a: Seq<usize>, b: Seq<usize>) -> bool {
    exists|p: int|
        0 <= p < a.len() && p < b.len() && #[trigger] a.subrange(0, p) == b.subrange(0, p) && a[p]
            < b[p]
}

/// `a` comes before `b` where choices are listed by size, and those of one
/// size in lexicographic order.
pub open spec fn comes_before(a: Seq<usize>, b: Seq<usize>) -> bool {
    a.len() < b.len() || (a.len() == b.len() && lex_less(a, b))
}

/// `family` lists its choices by size, and those of one size in
/// lexicographic order.
pub open spec fn by_size(family: Seq<Seq<usize>>) -> bool {
    forall|i: int, j: int|
        0 <= i < j < family.len() ==> comes_before(#[trigger] family[i], #[trigger] family[j])
}

/// The rows of a vector of vectors, as sequences.
pub open spec fn rows(v: Seq<Vec<usize>>) -> Seq<Seq<usize>> {
    Seq::new(v.len(), |i: int| v[i]@)
}

/// `family` lists every non-empty choice from `pool` exactly once.
pub open spec fn lists_patterns(family: Seq<Seq<usize>>, pool: Seq<usize>) -> bool {
    &&& forall|i: int| 0 <= i < family.len() ==> is_pattern(#[trigger] family[i], pool)
    &&& forall|t: Seq<usize>| #[trigger]
        is_pattern(t, pool) ==> exists|i: int| 0 <= i < family.len() && #[trigger] family[i] == t
    &&& forall|i: int, j: int|
        0 <= i < j < family.len() ==> #[trigger] family[i] != #[trigger] family[j]
}

/// Calls `Itertools::combinations` on the elements of `pool`.
///
/// Trusted. The adaptor yields the `k`-element selections of positions of
/// its input, each in increasing order of position, the selections
/// themselves in lexicographic order of their positions, each once. On a
/// strictly increasing pool a selection by position is a strictly increasing
/// sequence of members of the pool, and lexicographic order of positions is
/// lexicographic order of values, which is what the contract states. The
/// pool is kept so small that the number of its selections fits a `usize`.
#[verifier::external_body]
fn combinations(pool: &Vec<usize>, k: usize) -> (r: Vec<Vec<usize>>)
    requires
        increasing(pool@),
        pool.len() < usize::BITS,
    ensures
        forall|i: int| 0 <= i < r.len() ==> is_choice(#[trigger] rows(r@)[i], pool@, k as nat),
        forall|t: Seq<usize>| #[trigger]
            is_choice(t, pool@, k as nat) ==> exists|i: int|
                0 <= i < r.len() && #[trigger] rows(r@)[i] == t,
        forall|i: int, j: int|
            0 <= i < j < r.len() ==> lex_less(#[trigger] rows(r@)[i], #[trigger] rows(r@)[j]),
{
    pool.iter().cloned().combinations(k).collect()
}

/// Of two choices at most one comes before the other.
pub proof fn lemma_comes_before_asymmetric(a: Seq<usize>, b: Seq<usize>)
    ensures
        !(comes_before(a, b) && comes_before(b, a)),
{
    if comes_before(a, b) && comes_before(b, a) {
        let p = choose|p: int|
            0 <= p < a.len() && p < b.len() && #[trigger] a.subrange(0, p) == b.subrange(0, p)
                && a[p] < b[p];
        let q = choose|q: int|
            0 <= q < b.len() && q < a.len() && #[trigger] b.subrange(0, q) == a.subrange(0, q)
                && b[q] < a[q];
        if p < q {
            assert(b.subrange(0, q)[p] == a.subrange(0, q)[p]);
        } else if q < p {
            assert(a.subrange(0, p)[q] == b.subrange(0, p)[q]);
        }
    }
}

/// A strictly increasing sequence drawn from a pool is no longer than the pool.
pub proof fn lemma_choice_fits(t: Seq<usize>, pool: Seq<usize>)
    requires
        increasing(t),
        drawn_from(t, pool),
    ensures
        t.len() <= pool.len(),
{
    assert(t.no_duplicates());
    t.unique_seq_to_set();
    assert(t.to_set().subset_of(pool.to_set())) by {
        assert forall|x: usize| t.to_set().contains(x) implies pool.to_set().contains(x) by {
            let i = choose|i: int| 0 <= i < t.len() && t[i] == x;
            assert(pool.contains(t[i]));
        }
    }
    pool.lemma_cardinality_of_set();
    vstd::set_lib::lemma_len_subset(t.to_set(), pool.to_set());
}

/// Every non-empty subset of `pool`, each exactly once: for each size from
/// one up to the size of the pool, the choices of that size in
/// lexicographic order.
pub(crate) fn nonempty_subsets(pool: &Vec<usize>) -> (r: Vec<Vec<usize>>)
    requires
        increasing(pool@),
        pool.len() < usize::BITS,
    ensures
        lists_patterns(rows(r@), pool@),
        by_size(rows(r@)),
{
    let mut all: Vec<Vec<usize>> = Vec::new();
    let mut count: usize = 0;
    while count < pool.len()
        invariant
            count <= pool.len(),
            increasing(pool@),
            pool.len() < usize::BITS,
            forall|i: int|
                0 <= i < all.len() ==> is_pattern(#[trigger] rows(all@)[i], pool@) && rows(
                    all@,
                )[i].len() <= count,
            forall|t: Seq<usize>| #[trigger]
                is_pattern(t, pool@) && t.len() <= count ==> exists|i: int|
                    0 <= i < all.len() && #[trigger] rows(all@)[i] == t,
            forall|i: int, j: int|
                0 <= i < j < all.len() ==> #[trigger] rows(all@)[i] != #[trigger] rows(all@)[j],
            by_size(rows(all@)),
        decreases pool.len() - count,
    {
        count += 1;
        let mut batch = combinations(pool, count);
        let ghost before = rows(all@);
        let ghost added = rows(batch@);
        all.append(&mut batch);
        proof {
            let after = rows(all@);
            assert(after =~= before + added);
            assert forall|i: int| 0 <= i < after.len() implies is_pattern(
                #[trigger] after[i],
                pool@,
            ) && after[i].len() <= count by {
                if i >= before.len() {
                    assert(is_choice(added[i - before.len()], pool@, count as nat));
                }
            }
            assert forall|t: Seq<usize>| #[trigger]
                is_pattern(t, pool@) && t.len() <= count implies exists|i: int|
                0 <= i < after.len() && #[trigger] after[i] == t by {
                if t.len() < count {
                    let i = choose|i: int| 0 <= i < before.len() && #[trigger] before[i] == t;
                    assert(after[i] == t);
                } else {
                    assert(is_choice(t, pool@, count as nat));
                    let i = choose|i: int| 0 <= i < added.len() && #[trigger] added[i] == t;
                    assert(after[before.len() + i] == t);
                }
            }
            assert forall|i: int, j: int| 0 <= i < j < after.len() implies #[trigger] after[i]
                != #[trigger] after[j] && comes_before(after[i], after[j]) by {
                if j < before.len() {
                    assert(comes_before(before[i], before[j]));
                } else if i >= before.len() {
                    let a = added[i - before.len()];
                    let b = added[j - before.len()];
                    assert(lex_less(a, b));
                    assert(is_choice(a, pool@, count as nat));
                    assert(is_choice(b, pool@, count as nat));
                } else {
                    assert(is_choice(added[j - before.len()], pool@, count as nat));
                }
            }
        }
    }
    proof {
        assert forall|t: Seq<usize>| #[trigger] is_pattern(t, pool@) implies exists|i: int|
            0 <= i < all.len() && #[trigger] rows(all@)[i] == t by {
            lemma_choice_fits(t, pool@);
        }
    }
    all
}

} // verus!
