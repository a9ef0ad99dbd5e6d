//! Slot states and the family of finalize operations.
//!
//! A finalize operation exists for one exact combination of slot states, its
//! key. The relaxed family holds one operation for every key that leaves at
//! least one optional slot empty and fills every other slot.

use crate::subsets::{
    by_size, comes_before, increasing, is_pattern, lemma_comes_before_asymmetric, lists_patterns,
    nonempty_subsets, rows,
};
use vstd::arithmetic::power2::{lemma2_to64, lemma_pow2_unfold, pow2};
use vstd::prelude::*;
use vstd::set_lib::{lemma_map_size, lemma_set_disjoint_lens};

verus! {

/// The state of one slot of a builder.
#[derive(Clone, Copy, Debug, PartialEq, Eq, Structural)]
pub enum Slot {
    /// No value has been supplied.
    Empty,
    /// A value has been supplied.
    Filled,
}

/// One finalize operation, defined on builders whose slots are exactly in
/// the states of its key. Slots that the key leaves empty receive the empty
/// value in the finished record.
#[derive(Clone, Debug, PartialEq, Eq)]
pub struct Finalize {
    pub states: Vec<Slot>,
}

impl View for Finalize {
    type V = Seq<Slot>;

    open spec fn view(&self) -> Seq<Slot> {
        self.states@
    }
}

/// The keys of a family of finalize operations.
pub open spec fn keys(family: Seq<Finalize>) -> Seq<Seq<Slot>> {
    Seq::new(family.len(), |i: int| family[i]@)
}

/// The key that fills every one of `n` slots.
pub open spec fn all_filled(n: nat) -> Seq<Slot> {
    Seq::new(n, |i: int| Slot::Filled)
}

/// `key` has one state per field and leaves only optional fields empty.
pub open spec fn is_key(key: Seq<Slot>, optional: Seq<bool>) -> bool {
    &&& key.len() == optional.len()
    &&& forall|i: int| 0 <= i < key.len() && key[i] == Slot::Empty ==> optional[i]
}

/// `key` is a key that leaves at least one field empty.
pub open spec fn is_relaxed_key(key: Seq<Slot>, optional: Seq<bool>) -> bool {
    is_key(key, optional) && exists|i: int| 0 <= i < key.len() && key[i] == Slot::Empty
}

/// The fields that `key` leaves empty.
pub open spec fn defaulted(key: Seq<Slot>) -> Set<int> {
    Set::new(|i: int| 0 <= i < key.len() && key[i] == Slot::Empty)
}

/// The optional fields.
pub open spec fn optional_set(optional: Seq<bool>) -> Set<int> {
    Set::new(|i: int| 0 <= i < optional.len() && optional[i])
}

/// The number of optional fields.
pub open spec fn optional_count(optional: Seq<bool>) -> nat
    decreases optional.len(),
{
    if optional.len() == 0 {
        0
    } else {
        optional_count(optional.drop_last()) + if optional.last() {
            1nat
        } else {
            0nat
        }
    }
}

/// `family` lists every relaxed key exactly once.
pub open spec fn lists_relaxed_keys(family: Seq<Seq<Slot>>, optional: Seq<bool>) -> bool {
    &&& forall|j: int| 0 <= j < family.len() ==> is_relaxed_key(#[trigger] family[j], optional)
    &&& forall|key: Seq<Slot>| #[trigger]
        is_relaxed_key(key, optional) ==> exists|j: int|
            0 <= j < family.len() && #[trigger] family[j] == key
    &&& forall|i: int, j: int|
        0 <= i < j < family.len() ==> #[trigger] family[i] != #[trigger] family[j]
}

/// `family` lists every key exactly once.
pub open spec fn lists_all_keys(family: Seq<Seq<Slot>>, optional: Seq<bool>) -> bool {
    &&& forall|j: int| 0 <= j < family.len() ==> is_key(#[trigger] family[j], optional)
    &&& forall|key: Seq<Slot>| #[trigger]
        is_key(key, optional) ==> exists|j: int| 0 <= j < family.len() && #[trigger] family[j]
            == key
    &&& forall|i: int, j: int|
        0 <= i < j < family.len() ==> #[trigger] family[i] != #[trigger] family[j]
}

/// The key over `n` slots that leaves exactly the members of `pattern` empty.
pub open spec fn key_of(pattern: Seq<usize>, n: nat) -> Seq<Slot> {
    Seq::new(
        n,
        |i: int|
            if pattern.contains(i as usize) {
                Slot::Empty
            } else {
                Slot::Filled
            },
    )
}

/// The positions that `key` leaves empty, in increasing order.
pub open spec fn unset_positions(key: Seq<Slot>) -> Seq<usize>
    decreases key.len(),
{
    if key.len() == 0 {
        Seq::empty()
    } else if key.last() == Slot::Empty {
        unset_positions(key.drop_last()).push((key.len() - 1) as usize)
    } else {
        unset_positions(key.drop_last())
    }
}

/// `family` lists its keys by the number of slots that they leave empty, and
/// those with the same number in lexicographic order of the positions that
/// they leave empty.
pub open spec fn keys_by_size(family: Seq<Seq<Slot>>) -> bool {
    forall|i: int, j: int|
        0 <= i < j < family.len() ==> comes_before(
            unset_positions(#[trigger] family[i]),
            unset_positions(#[trigger] family[j]),
        )
}

/// The set of all keys.
pub open spec fn valid_keys(optional: Seq<bool>) -> Set<Seq<Slot>> {
    Set::new(|key: Seq<Slot>| is_key(key, optional))
}

proof fn lemma_unset_positions(key: Seq<Slot>)
    requires
        key.len() <= usize::MAX,
    ensures
        increasing(unset_positions(key)),
        forall|x: usize| #[trigger]
            unset_positions(key).contains(x) <==> (x < key.len() && key[x as int] == Slot::Empty),
    decreases key.len(),
{
    if key.len() > 0 {
        let rest = key.drop_last();
        lemma_unset_positions(rest);
        let r = unset_positions(rest);
        let last = (key.len() - 1) as usize;
        assert forall|i: int| 0 <= i < r.len() implies r[i] < last by {
            assert(r.contains(r[i]));
        }
        if key.last() == Slot::Empty {
            let t = r.push(last);
            assert forall|x: usize| t.contains(x) <==> (x < key.len() && key[x as int]
                == Slot::Empty) by {
                if t.contains(x) {
                    let i = choose|i: int| 0 <= i < t.len() && t[i] == x;
                    if i < r.len() {
                        assert(r.contains(r[i]));
                        assert(rest[x as int] == key[x as int]);
                    }
                }
                if x < key.len() && key[x as int] == Slot::Empty {
                    if x == last {
                        assert(t[r.len() as int] == x);
                    } else {
                        assert(rest[x as int] == key[x as int]);
                        assert(r.contains(x));
                        let i = choose|i: int| 0 <= i < r.len() && r[i] == x;
                        assert(t[i] == x);
                    }
                }
            }
        } else {
            assert forall|x: usize| r.contains(x) <==> (x < key.len() && key[x as int]
                == Slot::Empty) by {
                if x < rest.len() {
                    assert(rest[x as int] == key[x as int]);
                }
            }
        }
    }
}

/// Two strictly increasing sequences with the same members are equal.
proof fn lemma_same_members(a: Seq<usize>, b: Seq<usize>)
    requires
        increasing(a),
        increasing(b),
        forall|x: usize|
            #![trigger a.contains(x)]
            #![trigger b.contains(x)]
            a.contains(x) <==> b.contains(x),
    ensures
        a == b,
    decreases a.len(),
{
    if a.len() == 0 {
        if b.len() > 0 {
            assert(b.contains(b[0]));
        }
        assert(a =~= b);
    } else {
        assert(a.contains(a.last()));
        let j = choose|j: int| 0 <= j < b.len() && b[j] == a.last();
        assert(b.contains(b.last()));
        let i = choose|i: int| 0 <= i < a.len() && a[i] == b.last();
        assert(a.last() == b.last());
        let a0 = a.drop_last();
        let b0 = b.drop_last();
        assert forall|x: usize|
            #![trigger a0.contains(x)]
            #![trigger b0.contains(x)]
            a0.contains(x) <==> b0.contains(x) by {
            if a0.contains(x) {
                let p = choose|p: int| 0 <= p < a0.len() && a0[p] == x;
                assert(a[p] == x);
                assert(a.contains(x));
                let q = choose|q: int| 0 <= q < b.len() && b[q] == x;
                assert(q < b.len() - 1);
                assert(b0[q] == x);
            }
            if b0.contains(x) {
                let p = choose|p: int| 0 <= p < b0.len() && b0[p] == x;
                assert(b[p] == x);
                assert(b.contains(x));
                let q = choose|q: int| 0 <= q < a.len() && a[q] == x;
                assert(q < a.len() - 1);
                assert(a0[q] == x);
            }
        }
        lemma_same_members(a0, b0);
        assert(a =~= a0.push(a.last()));
        assert(b =~= b0.push(b.last()));
    }
}

/// The key of a pattern leaves exactly the positions of the pattern empty.
proof fn lemma_key_of_pattern(pattern: Seq<usize>, n: nat)
    requires
        n <= usize::MAX,
        increasing(pattern),
        forall|i: int| 0 <= i < pattern.len() ==> #[trigger] pattern[i] < n,
    ensures
        unset_positions(key_of(pattern, n)) == pattern,
{
    let key = key_of(pattern, n);
    lemma_unset_positions(key);
    let found = unset_positions(key);
    assert forall|x: usize|
        #![trigger found.contains(x)]
        #![trigger pattern.contains(x)]
        found.contains(x) <==> pattern.contains(x) by {
        if pattern.contains(x) {
            let at = choose|at: int| 0 <= at < pattern.len() && pattern[at] == x;
            assert(pattern[at] < n);
            assert(key[x as int] == Slot::Empty);
        }
    }
    lemma_same_members(found, pattern);
}

/// The keys of the patterns over the optional positions are the relaxed keys.
proof fn lemma_patterns_give_relaxed_keys(
    patterns: Seq<Seq<usize>>,
    pool: Seq<usize>,
    optional: Seq<bool>,
    family: Seq<Seq<Slot>>,
)
    requires
        optional.len() <= usize::MAX,
        lists_patterns(patterns, pool),
        forall|x: usize| #[trigger]
            pool.contains(x) <==> (x < optional.len() && optional[x as int]),
        family.len() == patterns.len(),
        forall|j: int|
            0 <= j < family.len() ==> #[trigger] family[j] == key_of(patterns[j], optional.len()),
    ensures
        lists_relaxed_keys(family, optional),
        by_size(patterns) ==> keys_by_size(family),
{
    let n = optional.len();
    assert forall|j: int| 0 <= j < family.len() implies unset_positions(#[trigger] family[j])
        == patterns[j] by {
        let p = patterns[j];
        assert(is_pattern(p, pool));
        assert forall|i: int| 0 <= i < p.len() implies #[trigger] p[i] < n by {
            assert(pool.contains(p[i]));
        }
        lemma_key_of_pattern(p, n);
    }
    if by_size(patterns) {
        assert forall|i: int, j: int| 0 <= i < j < family.len() implies comes_before(
            unset_positions(#[trigger] family[i]),
            unset_positions(#[trigger] family[j]),
        ) by {
            assert(comes_before(patterns[i], patterns[j]));
        }
    }
    assert forall|j: int| 0 <= j < family.len() implies is_relaxed_key(
        #[trigger] family[j],
        optional,
    ) by {
        let p = patterns[j];
        assert(is_pattern(p, pool));
        assert forall|i: int| 0 <= i < n && family[j][i] == Slot::Empty implies optional[i] by {
            let at = choose|at: int| 0 <= at < p.len() && p[at] == i as usize;
            assert(pool.contains(p[at]));
        }
        assert(pool.contains(p[0]));
        assert(p.contains(p[0]));
        assert(family[j][p[0] as int] == Slot::Empty);
    }
    assert forall|key: Seq<Slot>| #[trigger] is_relaxed_key(key, optional) implies exists|j: int|
        0 <= j < family.len() && #[trigger] family[j] == key by {
        lemma_unset_positions(key);
        let t = unset_positions(key);
        let w = choose|w: int| 0 <= w < key.len() && key[w] == Slot::Empty;
        assert(t.contains(w as usize));
        assert forall|i: int| 0 <= i < t.len() implies pool.contains(#[trigger] t[i]) by {
            assert(t.contains(t[i]));
        }
        assert(is_pattern(t, pool));
        let j = choose|j: int| 0 <= j < patterns.len() && #[trigger] patterns[j] == t;
        assert(family[j] =~= key);
    }
    assert forall|i: int, j: int| 0 <= i < j < family.len() implies #[trigger] family[i]
        != #[trigger] family[j] by {
        if family[i] == family[j] {
            let a = patterns[i];
            let b = patterns[j];
            assert(is_pattern(a, pool) && is_pattern(b, pool));
            assert forall|x: usize|
                #![trigger a.contains(x)]
                #![trigger b.contains(x)]
                a.contains(x) <==> b.contains(x) by {
                if a.contains(x) {
                    let at = choose|at: int| 0 <= at < a.len() && a[at] == x;
                    assert(pool.contains(a[at]));
                    assert(family[i][x as int] == Slot::Empty);
                    assert(family[j][x as int] == Slot::Empty);
                }
                if b.contains(x) {
                    let at = choose|at: int| 0 <= at < b.len() && b[at] == x;
                    assert(pool.contains(b[at]));
                    assert(family[j][x as int] == Slot::Empty);
                    assert(family[i][x as int] == Slot::Empty);
                }
            }
            lemma_same_members(a, b);
        }
    }
}

/// Two families that hold the same keys, each listed by size, are the same
/// family.
pub proof fn lemma_family_unique(one: Seq<Seq<Slot>>, other: Seq<Seq<Slot>>)
    requires
        keys_by_size(one),
        keys_by_size(other),
        forall|key: Seq<Slot>|
            #![trigger one.contains(key)]
            #![trigger other.contains(key)]
            one.contains(key) <==> other.contains(key),
    ensures
        one == other,
    decreases one.len(),
{
    if one.len() == 0 {
        if other.len() > 0 {
            assert(other.contains(other[0]));
        }
        assert(one =~= other);
    } else {
        assert(one.contains(one.last()));
        let j = choose|j: int| 0 <= j < other.len() && other[j] == one.last();
        assert(other.contains(other.last()));
        let i = choose|i: int| 0 <= i < one.len() && one[i] == other.last();
        lemma_comes_before_asymmetric(
            unset_positions(one.last()),
            unset_positions(other.last()),
        );
        assert(one.last() == other.last()) by {
            if j < other.len() - 1 && i < one.len() - 1 {
                assert(comes_before(unset_positions(other[j]), unset_positions(other.last())));
                assert(comes_before(unset_positions(one[i]), unset_positions(one.last())));
            }
        }
        let head = one.drop_last();
        let tail = other.drop_last();
        lemma_comes_before_asymmetric(unset_positions(one.last()), unset_positions(one.last()));
        assert forall|key: Seq<Slot>|
            #![trigger head.contains(key)]
            #![trigger tail.contains(key)]
            head.contains(key) <==> tail.contains(key) by {
            if head.contains(key) {
                let p = choose|p: int| 0 <= p < head.len() && head[p] == key;
                assert(one[p] == key);
                assert(one.contains(key));
                let q = choose|q: int| 0 <= q < other.len() && other[q] == key;
                if q == other.len() - 1 {
                    assert(comes_before(unset_positions(one[p]), unset_positions(one.last())));
                }
                assert(tail[q] == key);
            }
            if tail.contains(key) {
                let p = choose|p: int| 0 <= p < tail.len() && tail[p] == key;
                assert(other[p] == key);
                assert(other.contains(key));
                let q = choose|q: int| 0 <= q < one.len() && one[q] == key;
                if q == one.len() - 1 {
                    assert(comes_before(
                        unset_positions(other[p]),
                        unset_positions(other.last()),
                    ));
                }
                assert(head[q] == key);
            }
        }
        assert(keys_by_size(head)) by {
            assert forall|a: int, b: int| 0 <= a < b < head.len() implies comes_before(
                unset_positions(#[trigger] head[a]),
                unset_positions(#[trigger] head[b]),
            ) by {
                assert(comes_before(unset_positions(one[a]), unset_positions(one[b])));
            }
        }
        assert(keys_by_size(tail)) by {
            assert forall|a: int, b: int| 0 <= a < b < tail.len() implies comes_before(
                unset_positions(#[trigger] tail[a]),
                unset_positions(#[trigger] tail[b]),
            ) by {
                assert(comes_before(unset_positions(other[a]), unset_positions(other[b])));
            }
        }
        lemma_family_unique(head, tail);
        assert(one =~= head.push(one.last()));
        assert(other =~= tail.push(other.last()));
    }
}

/// There are two to the power of the number of optional fields keys.
pub proof fn lemma_count_keys(optional: Seq<bool>)
    ensures
        valid_keys(optional).finite(),
        valid_keys(optional).len() == pow2(optional_count(optional)),
    decreases optional.len(),
{
    lemma2_to64();
    if optional.len() == 0 {
        let empty = Seq::<Slot>::empty();
        assert(valid_keys(optional) =~= set![empty]) by {
            assert forall|key: Seq<Slot>| valid_keys(optional).contains(key) implies key
                == empty by {
                assert(key =~= empty);
            }
            assert(is_key(empty, optional));
        }
    } else {
        let shorter = optional.drop_last();
        lemma_count_keys(shorter);
        let base = valid_keys(shorter);
        let fill = |key: Seq<Slot>| key.push(Slot::Filled);
        let skip = |key: Seq<Slot>| key.push(Slot::Empty);
        assert(vstd::relations::injective_on(fill, base)) by {
            assert forall|x: Seq<Slot>, y: Seq<Slot>|
                base.contains(x) && base.contains(y) && #[trigger] fill(x) == #[trigger] fill(
                    y,
                ) implies x == y by {
                assert(x =~= fill(x).drop_last());
                assert(y =~= fill(y).drop_last());
            }
        }
        assert(vstd::relations::injective_on(skip, base)) by {
            assert forall|x: Seq<Slot>, y: Seq<Slot>|
                base.contains(x) && base.contains(y) && #[trigger] skip(x) == #[trigger] skip(
                    y,
                ) implies x == y by {
                assert(x =~= skip(x).drop_last());
                assert(y =~= skip(y).drop_last());
            }
        }
        let filled = base.map(fill);
        let skipped = base.map(skip);
        lemma_map_size(base, filled, fill);
        lemma_map_size(base, skipped, skip);
        assert forall|key: Seq<Slot>| #[trigger] is_key(key, optional) implies is_key(
            key.drop_last(),
            shorter,
        ) && key == key.drop_last().push(key.last()) by {
            assert(key =~= key.drop_last().push(key.last()));
        }
        assert forall|key: Seq<Slot>| filled.contains(key) implies is_key(key, optional)
            && key.last() == Slot::Filled by {
            let from = choose|from: Seq<Slot>| base.contains(from) && key == fill(from);
            assert(is_key(from, shorter));
        }
        assert forall|key: Seq<Slot>| skipped.contains(key) implies key.len() == optional.len()
            && key.last() == Slot::Empty && (optional.last() ==> is_key(key, optional)) by {
            let from = choose|from: Seq<Slot>| base.contains(from) && key == skip(from);
            assert(is_key(from, shorter));
        }
        assert(filled.disjoint(skipped)) by {
            assert forall|key: Seq<Slot>| !(filled.contains(key) && skipped.contains(key)) by {
                if filled.contains(key) && skipped.contains(key) {
                    assert(key.last() == Slot::Filled);
                    assert(key.last() == Slot::Empty);
                }
            }
        }
        lemma_set_disjoint_lens(filled, skipped);
        assert(optional =~= shorter.push(optional.last()));
        if optional.last() {
            assert(valid_keys(optional) =~= filled + skipped) by {
                assert forall|key: Seq<Slot>| valid_keys(optional).contains(key) implies (filled
                    + skipped).contains(key) by {
                    let from = key.drop_last();
                    assert(base.contains(from));
                    if key.last() == Slot::Filled {
                        assert(key == fill(from));
                    } else {
                        assert(key == skip(from));
                    }
                }
            }
            lemma_pow2_unfold(optional_count(optional));
        } else {
            assert(valid_keys(optional) =~= filled) by {
                assert forall|key: Seq<Slot>| valid_keys(optional).contains(key) implies filled.contains(
                    key,
                ) by {
                    let from = key.drop_last();
                    assert(base.contains(from));
                    assert(key == fill(from));
                }
            }
        }
    }
}

/// A family that lists every key exactly once has two to the power of the
/// number of optional fields members.
pub proof fn lemma_family_size(family: Seq<Seq<Slot>>, optional: Seq<bool>)
    requires
        lists_all_keys(family, optional),
    ensures
        family.len() == pow2(optional_count(optional)),
{
    lemma_count_keys(optional);
    assert(family.no_duplicates());
    family.unique_seq_to_set();
    assert(family.to_set() =~= valid_keys(optional)) by {
        assert forall|key: Seq<Slot>| valid_keys(optional).contains(key) implies family.to_set().contains(
            key,
        ) by {
            let j = choose|j: int| 0 <= j < family.len() && #[trigger] family[j] == key;
            assert(family.contains(family[j]));
        }
        assert forall|key: Seq<Slot>| family.to_set().contains(key) implies valid_keys(
            optional,
        ).contains(key) by {
            let j = choose|j: int| 0 <= j < family.len() && family[j] == key;
            assert(is_key(family[j], optional));
        }
    }
}

/// Whether `x` occurs in `v`.
fn member(v: &Vec<usize>, x: usize) -> (found: bool)
    ensures
        found == v@.contains(x),
{
    let mut i: usize = 0;
    while i < v.len()
        invariant
            i <= v.len(),
            forall|j: int| 0 <= j < i ==> v[j] != x,
        decreases v.len() - i,
    {
        if v[i] == x {
            return true;
        }
        i += 1;
    }
    false
}

/// The positions of the optional fields, in increasing order.
pub fn optional_positions(optional: &Vec<bool>) -> (r: Vec<usize>)
    ensures
        increasing(r@),
        forall|x: usize| #[trigger] r@.contains(x) <==> (x < optional.len() && optional[x as int]),
        r.len() == optional_count(optional@),
{
    let mut out: Vec<usize> = Vec::new();
    let mut i: usize = 0;
    assert(optional@.take(0) =~= Seq::empty());
    while i < optional.len()
        invariant
            i <= optional.len(),
            increasing(out@),
            forall|x: usize| #[trigger] out@.contains(x) <==> (x < i && optional[x as int]),
            out.len() == optional_count(optional@.take(i as int)),
        decreases optional.len() - i,
    {
        proof {
            let longer = optional@.take(i as int + 1);
            assert(longer.drop_last() =~= optional@.take(i as int));
            assert(longer.last() == optional[i as int]);
        }
        if optional[i] {
            let ghost before = out@;
            out.push(i);
            proof {
                assert forall|p: int, q: int| 0 <= p < q < out.len() implies out[p] < out[q] by {
                    assert(before.contains(before[p]));
                }
                assert forall|x: usize| out@.contains(x) <==> (x < i + 1 && optional[x as int]) by {
                    if out@.contains(x) {
                        let at = choose|at: int| 0 <= at < out.len() && out[at] == x;
                        if at < before.len() {
                            assert(before.contains(before[at]));
                        }
                    }
                    if x < i + 1 && optional[x as int] {
                        if x == i {
                            assert(out[before.len() as int] == x);
                        } else {
                            assert(before.contains(x));
                            let at = choose|at: int| 0 <= at < before.len() && before[at] == x;
                            assert(out[at] == x);
                        }
                    }
                }
            }
        }
        i += 1;
    }
    assert(optional@.take(i as int) =~= optional@);
    out
}

/// The key over `n` slots that leaves exactly the members of `pattern` empty.
fn key_for(pattern: &Vec<usize>, n: usize) -> (r: Vec<Slot>)
    ensures
        r@ == key_of(pattern@, n as nat),
{
    let mut out: Vec<Slot> = Vec::new();
    let mut i: usize = 0;
    while i < n
        invariant
            i <= n,
            out@ == key_of(pattern@, i as nat),
        decreases n - i,
    {
        if member(pattern, i) {
            out.push(Slot::Empty);
        } else {
            out.push(Slot::Filled);
        }
        i += 1;
        assert(out@ =~= key_of(pattern@, i as nat));
    }
    out
}

/// The relaxed finalize family: one operation for every non-empty subset of
/// the optional fields, which it leaves empty while every other field is
/// filled. `optional` says of each field, in declaration order, whether it
/// is optional. The operations that leave fewer fields empty come first.
/// There must be fewer optional fields than a `usize` has bits, so that the
/// operations can be counted.
pub fn generate_option_impls(optional: &Vec<bool>) -> (r: Vec<Finalize>)
    requires
        optional_count(optional@) < usize::BITS,
    ensures
        lists_relaxed_keys(keys(r@), optional@),
        keys_by_size(keys(r@)),
{
    let pool = optional_positions(optional);
    let patterns = nonempty_subsets(&pool);
    let n = optional.len();
    let mut family: Vec<Finalize> = Vec::new();
    let mut j: usize = 0;
    while j < patterns.len()
        invariant
            j <= patterns.len(),
            family.len() == j,
            forall|i: int|
                0 <= i < j ==> #[trigger] keys(family@)[i] == key_of(rows(patterns@)[i], n as nat),
        decreases patterns.len() - j,
    {
        let states = key_for(&patterns[j], n);
        let ghost before = keys(family@);
        family.push(Finalize { states });
        j += 1;
        proof {
            let after = keys(family@);
            assert(rows(patterns@)[j - 1] == patterns[j - 1]@);
            assert(after[j - 1] == family[j - 1]@);
            assert forall|i: int| 0 <= i < j - 1 implies #[trigger] after[i] == before[i] by {
                assert(after[i] == family[i]@);
            }
        }
    }
    proof {
        lemma_patterns_give_relaxed_keys(rows(patterns@), pool@, optional@, keys(family@));
    }
    family
}

} // verus!
