//! The order of the keys. Everything the tree needs from `Ord` is gathered
//! here: a strict order `lt`, the laws it obeys, and a three-way comparison.
use core::cmp::Ordering;
use vstd::laws_cmp::obeys_cmp;
use vstd::laws_cmp::obeys_cmp_ord;
use vstd::laws_cmp::obeys_cmp_partial_ord;
use vstd::laws_cmp::obeys_partial_cmp_spec_properties;
use vstd::laws_eq::obeys_concrete_eq;
use vstd::laws_eq::obeys_eq_spec_properties;
use vstd::prelude::*;
use vstd::std_specs::cmp::OrdSpec;
use vstd::std_specs::cmp::PartialEqSpec;
use vstd::std_specs::cmp::PartialOrdSpec;

verus! {

/// The comparison of `K` is a lawful total order in which two keys compare
/// equal exactly when they are the same key.
pub open spec fn total_order<K: Ord>() -> bool {
    obeys_cmp::<K>() && obeys_concrete_eq::<K>()
}

/// `a` comes strictly before `b`.
pub open spec fn lt<K: Ord>(a: K, b: K) -> bool {
    a.cmp_spec(&b) == Ordering::Less
}

/// How one key stands to another.
#[derive(PartialEq, Eq, Structural)]
pub enum Side {
    Before,
    Same,
    After,
}

/// Where `a` stands with respect to `b`.
pub open spec fn side<K: Ord>(a: K, b: K) -> Side {
    if lt(a, b) {
        Side::Before
    } else if a == b {
        Side::Same
    } else {
        Side::After
    }
}

/// No key comes before itself.
pub proof fn lemma_lt_irreflexive<K: Ord>(a: K)
    requires
        total_order::<K>(),
    ensures
        !lt(a, a),
{
    reveal(obeys_cmp_ord);
    reveal(obeys_cmp_partial_ord);
    reveal(obeys_concrete_eq);
    reveal(obeys_partial_cmp_spec_properties);
    reveal(obeys_eq_spec_properties);
    assert(a.eq_spec(&a));
    assert(a.partial_cmp_spec(&a) == Some(Ordering::Equal));
    assert(a.partial_cmp_spec(&a) == Some(a.cmp_spec(&a)));
}

/// Before is transitive.
pub proof fn lemma_lt_transitive<K: Ord>(a: K, b: K, c: K)
    requires
        total_order::<K>(),
        lt(a, b),
        lt(b, c),
    ensures
        lt(a, c),
{
    reveal(obeys_cmp_ord);
    reveal(obeys_cmp_partial_ord);
    reveal(obeys_concrete_eq);
    reveal(obeys_partial_cmp_spec_properties);
    assert(a.partial_cmp_spec(&b) == Some(a.cmp_spec(&b)));
    assert(b.partial_cmp_spec(&c) == Some(b.cmp_spec(&c)));
    assert(a.partial_cmp_spec(&c) == Some(a.cmp_spec(&c)));
}

proof fn lemma_outcomes<K: Ord>(a: K, b: K)
    requires
        total_order::<K>(),
    ensures
        K::obeys_cmp_spec(),
        a.cmp_spec(&b) == Ordering::Equal <==> a == b,
        a.cmp_spec(&b) == Ordering::Greater <==> lt(b, a),
{
    reveal(obeys_cmp_ord);
    reveal(obeys_cmp_partial_ord);
    reveal(obeys_concrete_eq);
    reveal(obeys_partial_cmp_spec_properties);
    assert(a.partial_cmp_spec(&b) == Some(a.cmp_spec(&b)));
    assert(b.partial_cmp_spec(&a) == Some(b.cmp_spec(&a)));
}

/// Of two keys exactly one holds: the first comes before, they are the same
/// key, or the second comes before.
pub proof fn lemma_lt_total<K: Ord>(a: K, b: K)
    requires
        total_order::<K>(),
    ensures
        lt(a, b) || a == b || lt(b, a),
        !(lt(a, b) && lt(b, a)),
        !(lt(a, b) && a == b),
        !(lt(b, a) && a == b),
{
    lemma_outcomes(a, b);
    lemma_lt_irreflexive(a);
    if lt(a, b) && lt(b, a) {
        lemma_lt_transitive(a, b, a);
    }
}

/// The integers are keys: their comparison is a total order, and before
/// means smaller.
pub proof fn law_integer_keys()
    ensures
        total_order::<u8>(),
        total_order::<u16>(),
        total_order::<u32>(),
        total_order::<u64>(),
        total_order::<u128>(),
        total_order::<usize>(),
        total_order::<i8>(),
        total_order::<i16>(),
        total_order::<i32>(),
        total_order::<i64>(),
        total_order::<i128>(),
        total_order::<isize>(),
        forall|a: u8, b: u8| #[trigger] lt(a, b) <==> a < b,
        forall|a: u16, b: u16| #[trigger] lt(a, b) <==> a < b,
        forall|a: u32, b: u32| #[trigger] lt(a, b) <==> a < b,
        forall|a: u64, b: u64| #[trigger] lt(a, b) <==> a < b,
        forall|a: u128, b: u128| #[trigger] lt(a, b) <==> a < b,
        forall|a: usize, b: usize| #[trigger] lt(a, b) <==> a < b,
        forall|a: i8, b: i8| #[trigger] lt(a, b) <==> a < b,
        forall|a: i16, b: i16| #[trigger] lt(a, b) <==> a < b,
        forall|a: i32, b: i32| #[trigger] lt(a, b) <==> a < b,
        forall|a: i64, b: i64| #[trigger] lt(a, b) <==> a < b,
        forall|a: i128, b: i128| #[trigger] lt(a, b) <==> a < b,
        forall|a: isize, b: isize| #[trigger] lt(a, b) <==> a < b,
{
    broadcast use vstd::laws_cmp::group_laws_cmp;
    broadcast use vstd::laws_eq::group_laws_eq;

}

/// Compares two keys.
pub fn compare<K: Ord>(a: &K, b: &K) -> (r: Side)
    requires
        total_order::<K>(),
    ensures
        r == side(*a, *b),
        r == Side::After ==> lt(*b, *a),
{
    proof {
        lemma_lt_total(*a, *b);
        lemma_outcomes(*a, *b);
    }
    match a.cmp(b) {
        Ordering::Less => Side::Before,
        Ordering::Equal => Side::Same,
        Ordering::Greater => Side::After,
    }
}

} // verus!
