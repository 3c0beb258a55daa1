//! The order on keys, and ascending sequences of keys.
//!
//! A tree stores keys of any type `T: Ord`. Everything proved about it rests on
//! the comparison of `T` being a total order, which [`total_order`] states. Two
//! keys that compare as equal are equivalent ([`equiv`]); they need not be the
//! same value.

use vstd::prelude::*;
use vstd::laws_cmp::obeys_cmp;
use vstd::std_specs::cmp::{OrdSpec, PartialOrdSpec};
use core::cmp::Ordering;

verus! {

/// The comparison of `T` is a lawful total order, and `cmp` returns what
/// `cmp_spec` says of it.
pub open spec fn total_order<T: Ord>() -> bool {
    obeys_cmp::<T>()
}

/// `a` compares as less than `b`.
pub open spec fn lt<T: Ord>(a: T, b: T) -> bool {
    a.cmp_spec(&b) == Ordering::Less
}

/// `a` and `b` compare as equal.
pub open spec fn equiv<T: Ord>(a: T, b: T) -> bool {
    a.cmp_spec(&b) == Ordering::Equal
}

/// Every element of `s` is less than `v`.
pub open spec fn all_below<T: Ord>(s: Seq<T>, v: T) -> bool {
    forall|i: int| 0 <= i < s.len() ==> lt(#[trigger] s[i], v)
}

/// `v` is less than every element of `s`.
pub open spec fn all_above<T: Ord>(s: Seq<T>, v: T) -> bool {
    forall|i: int| 0 <= i < s.len() ==> lt(v, #[trigger] s[i])
}

/// Each element of `s` is less than every later one.
pub open spec fn strictly_ascending<T: Ord>(s: Seq<T>) -> bool {
    forall|i: int, j: int| 0 <= i < j < s.len() ==> lt(#[trigger] s[i], #[trigger] s[j])
}

/// Some element of `s` is equivalent to `v`.
pub open spec fn holds<T: Ord>(s: Seq<T>, v: T) -> bool {
    exists|i: int| 0 <= i < s.len() && equiv(#[trigger] s[i], v)
}

/// The number of elements of `s` that are less than `v`. In an ascending
/// sequence this is the position at which `v` belongs.
pub open spec fn rank<T: Ord>(s: Seq<T>, v: T) -> nat
    decreases s.len(),
{
    if s.len() == 0 {
        0
    } else if lt(s.last(), v) {
        rank(s.drop_last(), v) + 1
    } else {
        rank(s.drop_last(), v)
    }
}

/// `s` with `v` put where it belongs, unless an equivalent element is there already.
pub open spec fn with_key<T: Ord>(s: Seq<T>, v: T) -> Seq<T> {
    if holds(s, v) {
        s
    } else {
        s.insert(rank(s, v) as int, v)
    }
}

/// `s` after its elements were put into it one by one, first to last.
pub open spec fn with_keys<T: Ord>(s: Seq<T>, vs: Seq<T>) -> Seq<T>
    decreases vs.len(),
{
    if vs.len() == 0 {
        s
    } else {
        with_key(with_keys(s, vs.drop_last()), vs.last())
    }
}

/// Of two keys exactly one holds: the first is less, they are equivalent, or
/// the second is less. Equivalence is symmetric.
pub proof fn lemma_trichotomy<T: Ord>(a: T, b: T)
    requires
        total_order::<T>(),
    ensures
        lt(a, b) || equiv(a, b) || lt(b, a),
        !(lt(a, b) && equiv(a, b)),
        !(lt(a, b) && lt(b, a)),
        !(equiv(a, b) && lt(b, a)),
        equiv(a, b) == equiv(b, a),
{
    reveal(vstd::laws_cmp::obeys_partial_cmp_spec_properties);
    reveal(vstd::laws_cmp::obeys_cmp_partial_ord);
    reveal(vstd::laws_cmp::obeys_cmp_ord);
    reveal(vstd::laws_eq::obeys_eq_spec_properties);
    let _ = a.partial_cmp_spec(&b);
    let _ = b.partial_cmp_spec(&a);
}

/// What a comparison of two keys returns: `Less` where the first is less,
/// `Equal` where they are equivalent, `Greater` where the second is less.
pub proof fn lemma_comparison<T: Ord>(a: T, b: T)
    requires
        total_order::<T>(),
    ensures
        T::obeys_cmp_spec(),
        a.cmp_spec(&b) == Ordering::Less <==> lt(a, b),
        a.cmp_spec(&b) == Ordering::Equal <==> equiv(a, b),
        a.cmp_spec(&b) == Ordering::Greater <==> lt(b, a),
{
    reveal(vstd::laws_cmp::obeys_cmp_ord);
    lemma_trichotomy(a, b);
}

/// Less-than is transitive.
pub proof fn lemma_lt_transitive<T: Ord>(a: T, b: T, c: T)
    requires
        total_order::<T>(),
        lt(a, b),
        lt(b, c),
    ensures
        lt(a, c),
{
    reveal(vstd::laws_cmp::obeys_partial_cmp_spec_properties);
    reveal(vstd::laws_cmp::obeys_cmp_partial_ord);
    reveal(vstd::laws_cmp::obeys_cmp_ord);
    let _ = a.partial_cmp_spec(&b);
    let _ = b.partial_cmp_spec(&c);
    let _ = a.partial_cmp_spec(&c);
}

/// Equivalence is transitive.
pub proof fn lemma_equiv_transitive<T: Ord>(a: T, b: T, c: T)
    requires
        total_order::<T>(),
        equiv(a, b),
        equiv(b, c),
    ensures
        equiv(a, c),
{
    reveal(vstd::laws_cmp::obeys_partial_cmp_spec_properties);
    reveal(vstd::laws_cmp::obeys_cmp_partial_ord);
    reveal(vstd::laws_cmp::obeys_cmp_ord);
    reveal(vstd::laws_eq::obeys_eq_spec_properties);
    let _ = a.partial_cmp_spec(&b);
    let _ = b.partial_cmp_spec(&c);
    let _ = a.partial_cmp_spec(&c);
}

/// Equivalent keys stand in the same relation to any third key.
pub proof fn lemma_equiv_same_side<T: Ord>(a: T, b: T, c: T)
    requires
        total_order::<T>(),
        equiv(a, b),
    ensures
        lt(a, c) == lt(b, c),
        lt(c, a) == lt(c, b),
        equiv(a, c) == equiv(b, c),
{
    lemma_trichotomy(a, b);
    lemma_trichotomy(a, c);
    lemma_trichotomy(b, c);
    if equiv(a, c) {
        lemma_equiv_transitive(b, a, c);
    }
    if equiv(b, c) {
        lemma_equiv_transitive(a, b, c);
    }
    if lt(a, c) && lt(c, b) {
        lemma_lt_transitive(a, c, b);
    }
    if lt(b, c) && lt(c, a) {
        lemma_lt_transitive(b, c, a);
    }
}

/// The rank of a key is at most the length of the sequence.
pub proof fn lemma_rank_bound<T: Ord>(s: Seq<T>, v: T)
    ensures
        rank(s, v) <= s.len(),
    decreases s.len(),
{
    if s.len() > 0 {
        lemma_rank_bound(s.drop_last(), v);
    }
}

/// The rank in a concatenation is the sum of the ranks in its parts.
pub proof fn lemma_rank_concat<T: Ord>(a: Seq<T>, b: Seq<T>, v: T)
    ensures
        rank(a + b, v) == rank(a, v) + rank(b, v),
    decreases b.len(),
{
    if b.len() == 0 {
        assert(a + b =~= a);
    } else {
        assert((a + b).drop_last() =~= a + b.drop_last());
        assert((a + b).last() == b.last());
        lemma_rank_concat(a, b.drop_last(), v);
    }
}

/// Where every element is less than the key, the rank is the length.
pub proof fn lemma_rank_all_below<T: Ord>(s: Seq<T>, v: T)
    requires
        all_below(s, v),
    ensures
        rank(s, v) == s.len(),
    decreases s.len(),
{
    if s.len() > 0 {
        assert(lt(s[s.len() - 1], v));
        assert forall|i: int| 0 <= i < s.drop_last().len() implies lt(
            #[trigger] s.drop_last()[i],
            v,
        ) by {
            assert(s.drop_last()[i] == s[i]);
        }
        lemma_rank_all_below(s.drop_last(), v);
    }
}

/// Where no element is less than the key, the rank is zero.
pub proof fn lemma_rank_none_below<T: Ord>(s: Seq<T>, v: T)
    requires
        forall|i: int| 0 <= i < s.len() ==> !lt(#[trigger] s[i], v),
    ensures
        rank(s, v) == 0,
    decreases s.len(),
{
    if s.len() > 0 {
        assert(!lt(s[s.len() - 1], v));
        assert forall|i: int| 0 <= i < s.drop_last().len() implies !lt(
            #[trigger] s.drop_last()[i],
            v,
        ) by {
            assert(s.drop_last()[i] == s[i]);
        }
        lemma_rank_none_below(s.drop_last(), v);
    }
}

/// In an ascending sequence the elements before the rank of a key are less
/// than the key, and those from the rank on are not.
pub proof fn lemma_rank_divides<T: Ord>(s: Seq<T>, v: T)
    requires
        total_order::<T>(),
        strictly_ascending(s),
    ensures
        rank(s, v) <= s.len(),
        forall|i: int| 0 <= i < rank(s, v) ==> lt(#[trigger] s[i], v),
        forall|i: int| rank(s, v) <= i < s.len() ==> !lt(#[trigger] s[i], v),
    decreases s.len(),
{
    if s.len() > 0 {
        let init = s.drop_last();
        assert forall|i: int, j: int| 0 <= i < j < init.len() implies lt(
            #[trigger] init[i],
            #[trigger] init[j],
        ) by {
            assert(init[i] == s[i] && init[j] == s[j]);
        }
        lemma_rank_divides(init, v);
        lemma_rank_bound(init, v);
        if lt(s.last(), v) {
            if rank(init, v) < init.len() {
                let i = rank(init, v) as int;
                assert(init[i] == s[i]);
                assert(lt(s[i], s[s.len() - 1]));
                lemma_lt_transitive(s[i], s.last(), v);
            }
            assert forall|i: int| 0 <= i < rank(s, v) implies lt(#[trigger] s[i], v) by {
                if i < s.len() - 1 {
                    assert(lt(s[i], s[s.len() - 1]));
                    lemma_lt_transitive(s[i], s.last(), v);
                }
            }
        } else {
            assert forall|i: int| rank(s, v) <= i < s.len() implies !lt(#[trigger] s[i], v) by {
                if i < s.len() - 1 {
                    assert(init[i] == s[i]);
                }
            }
            assert forall|i: int| 0 <= i < rank(s, v) implies lt(#[trigger] s[i], v) by {
                assert(init[i] == s[i]);
            }
        }
    }
}

/// Two ascending runs around a key that lies between them make one ascending run.
pub proof fn lemma_ascending_join<T: Ord>(below: Seq<T>, v: T, above: Seq<T>)
    requires
        total_order::<T>(),
        strictly_ascending(below),
        strictly_ascending(above),
        all_below(below, v),
        all_above(above, v),
    ensures
        strictly_ascending(below.push(v) + above),
{
    let s = below.push(v) + above;
    let n = below.len() as int;
    assert forall|i: int, j: int| 0 <= i < j < s.len() implies lt(
        #[trigger] s[i],
        #[trigger] s[j],
    ) by {
        if j < n {
            assert(s[i] == below[i] && s[j] == below[j]);
        } else if j == n {
            assert(s[i] == below[i] && s[j] == v);
        } else if i < n {
            assert(s[i] == below[i] && s[j] == above[j - n - 1]);
            lemma_lt_transitive(below[i], v, above[j - n - 1]);
        } else if i == n {
            assert(s[i] == v && s[j] == above[j - n - 1]);
        } else {
            assert(s[i] == above[i - n - 1] && s[j] == above[j - n - 1]);
        }
    }
}

/// An ascending run, cut at one of its keys, gives two ascending runs with the
/// key between them.
pub proof fn lemma_ascending_split<T: Ord>(below: Seq<T>, v: T, above: Seq<T>)
    requires
        strictly_ascending(below.push(v) + above),
    ensures
        strictly_ascending(below),
        strictly_ascending(above),
        all_below(below, v),
        all_above(above, v),
{
    let s = below.push(v) + above;
    let n = below.len() as int;
    assert(s[n] == v);
    assert forall|i: int, j: int| 0 <= i < j < below.len() implies lt(
        #[trigger] below[i],
        #[trigger] below[j],
    ) by {
        assert(s[i] == below[i] && s[j] == below[j]);
    }
    assert forall|i: int, j: int| 0 <= i < j < above.len() implies lt(
        #[trigger] above[i],
        #[trigger] above[j],
    ) by {
        assert(s[i + n + 1] == above[i] && s[j + n + 1] == above[j]);
    }
    assert forall|i: int| 0 <= i < below.len() implies lt(#[trigger] below[i], v) by {
        assert(s[i] == below[i]);
        assert(lt(s[i], s[n]));
    }
    assert forall|i: int| 0 <= i < above.len() implies lt(v, #[trigger] above[i]) by {
        assert(s[i + n + 1] == above[i]);
        assert(lt(s[n], s[i + n + 1]));
    }
}

/// A key put into an ascending sequence at its rank leaves the sequence
/// ascending, provided that no equivalent key was there.
pub proof fn lemma_with_key_ascending<T: Ord>(s: Seq<T>, v: T)
    requires
        total_order::<T>(),
        strictly_ascending(s),
    ensures
        strictly_ascending(with_key(s, v)),
{
    if !holds(s, v) {
        lemma_rank_divides(s, v);
        let k = rank(s, v) as int;
        let t = s.insert(k, v);
        assert forall|i: int, j: int| 0 <= i < j < t.len() implies lt(
            #[trigger] t[i],
            #[trigger] t[j],
        ) by {
            if j < k {
                assert(t[i] == s[i] && t[j] == s[j]);
            } else if j == k {
                assert(t[i] == s[i] && t[j] == v);
            } else if i < k {
                assert(t[i] == s[i] && t[j] == s[j - 1]);
                if i < j - 1 {
                } else {
                    assert(false);
                }
            } else if i == k {
                assert(t[i] == v && t[j] == s[j - 1]);
                assert(!lt(s[j - 1], v));
                assert(!equiv(s[j - 1], v));
                lemma_trichotomy(s[j - 1], v);
            } else {
                assert(t[i] == s[i - 1] && t[j] == s[j - 1]);
            }
        }
    }
}

/// After a key was put into a sequence, the sequence holds that key, every key
/// it held before, and no others.
pub proof fn lemma_with_key_holds<T: Ord>(s: Seq<T>, v: T, w: T)
    requires
        total_order::<T>(),
    ensures
        holds(with_key(s, v), w) <==> holds(s, w) || equiv(v, w),
{
    lemma_rank_bound(s, v);
    let t = with_key(s, v);
    if holds(s, v) {
        if equiv(v, w) {
            let i = choose|i: int| 0 <= i < s.len() && equiv(#[trigger] s[i], v);
            lemma_equiv_transitive(s[i], v, w);
        }
    } else {
        let k = rank(s, v) as int;
        if holds(t, w) {
            let i = choose|i: int| 0 <= i < t.len() && equiv(#[trigger] t[i], w);
            if i < k {
                assert(t[i] == s[i]);
            } else if i > k {
                assert(t[i] == s[i - 1]);
            }
        }
        if holds(s, w) {
            let i = choose|i: int| 0 <= i < s.len() && equiv(#[trigger] s[i], w);
            if i < k {
                assert(t[i] == s[i]);
            } else {
                assert(t[i + 1] == s[i]);
            }
        }
        if equiv(v, w) {
            assert(t[k] == v);
        }
    }
}

/// Putting keys into an ascending sequence one by one leaves it ascending.
pub proof fn lemma_with_keys_ascending<T: Ord>(s: Seq<T>, vs: Seq<T>)
    requires
        total_order::<T>(),
        strictly_ascending(s),
    ensures
        strictly_ascending(with_keys(s, vs)),
    decreases vs.len(),
{
    if vs.len() > 0 {
        lemma_with_keys_ascending(s, vs.drop_last());
        lemma_with_key_ascending(with_keys(s, vs.drop_last()), vs.last());
    }
}

/// After keys were put into a sequence one by one, it holds the keys it held
/// before and those put in, and no others.
pub proof fn lemma_with_keys_holds<T: Ord>(s: Seq<T>, vs: Seq<T>, w: T)
    requires
        total_order::<T>(),
    ensures
        holds(with_keys(s, vs), w) <==> holds(s, w) || holds(vs, w),
    decreases vs.len(),
{
    if vs.len() > 0 {
        let init = vs.drop_last();
        lemma_with_keys_holds(s, init, w);
        lemma_with_key_holds(with_keys(s, init), vs.last(), w);
        if holds(init, w) {
            let i = choose|i: int| 0 <= i < init.len() && equiv(#[trigger] init[i], w);
            assert(vs[i] == init[i]);
        }
        if holds(vs, w) {
            let i = choose|i: int| 0 <= i < vs.len() && equiv(#[trigger] vs[i], w);
            if i < vs.len() - 1 {
                assert(init[i] == vs[i]);
            }
        }
        if equiv(vs.last(), w) {
            assert(vs[vs.len() - 1] == vs.last());
        }
    }
}

/// No two elements of `s` are equivalent.
pub open spec fn distinct<T: Ord>(s: Seq<T>) -> bool {
    forall|i: int, j: int| 0 <= i < j < s.len() ==> !equiv(#[trigger] s[i], #[trigger] s[j])
}

/// Distinct keys put into an empty sequence are all taken: the result is as
/// long as the sequence of keys.
pub proof fn lemma_with_keys_distinct<T: Ord>(vs: Seq<T>)
    requires
        total_order::<T>(),
        distinct(vs),
    ensures
        with_keys(Seq::<T>::empty(), vs).len() == vs.len(),
    decreases vs.len(),
{
    if vs.len() > 0 {
        let init = vs.drop_last();
        assert forall|i: int, j: int| 0 <= i < j < init.len() implies !equiv(
            #[trigger] init[i],
            #[trigger] init[j],
        ) by {
            assert(init[i] == vs[i] && init[j] == vs[j]);
        }
        lemma_with_keys_distinct(init);
        let before = with_keys(Seq::<T>::empty(), init);
        lemma_with_keys_holds(Seq::<T>::empty(), init, vs.last());
        if holds(init, vs.last()) {
            let i = choose|i: int| 0 <= i < init.len() && equiv(#[trigger] init[i], vs.last());
            assert(init[i] == vs[i]);
            assert(!equiv(vs[i], vs[vs.len() - 1]));
        }
        lemma_rank_bound(before, vs.last());
    }
}

/// The length grows by at most one with each key put in.
pub proof fn lemma_with_keys_len<T: Ord>(s: Seq<T>, vs: Seq<T>)
    ensures
        with_keys(s, vs).len() <= s.len() + vs.len(),
    decreases vs.len(),
{
    if vs.len() > 0 {
        lemma_with_keys_len(s, vs.drop_last());
        lemma_rank_bound(with_keys(s, vs.drop_last()), vs.last());
    }
}

} // verus!
