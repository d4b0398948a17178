//! Relations among the structures' contracts, proved once over the shared
//! entry model.

use vstd::prelude::*;

verus! {

use vstd::multiset::Multiset;

use crate::{concat_seqs, in_radius, matched_payloads, payloads_of, SpatialPartitioner};

/// Cross-implementation equivalence. Any two structures -- of any of this
/// crate's implementations -- that hold the same entries as a multiset agree,
/// for every center and radius, on the multiset of payloads a circular query
/// selects. Together with each implementation's `in_circle` contract, indexed
/// structures fed the same in-domain inserts in any order return equal
/// `in_circle` results (as multisets), radius zero included.
pub proof fn lemma_cross_implementation_equivalence<
    Data: Copy,
    A: SpatialPartitioner<Data>,
    B: SpatialPartitioner<Data>,
>(a: &A, b: &B, center: (i64, i64), radius: i64)
    requires
        a.entries().to_multiset() == b.entries().to_multiset(),
    ensures
        matched_payloads(a.entries(), center, radius).to_multiset() == matched_payloads(
            b.entries(),
            center,
            radius,
        ).to_multiset(),
{
    lemma_matched_permutation(a.entries(), b.entries(), center, radius);
}

/// Insertion-order independence. Two structures of one implementation holding
/// the same (position, payload) pairs as a multiset -- as two runs of the same
/// checked inserts in different orders leave behind, by `insert`'s contract --
/// have the same count and select the same multiset of payloads for every
/// circular query.
pub proof fn lemma_insertion_order_independence<Data: Copy, T: SpatialPartitioner<Data>>(
    a: &T,
    b: &T,
    center: (i64, i64),
    radius: i64,
)
    requires
        a.entries().to_multiset() == b.entries().to_multiset(),
    ensures
        a.entries().len() == b.entries().len(),
        matched_payloads(a.entries(), center, radius).to_multiset() == matched_payloads(
            b.entries(),
            center,
            radius,
        ).to_multiset(),
{
    a.entries().to_multiset_ensures();
    b.entries().to_multiset_ensures();
    lemma_matched_permutation(a.entries(), b.entries(), center, radius);
}

/// Clearing resets content while geometry persists. `clear`'s contract leaves
/// the structure with no entries, indexed, and with its domain unchanged;
/// this lemma adds that every circular query on such a structure selects
/// nothing. Since every method's contract speaks only of `entries()`,
/// `indexed()` and `in_domain()`, a cleared structure behaves exactly as a
/// fresh one with the same parameters.
pub proof fn lemma_cleared_matches_nothing<Data: Copy, T: SpatialPartitioner<Data>>(
    t: &T,
    center: (i64, i64),
    radius: i64,
)
    requires
        t.entries().len() == 0,
    ensures
        matched_payloads(t.entries(), center, radius) == Seq::<Data>::empty(),
{
}

/// `matched_payloads` distributes over concatenation.
pub proof fn lemma_matched_concat<Data>(
    a: Seq<((i64, i64), Data)>,
    b: Seq<((i64, i64), Data)>,
    center: (i64, i64),
    radius: i64,
)
    ensures
        matched_payloads(a + b, center, radius) == matched_payloads(a, center, radius)
            + matched_payloads(b, center, radius),
    decreases b.len(),
{
    if b.len() == 0 {
        assert(a + b =~= a);
        assert(matched_payloads(a, center, radius) + matched_payloads(b, center, radius)
            =~= matched_payloads(a, center, radius));
    } else {
        assert((a + b).drop_last() =~= a + b.drop_last());
        assert((a + b).last() == b.last());
        lemma_matched_concat(a, b.drop_last(), center, radius);
        assert(matched_payloads(a, center, radius) + matched_payloads(b.drop_last(), center, radius).push(
            b.last().1,
        ) =~= (matched_payloads(a, center, radius) + matched_payloads(
            b.drop_last(),
            center,
            radius,
        )).push(b.last().1));
    }
}

/// When no entry matches, nothing is selected.
pub proof fn lemma_matched_none<Data>(
    s: Seq<((i64, i64), Data)>,
    center: (i64, i64),
    radius: i64,
)
    requires
        forall|i: int| 0 <= i < s.len() ==> !in_radius(#[trigger] s[i].0, center, radius),
    ensures
        matched_payloads(s, center, radius) == Seq::<Data>::empty(),
    decreases s.len(),
{
    if s.len() > 0 {
        lemma_matched_none(s.drop_last(), center, radius);
    }
}

/// When every entry matches, every payload is selected, in order.
pub proof fn lemma_matched_all<Data>(
    s: Seq<((i64, i64), Data)>,
    center: (i64, i64),
    radius: i64,
)
    requires
        forall|i: int| 0 <= i < s.len() ==> in_radius(#[trigger] s[i].0, center, radius),
    ensures
        matched_payloads(s, center, radius) == payloads_of(s),
    decreases s.len(),
{
    if s.len() > 0 {
        lemma_matched_all(s.drop_last(), center, radius);
    }
}

/// `payloads_of` distributes over concatenation.
pub proof fn lemma_payloads_concat<Data>(a: Seq<((i64, i64), Data)>, b: Seq<((i64, i64), Data)>)
    ensures
        payloads_of(a + b) == payloads_of(a) + payloads_of(b),
    decreases b.len(),
{
    if b.len() == 0 {
        assert(a + b =~= a);
        assert(payloads_of(a) + payloads_of(b) =~= payloads_of(a));
    } else {
        assert((a + b).drop_last() =~= a + b.drop_last());
        assert((a + b).last() == b.last());
        lemma_payloads_concat(a, b.drop_last());
        assert(payloads_of(a) + payloads_of(b.drop_last()).push(b.last().1) =~= (payloads_of(a)
            + payloads_of(b.drop_last())).push(b.last().1));
    }
}

/// Growing a sequence by one entry, as a multiset, adds members only from the
/// old sequence plus that entry.
pub proof fn lemma_multiset_insert_members<T>(a: Seq<T>, b: Seq<T>, e: T)
    requires
        b.to_multiset() == a.to_multiset().insert(e),
    ensures
        forall|k: int| 0 <= k < b.len() ==> b[k] == e || a.contains(#[trigger] b[k]),
{
    a.to_multiset_ensures();
    b.to_multiset_ensures();
    assert forall|k: int| 0 <= k < b.len() implies b[k] == e || a.contains(b[k]) by {
        assert(b.contains(b[k]));
        assert(b.to_multiset().count(b[k]) > 0);
        if b[k] != e {
            assert(a.to_multiset().count(b[k]) > 0);
        }
    }
}

/// `to_multiset` turns concatenation into multiset sum.
pub proof fn lemma_to_multiset_concat<T>(a: Seq<T>, b: Seq<T>)
    ensures
        (a + b).to_multiset() == a.to_multiset().add(b.to_multiset()),
    decreases b.len(),
{
    a.to_multiset_ensures();
    b.to_multiset_ensures();
    if b.len() == 0 {
        assert(a + b =~= a);
        assert(b.to_multiset().len() == 0);
        assert(b.to_multiset() =~= Multiset::<T>::empty());
        assert(a.to_multiset().add(Multiset::<T>::empty()) =~= a.to_multiset());
    } else {
        let b0 = b.drop_last();
        let x = b.last();
        lemma_to_multiset_concat(a, b0);
        (a + b0).to_multiset_ensures();
        b0.to_multiset_ensures();
        assert((a + b0).push(x) =~= a + b);
        assert(b0.push(x) =~= b);
        assert((a + b).to_multiset() =~= a.to_multiset().add(b.to_multiset()));
    }
}

/// Removing one entry removes, at most, its own contribution to the match.
proof fn lemma_matched_remove<Data>(
    s: Seq<((i64, i64), Data)>,
    i: int,
    center: (i64, i64),
    radius: i64,
)
    requires
        0 <= i < s.len(),
    ensures
        matched_payloads(s, center, radius).to_multiset() == matched_payloads(
            s.remove(i),
            center,
            radius,
        ).to_multiset().add(
            if in_radius(s[i].0, center, radius) {
                Multiset::<Data>::empty().insert(s[i].1)
            } else {
                Multiset::<Data>::empty()
            },
        ),
    decreases s.len(),
{
    let own_part = if in_radius(s[i].0, center, radius) {
        Multiset::<Data>::empty().insert(s[i].1)
    } else {
        Multiset::<Data>::empty()
    };
    let m0 = matched_payloads(s.drop_last(), center, radius);
    m0.to_multiset_ensures();
    if i == s.len() - 1 {
        assert(s.remove(i) =~= s.drop_last());
        if in_radius(s.last().0, center, radius) {
            assert(matched_payloads(s, center, radius) == m0.push(s.last().1));
            assert(m0.push(s.last().1).to_multiset() =~= m0.to_multiset().insert(s.last().1));
            assert(m0.to_multiset().insert(s.last().1) =~= m0.to_multiset().add(own_part));
        } else {
            assert(m0.to_multiset().add(own_part) =~= m0.to_multiset());
        }
    } else {
        let t = s.remove(i);
        assert(t.drop_last() =~= s.drop_last().remove(i));
        assert(t.last() == s.last());
        assert(t.len() == s.len() - 1);
        lemma_matched_remove(s.drop_last(), i, center, radius);
        let m1 = matched_payloads(s.drop_last().remove(i), center, radius);
        m1.to_multiset_ensures();
        assert(s.drop_last()[i] == s[i]);
        if in_radius(s.last().0, center, radius) {
            assert(matched_payloads(s, center, radius) == m0.push(s.last().1));
            assert(matched_payloads(t, center, radius) == m1.push(s.last().1));
            assert(m0.push(s.last().1).to_multiset() =~= m0.to_multiset().insert(s.last().1));
            assert(m1.push(s.last().1).to_multiset() =~= m1.to_multiset().insert(s.last().1));
            assert(m1.to_multiset().insert(s.last().1).add(own_part) =~= m1.to_multiset().add(
                own_part,
            ).insert(s.last().1));
        } else {
            assert(matched_payloads(s, center, radius) == m0);
            assert(matched_payloads(t, center, radius) == m1);
        }
    }
}

/// Insertion-order independence: two structures holding the same entries as a
/// multiset answer every circular query with the same multiset of payloads,
/// whatever order the entries arrived in and wherever they are stored.
pub proof fn lemma_matched_permutation<Data>(
    a: Seq<((i64, i64), Data)>,
    b: Seq<((i64, i64), Data)>,
    center: (i64, i64),
    radius: i64,
)
    requires
        a.to_multiset() == b.to_multiset(),
    ensures
        matched_payloads(a, center, radius).to_multiset() == matched_payloads(
            b,
            center,
            radius,
        ).to_multiset(),
    decreases a.len(),
{
    a.to_multiset_ensures();
    b.to_multiset_ensures();
    if a.len() == 0 {
        assert(b.len() == 0);
    } else {
        let e = a.last();
        assert(a.to_multiset().count(e) > 0) by {
            assert(a.contains(e));
        }
        assert(b.contains(e));
        let i = choose|i: int| 0 <= i < b.len() && b[i] == e;
        assert(a.drop_last() =~= a.remove(a.len() - 1));
        assert(a.remove(a.len() - 1).to_multiset() =~= a.to_multiset().remove(e));
        assert(b.remove(i).to_multiset() =~= b.to_multiset().remove(e));
        lemma_matched_permutation(a.drop_last(), b.remove(i), center, radius);
        lemma_matched_remove(a, a.len() - 1, center, radius);
        lemma_matched_remove(b, i, center, radius);
        assert(a[a.len() - 1] == e && b[i] == e);
    }
}

/// `concat_seqs`, matched and gathered, is the sum of each part's matches.
pub proof fn lemma_matched_concat_all<Data>(
    parts: Seq<Seq<((i64, i64), Data)>>,
    center: (i64, i64),
    radius: i64,
)
    ensures
        matched_payloads(concat_seqs(parts), center, radius).to_multiset() == sum_matched(
            parts,
            center,
            radius,
        ),
    decreases parts.len(),
{
    if parts.len() == 0 {
        let m = matched_payloads(concat_seqs(parts), center, radius);
        m.to_multiset_ensures();
        assert(m.to_multiset().len() == 0);
        assert(m.to_multiset() =~= Multiset::<Data>::empty());
    } else {
        lemma_matched_concat_all(parts.drop_last(), center, radius);
        lemma_matched_concat(concat_seqs(parts.drop_last()), parts.last(), center, radius);
        lemma_to_multiset_concat(
            matched_payloads(concat_seqs(parts.drop_last()), center, radius),
            matched_payloads(parts.last(), center, radius),
        );
    }
}

/// The multiset of matches summed over a sequence of entry groups.
pub open spec fn sum_matched<Data>(
    parts: Seq<Seq<((i64, i64), Data)>>,
    center: (i64, i64),
    radius: i64,
) -> Multiset<Data>
    decreases parts.len(),
{
    if parts.len() == 0 {
        Multiset::empty()
    } else {
        sum_matched(parts.drop_last(), center, radius).add(
            matched_payloads(parts.last(), center, radius).to_multiset(),
        )
    }
}

} // verus!
