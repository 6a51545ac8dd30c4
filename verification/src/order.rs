//! The order in which names are listed.

use vstd::prelude::*;
use vstd::relations::{sorted_by, total_ordering};
use vstd::seq_lib::{group_to_multiset_ensures, lemma_sorted_unique};

verus! {

/// `a` stands before `b` in the lexicographic order of byte strings.
pub open spec fn before(a: Seq<u8>, b: Seq<u8>) -> bool
    decreases a.len(),
{
    if b.len() == 0 {
        false
    } else if a.len() == 0 {
        true
    } else if a[0] != b[0] {
        a[0] < b[0]
    } else {
        before(a.drop_first(), b.drop_first())
    }
}

/// Key number `i` is listed no later than key number `j`: it is the smaller
/// one, or it is equal and comes first.
pub open spec fn not_after(keys: Seq<Seq<u8>>, i: int, j: int) -> bool {
    before(keys[i], keys[j]) || (keys[i] == keys[j] && i <= j)
}

/// The numbers of the keys, in the order in which the keys are listed.
pub open spec fn listing_order(keys: Seq<Seq<u8>>) -> Seq<int> {
    Seq::new(keys.len(), |i: int| i).sort_by(|i: int, j: int| not_after(keys, i, j))
}

/// What the vectors of bytes hold.
pub open spec fn bytes_of(keys: Seq<Vec<u8>>) -> Seq<Seq<u8>> {
    keys.map_values(|k: Vec<u8>| k@)
}

/// Nothing stands before itself.
proof fn lemma_before_irreflexive(a: Seq<u8>)
    ensures
        !before(a, a),
    decreases a.len(),
{
    if a.len() > 0 {
        lemma_before_irreflexive(a.drop_first());
    }
}

/// The lexicographic order is transitive.
proof fn lemma_before_transitive(a: Seq<u8>, b: Seq<u8>, c: Seq<u8>)
    requires
        before(a, b),
        before(b, c),
    ensures
        before(a, c),
    decreases a.len(),
{
    if a.len() > 0 && a[0] == b[0] && b[0] == c[0] {
        lemma_before_transitive(a.drop_first(), b.drop_first(), c.drop_first());
    }
}

/// Of two different byte strings one stands before the other.
proof fn lemma_before_total(a: Seq<u8>, b: Seq<u8>)
    ensures
        before(a, b) || before(b, a) || a == b,
    decreases a.len(),
{
    if a.len() == 0 || b.len() == 0 {
        if a.len() == 0 && b.len() == 0 {
            assert(a =~= b);
        }
    } else if a[0] == b[0] {
        lemma_before_total(a.drop_first(), b.drop_first());
        if a.drop_first() == b.drop_first() {
            assert(a =~= seq![a[0]] + a.drop_first());
            assert(b =~= seq![b[0]] + b.drop_first());
        }
    }
}

/// The order in which keys are listed is a total order on their numbers.
proof fn lemma_total_order(keys: Seq<Seq<u8>>)
    ensures
        total_ordering(|i: int, j: int| not_after(keys, i, j)),
{
    let leq = |i: int, j: int| not_after(keys, i, j);
    assert forall|i: int, j: int| #[trigger] leq(i, j) && #[trigger] leq(j, i) implies i == j by {
        lemma_before_irreflexive(keys[i]);
        if before(keys[i], keys[j]) && before(keys[j], keys[i]) {
            lemma_before_transitive(keys[i], keys[j], keys[i]);
        }
    }
    assert forall|i: int, j: int, k: int| #[trigger] leq(i, j) && #[trigger] leq(j, k) implies leq(
        i,
        k,
    ) by {
        if before(keys[i], keys[j]) && before(keys[j], keys[k]) {
            lemma_before_transitive(keys[i], keys[j], keys[k]);
        }
    }
    assert forall|i: int, j: int| #[trigger] leq(i, j) || #[trigger] leq(j, i) by {
        lemma_before_total(keys[i], keys[j]);
    }
}

/// The listing holds the number of every key once, and an earlier place goes
/// to the smaller key, or to the earlier of equal keys.
pub proof fn listing_order_is_sorted(keys: Seq<Seq<u8>>)
    ensures
        listing_order(keys).len() == keys.len(),
        forall|i: int| 0 <= i < keys.len() <==> #[trigger] listing_order(keys).contains(i),
        listing_order(keys).no_duplicates(),
        forall|a: int, b: int|
            0 <= a < b < keys.len() ==> not_after(
                keys,
                #[trigger] listing_order(keys)[a],
                #[trigger] listing_order(keys)[b],
            ),
{
    broadcast use group_to_multiset_ensures;

    let all = Seq::new(keys.len(), |i: int| i);
    let leq = |i: int, j: int| not_after(keys, i, j);
    let sorted = all.sort_by(leq);
    lemma_total_order(keys);
    all.lemma_sort_by_ensures(leq);
    assert(sorted.len() == sorted.to_multiset().len());
    assert(all.len() == all.to_multiset().len());
    assert forall|i: int| 0 <= i < keys.len() <==> #[trigger] sorted.contains(i) by {
        if 0 <= i < keys.len() {
            assert(all[i] == i);
            assert(all.contains(i));
            assert(all.to_multiset().count(i) > 0);
        }
        if sorted.contains(i) {
            assert(all.contains(i));
        }
    }
    all.lemma_multiset_has_no_duplicates();
    sorted.lemma_multiset_has_no_duplicates_conv();
    assert forall|a: int, b: int| 0 <= a < b < keys.len() implies not_after(
        keys,
        #[trigger] sorted[a],
        #[trigger] sorted[b],
    ) by {
        assert(leq(sorted[a], sorted[b]));
    }
}

/// Whether `a` stands before `b` in the lexicographic order of byte strings.
fn stands_before(a: &Vec<u8>, b: &Vec<u8>) -> (r: bool)
    ensures
        r == before(a@, b@),
{
    let mut i: usize = 0;
    proof {
        assert(a@.skip(0) == a@);
        assert(b@.skip(0) == b@);
    }
    loop
        invariant
            i <= a@.len(),
            i <= b@.len(),
            before(a@.skip(i as int), b@.skip(i as int)) == before(a@, b@),
        decreases a@.len() - i,
    {
        if i >= b.len() {
            return false;
        }
        if i >= a.len() {
            return true;
        }
        if a[i] != b[i] {
            return a[i] < b[i];
        }
        proof {
            assert(a@.skip(i as int).drop_first() == a@.skip(i + 1));
            assert(b@.skip(i as int).drop_first() == b@.skip(i + 1));
        }
        i += 1;
    }
}

/// The numbers of the keys, in the order in which the keys are listed.
pub fn order_of(keys: &Vec<Vec<u8>>) -> (r: Vec<usize>)
    ensures
        r@.map_values(|i: usize| i as int) == listing_order(bytes_of(keys@)),
        forall|k: int| 0 <= k < r@.len() ==> #[trigger] r@[k] < keys@.len(),
{
    let ghost texts = bytes_of(keys@);
    let ghost leq = |i: int, j: int| not_after(texts, i, j);
    let mut order: Vec<usize> = Vec::new();
    let mut n: usize = 0;
    proof {
        lemma_total_order(texts);
        assert(order@.map_values(|i: usize| i as int) =~= Seq::new(0, |i: int| i));
    }
    while n < keys.len()
        invariant
            n <= keys@.len(),
            order@.len() == n,
            texts == bytes_of(keys@),
            leq == (|i: int, j: int| not_after(texts, i, j)),
            total_ordering(leq),
            forall|k: int| 0 <= k < n ==> #[trigger] order@[k] < n,
            sorted_by(order@.map_values(|i: usize| i as int), leq),
            order@.map_values(|i: usize| i as int).to_multiset() == Seq::new(
                n as nat,
                |i: int| i,
            ).to_multiset(),
        decreases keys@.len() - n,
    {
        // The place behind every key that is not larger.
        let mut low: usize = 0;
        let mut high: usize = order.len();
        while low < high
            invariant
                n < keys@.len(),
                low <= high <= order@.len(),
                order@.len() == n,
                texts == bytes_of(keys@),
                leq == (|i: int, j: int| not_after(texts, i, j)),
                total_ordering(leq),
                forall|k: int| 0 <= k < n ==> #[trigger] order@[k] < n,
                sorted_by(order@.map_values(|i: usize| i as int), leq),
                forall|k: int| 0 <= k < low ==> leq(#[trigger] order@[k] as int, n as int),
                forall|k: int| high <= k < n ==> leq(n as int, #[trigger] order@[k] as int),
            decreases high - low,
        {
            let mid: usize = low + (high - low) / 2;
            let ghost ints = order@.map_values(|i: usize| i as int);
            proof {
                lemma_before_total(texts[n as int], texts[order@[mid as int] as int]);
            }
            if stands_before(&keys[n], &keys[order[mid]]) {
                proof {
                    assert forall|k: int| mid <= k < n implies leq(
                        n as int,
                        #[trigger] order@[k] as int,
                    ) by {
                        assert(leq(n as int, order@[mid as int] as int));
                        if mid < k {
                            assert(leq(ints[mid as int], ints[k]));
                        }
                    }
                }
                high = mid;
            } else {
                proof {
                    assert forall|k: int| 0 <= k < mid + 1 implies leq(
                        #[trigger] order@[k] as int,
                        n as int,
                    ) by {
                        assert(leq(order@[mid as int] as int, n as int));
                        if k < mid {
                            assert(leq(ints[k], ints[mid as int]));
                        }
                    }
                }
                low = mid + 1;
            }
        }
        let ghost old_order = order@;
        let ghost old_ints = order@.map_values(|i: usize| i as int);
        order.insert(low, n);
        proof {
            broadcast use group_to_multiset_ensures;

            let ints = order@.map_values(|i: usize| i as int);
            assert(ints =~= old_ints.insert(low as int, n as int));
            assert(ints.remove(low as int) =~= old_ints);
            assert(ints.contains(n as int)) by {
                assert(ints[low as int] == n as int);
            }
            assert(ints.to_multiset() =~= old_ints.to_multiset().insert(n as int)) by {
                assert(ints.remove(low as int).to_multiset() == ints.to_multiset().remove(
                    n as int,
                ));
                assert(ints.to_multiset().count(n as int) > 0);
            }
            assert(Seq::new((n + 1) as nat, |i: int| i) =~= Seq::new(n as nat, |i: int| i).push(
                n as int,
            ));
            assert(sorted_by(ints, leq)) by {
                assert forall|i: int, j: int| 0 <= i < j < ints.len() implies #[trigger] leq(
                    ints[i],
                    ints[j],
                ) by {
                    if j < low {
                        assert(leq(old_ints[i], old_ints[j]));
                    } else if i > low {
                        assert(leq(old_ints[i - 1], old_ints[j - 1]));
                    } else if i < low && j > low {
                        assert(leq(old_ints[i], old_ints[j - 1]));
                    } else if j == low {
                        assert(leq(old_order[i] as int, n as int));
                    } else {
                        assert(leq(n as int, old_order[j - 1] as int));
                    }
                }
            }
            assert forall|k: int| 0 <= k < n + 1 implies #[trigger] order@[k] < n + 1 by {
                if k < low {
                    assert(order@[k] == old_order[k]);
                } else if k > low {
                    assert(order@[k] == old_order[k - 1]);
                }
            }
        }
        n += 1;
    }
    proof {
        let ints = order@.map_values(|i: usize| i as int);
        let all = Seq::new(texts.len(), |i: int| i);
        all.lemma_sort_by_ensures(leq);
        lemma_sorted_unique(ints, all.sort_by(leq), leq);
    }
    order
}

/// `a` is the smaller of two byte strings: they are the same up to some place,
/// and there `a` ends or has the smaller byte.
pub open spec fn smaller(a: Seq<u8>, b: Seq<u8>) -> bool {
    exists|k: int|
        {
            &&& 0 <= k < b.len()
            &&& k <= a.len()
            &&& a.take(k) == #[trigger] b.take(k)
            &&& k == a.len() || a[k] < b[k]
        }
}

/// The lexicographic order goes by the first difference.
pub proof fn before_is_smaller(a: Seq<u8>, b: Seq<u8>)
    ensures
        before(a, b) <==> smaller(a, b),
    decreases a.len(),
{
    if a.len() > 0 && b.len() > 0 && a[0] == b[0] {
        let a1 = a.drop_first();
        let b1 = b.drop_first();
        before_is_smaller(a1, b1);
        if smaller(a1, b1) {
            let k = choose|k: int|
                {
                    &&& 0 <= k < b1.len()
                    &&& k <= a1.len()
                    &&& a1.take(k) == #[trigger] b1.take(k)
                    &&& k == a1.len() || a1[k] < b1[k]
                };
            assert(a.take(k + 1) =~= seq![a[0]] + a1.take(k));
            assert(b.take(k + 1) =~= seq![b[0]] + b1.take(k));
        }
        if smaller(a, b) {
            let k = choose|k: int|
                {
                    &&& 0 <= k < b.len()
                    &&& k <= a.len()
                    &&& a.take(k) == #[trigger] b.take(k)
                    &&& k == a.len() || a[k] < b[k]
                };
            assert(k > 0);
            assert(a1.take(k - 1) =~= a.take(k).drop_first());
            assert(b1.take(k - 1) =~= b.take(k).drop_first());
        }
    } else {
        if before(a, b) {
            assert(a.take(0) =~= b.take(0));
        }
        if smaller(a, b) {
            let k = choose|k: int|
                {
                    &&& 0 <= k < b.len()
                    &&& k <= a.len()
                    &&& a.take(k) == #[trigger] b.take(k)
                    &&& k == a.len() || a[k] < b[k]
                };
            if k > 0 {
                assert(a.take(k)[0] == a[0]);
                assert(b.take(k)[0] == b[0]);
            }
        }
    }
}

/// `order` lists the numbers of the names: each of them once, the smaller name
/// in front, and of equal names the one that comes first.
pub open spec fn is_name_order(names: Seq<Seq<u8>>, order: Seq<int>) -> bool {
    &&& order.len() == names.len()
    &&& forall|i: int| 0 <= i < names.len() <==> #[trigger] order.contains(i)
    &&& order.no_duplicates()
    &&& forall|p: int, q: int|
        0 <= p < q < order.len() ==> {
            let (i, j) = (#[trigger] order[p], #[trigger] order[q]);
            smaller(names[i], names[j]) || (names[i] == names[j] && i < j)
        }
}

/// The order in which keys are listed is an order of names.
pub proof fn listing_order_is_by_name(keys: Seq<Seq<u8>>)
    ensures
        is_name_order(keys, listing_order(keys)),
{
    let order = listing_order(keys);
    listing_order_is_sorted(keys);
    assert forall|p: int, q: int| 0 <= p < q < order.len() implies {
        let (i, j) = (#[trigger] order[p], #[trigger] order[q]);
        smaller(keys[i], keys[j]) || (keys[i] == keys[j] && i < j)
    } by {
        assert(not_after(keys, order[p], order[q]));
        before_is_smaller(keys[order[p]], keys[order[q]]);
        assert(order[p] != order[q]);
    }
}

/// Ordering lists every key once, the smaller one in front, and keeps equal keys
/// in the order in which they come.
pub proof fn ordering_goes_by_name(keys: &Vec<Vec<u8>>, r: Vec<usize>)
    requires
        call_ensures(order_of, (keys,), r),
    ensures
        is_name_order(keys@.map_values(|k: Vec<u8>| k@), r@.map_values(|i: usize| i as int)),
{
    listing_order_is_by_name(bytes_of(keys@));
    assert(bytes_of(keys@) =~= keys@.map_values(|k: Vec<u8>| k@));
}

} // verus!
