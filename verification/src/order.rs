use vstd::prelude::*;

verus! {

/// Whether `items` stand in strictly ascending order by `before`.
pub open spec fn is_sorted_by<A>(items: Seq<A>, before: spec_fn(A, A) -> bool) -> bool {
    forall|i: int, j: int| 0 <= i < j < items.len() ==> before(#[trigger] items[i], #[trigger] items[j])
}

/// Whether `before` is a strict order: nothing comes before itself, and
/// what comes before something that comes before a third comes before
/// the third.
pub open spec fn is_strict_order<A>(before: spec_fn(A, A) -> bool) -> bool {
    &&& forall|x: A| !#[trigger] before(x, x)
    &&& forall|x: A, y: A, z: A| #[trigger] before(x, y) && #[trigger] before(y, z) ==> before(x, z)
}

/// Two sequences in strictly ascending order that hold the same items
/// agree on their first `n` items.
proof fn lemma_sorted_prefix<A>(a: Seq<A>, b: Seq<A>, before: spec_fn(A, A) -> bool, n: int)
    requires
        is_strict_order(before),
        is_sorted_by(a, before),
        is_sorted_by(b, before),
        forall|x: A| a.contains(x) <==> b.contains(x),
        0 <= n <= a.len(),
        n <= b.len(),
    ensures
        forall|i: int| 0 <= i < n ==> a[i] == b[i],
    decreases n,
{
    if n > 0 {
        lemma_sorted_prefix(a, b, before, n - 1);
        let i = n - 1;
        assert(a.contains(a[i]));
        assert(b.contains(a[i]));
        let j = choose|j: int| 0 <= j < b.len() && b[j] == a[i];
        assert(b.contains(b[i]));
        assert(a.contains(b[i]));
        let k = choose|k: int| 0 <= k < a.len() && a[k] == b[i];
        // Neither item stands among the items that the two sequences
        // share before this place.
        if j < i {
            assert(a[j] == b[j]);
            assert(before(a[j], a[i]));
        }
        if k < i {
            assert(a[k] == b[k]);
            assert(before(b[k], b[i]));
        }
        if j > i {
            assert(before(b[i], b[j]));
            if k > i {
                assert(before(a[i], a[k]));
                assert(before(a[i], a[i]));
            }
        }
    }
}

/// Two sequences in strictly ascending order that hold the same items
/// are the same sequence.
pub proof fn lemma_sorted_unique<A>(a: Seq<A>, b: Seq<A>, before: spec_fn(A, A) -> bool)
    requires
        is_strict_order(before),
        is_sorted_by(a, before),
        is_sorted_by(b, before),
        forall|x: A| a.contains(x) <==> b.contains(x),
    ensures
        a == b,
{
    if a.len() <= b.len() {
        lemma_sorted_prefix(a, b, before, a.len() as int);
        if a.len() < b.len() {
            let extra = b[a.len() as int];
            assert(b.contains(extra));
            assert(a.contains(extra));
            let k = choose|k: int| 0 <= k < a.len() && a[k] == extra;
            assert(b[k] == a[k]);
            assert(before(b[k], b[a.len() as int]));
        }
    } else {
        lemma_sorted_prefix(a, b, before, b.len() as int);
        let extra = a[b.len() as int];
        assert(a.contains(extra));
        assert(b.contains(extra));
        let k = choose|k: int| 0 <= k < b.len() && b[k] == extra;
        assert(a[k] == b[k]);
        assert(before(a[k], a[b.len() as int]));
    }
    assert(a =~= b);
}

} // verus!
