use vstd::prelude::*;

verus! {

/// No value occurs twice in `q`.
pub open spec fn distinct(q: Seq<int>) -> bool {
    forall|i: int, j: int| 0 <= i < j < q.len() ==> q[i] != q[j]
}

/// All of `q` lies in `0..n`.
pub open spec fn within(q: Seq<int>, n: int) -> bool {
    forall|i: int| 0 <= i < q.len() ==> 0 <= #[trigger] q[i] < n
}

/// A sequence of distinct values below `n` has at most `n` entries.
pub proof fn lemma_distinct_bounded(q: Seq<int>, n: int)
    requires
        distinct(q),
        within(q, n),
        0 <= n,
    ensures
        q.len() <= n,
    decreases n,
{
    if q.len() == 0 {
    } else if n == 0 {
        assert(0 <= q[0] < n);
    } else if exists|i: int| 0 <= i < q.len() && q[i] == n - 1 {
        let i = choose|i: int| 0 <= i < q.len() && q[i] == n - 1;
        let rest = q.remove(i);
        assert forall|a: int| 0 <= a < rest.len() implies 0 <= #[trigger] rest[a] < n - 1 by {
            let b = if a < i { a } else { a + 1 };
            assert(rest[a] == q[b]);
            assert(0 <= q[b] < n);
        }
        assert forall|a: int, b: int| 0 <= a < b < rest.len() implies rest[a] != rest[b] by {
            let a2 = if a < i { a } else { a + 1 };
            let b2 = if b < i { b } else { b + 1 };
            assert(rest[a] == q[a2] && rest[b] == q[b2]);
        }
        lemma_distinct_bounded(rest, n - 1);
    } else {
        assert forall|a: int| 0 <= a < q.len() implies 0 <= #[trigger] q[a] < n - 1 by {
            assert(0 <= q[a] < n);
        }
        lemma_distinct_bounded(q, n - 1);
    }
}

} // verus!
