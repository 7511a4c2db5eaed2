//! Arrangements of positions under a strict order.

use vstd::prelude::*;

verus! {

/// Every position in `p` comes, under `prec`, before every later one.
pub open spec fn strictly_sorted_by(p: Seq<int>, prec: spec_fn(int, int) -> bool) -> bool {
    forall|k: int, l: int| 0 <= k < l < p.len() ==> prec(#[trigger] p[k], #[trigger] p[l])
}

/// Two arrangements of the same positions that are both strictly sorted by
/// one asymmetric order are the same arrangement.
pub proof fn lemma_sorted_arrangement_unique(
    p1: Seq<int>,
    p2: Seq<int>,
    prec: spec_fn(int, int) -> bool,
)
    requires
        strictly_sorted_by(p1, prec),
        strictly_sorted_by(p2, prec),
        forall|x: int| p1.contains(x) <==> p2.contains(x),
        forall|a: int, b: int| #[trigger] prec(a, b) ==> !prec(b, a),
    ensures
        p1 == p2,
    decreases p1.len(),
{
    if p1.len() == 0 {
        if p2.len() > 0 {
            assert(p2.contains(p2[0]));
        }
        assert(p1 =~= p2);
    } else {
        if p2.len() == 0 {
            assert(p1.contains(p1[0]));
        }
        let a = p1[0];
        let b = p2[0];
        assert(p1.contains(a));
        assert(p2.contains(b));
        if a != b {
            let j = choose|j: int| 0 <= j < p2.len() && p2[j] == a;
            let i = choose|i: int| 0 <= i < p1.len() && p1[i] == b;
            assert(prec(p1[0], p1[i]));
            assert(prec(p2[0], p2[j]));
        }
        let t1 = p1.drop_first();
        let t2 = p2.drop_first();
        assert forall|x: int| t1.contains(x) <==> t2.contains(x) by {
            if t1.contains(x) {
                let i = choose|i: int| 0 <= i < t1.len() && t1[i] == x;
                assert(p1[i + 1] == x);
                assert(prec(p1[0], p1[i + 1]));
                assert(p1.contains(x));
                let j = choose|j: int| 0 <= j < p2.len() && p2[j] == x;
                if j == 0 {
                    assert(prec(a, a));
                }
                assert(t2[j - 1] == x);
            }
            if t2.contains(x) {
                let j = choose|j: int| 0 <= j < t2.len() && t2[j] == x;
                assert(p2[j + 1] == x);
                assert(prec(p2[0], p2[j + 1]));
                assert(p2.contains(x));
                let i = choose|i: int| 0 <= i < p1.len() && p1[i] == x;
                if i == 0 {
                    assert(prec(b, b));
                }
                assert(t1[i - 1] == x);
            }
        }
        assert forall|k: int, l: int| 0 <= k < l < t1.len() implies prec(
            #[trigger] t1[k],
            #[trigger] t1[l],
        ) by {
            assert(t1[k] == p1[k + 1] && t1[l] == p1[l + 1]);
        }
        assert forall|k: int, l: int| 0 <= k < l < t2.len() implies prec(
            #[trigger] t2[k],
            #[trigger] t2[l],
        ) by {
            assert(t2[k] == p2[k + 1] && t2[l] == p2[l + 1]);
        }
        lemma_sorted_arrangement_unique(t1, t2, prec);
        assert(p1 =~= p2) by {
            assert(t1.len() == t2.len());
            assert(p1.len() == p2.len());
            assert forall|k: int| 0 <= k < p1.len() implies p1[k] == p2[k] by {
                if k > 0 {
                    assert(p1[k] == t1[k - 1]);
                    assert(p2[k] == t2[k - 1]);
                }
            }
        }
    }
}

} // verus!
