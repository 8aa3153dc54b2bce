//! Small facts about membership and distinctness in work stacks.
//!
//! Every strategy keeps its pending work in a `Vec<usize>` of entry indices
//! and reasons about pushes, pops and unordered removals.  These lemmas
//! relate those operations to `contains` and `no_duplicates`.

use vstd::prelude::*;

verus! {

/// Membership after a push.
pub proof fn lemma_push_contains(s: Seq<usize>, x: usize, j: usize)
    ensures
        s.push(x).contains(j) <==> (s.contains(j) || j == x),
{
    if s.contains(j) {
        let k = choose|k: int| 0 <= k < s.len() && s[k] == j;
        assert(s.push(x)[k] == j);
    }
    if j == x {
        assert(s.push(x)[s.len() as int] == j);
    }
    if s.push(x).contains(j) && j != x {
        let k = choose|k: int| 0 <= k < s.push(x).len() && s.push(x)[k] == j;
        assert(s[k] == j);
    }
}

/// Pushing a fresh element keeps a stack duplicate-free.
pub proof fn lemma_push_no_dup(s: Seq<usize>, x: usize)
    requires
        s.no_duplicates(),
        !s.contains(x),
    ensures
        s.push(x).no_duplicates(),
{
    assert forall|p: int, q: int|
        0 <= p < s.push(x).len() && 0 <= q < s.push(x).len() && p != q implies s.push(x)[p]
        != s.push(x)[q] by {
        if p < s.len() && q < s.len() {
        } else if p < s.len() {
            assert(s.contains(s[p])) by {
                assert(s[p] == s[p]);
            }
        } else if q < s.len() {
            assert(s.contains(s[q])) by {
                assert(s[q] == s[q]);
            }
        }
    }
}

/// Membership and distinctness after popping the top of the stack.
pub proof fn lemma_pop_facts(s: Seq<usize>)
    requires
        s.len() > 0,
        s.no_duplicates(),
    ensures
        s.drop_last().no_duplicates(),
        !s.drop_last().contains(s.last()),
        forall|j: usize| #[trigger] s.contains(j) <==> (s.drop_last().contains(j) || s.last() == j),
{
    assert forall|j: usize|
        #[trigger] s.contains(j) <==> (s.drop_last().contains(j) || s.last() == j) by {
        if s.contains(j) {
            let k = choose|k: int| 0 <= k < s.len() && s[k] == j;
            if k < s.len() - 1 {
                assert(s.drop_last()[k] == j);
            }
        }
        if s.drop_last().contains(j) {
            let k = choose|k: int| 0 <= k < s.drop_last().len() && s.drop_last()[k] == j;
            assert(s[k] == j);
        }
        if s.last() == j {
            assert(s[s.len() - 1] == j);
        }
    }
    if s.drop_last().contains(s.last()) {
        let k = choose|k: int| 0 <= k < s.drop_last().len() && s.drop_last()[k] == s.last();
        assert(s[k] == s[s.len() - 1]);
        assert(false);
    }
}

/// Membership and distinctness after an unordered removal, as performed by
/// `swap_remove`: the element at `i` is replaced by the last element and the
/// last slot is dropped.
pub proof fn lemma_swap_remove_facts(s: Seq<usize>, i: int)
    requires
        0 <= i < s.len(),
        s.no_duplicates(),
    ensures
        s.update(i, s.last()).drop_last().no_duplicates(),
        !s.update(i, s.last()).drop_last().contains(s[i]),
        forall|j: usize| #[trigger] s.contains(j) <==> (s.update(i, s.last()).drop_last().contains(
            j,
        ) || s[i] == j),
{
    let r = s.update(i, s.last()).drop_last();
    assert forall|j: usize| #[trigger] s.contains(j) <==> (r.contains(j) || s[i] == j) by {
        if s.contains(j) && s[i] != j {
            let k = choose|k: int| 0 <= k < s.len() && s[k] == j;
            if k < s.len() - 1 {
                assert(r[k] == j);
            } else {
                // j sat in the last slot, which now lives at position i
                // unless i itself was the last slot.
                assert(i < s.len() - 1);
                assert(r[i] == j);
            }
        }
        if r.contains(j) {
            let k = choose|k: int| 0 <= k < r.len() && r[k] == j;
            if k == i {
                assert(s[s.len() - 1] == j);
            } else {
                assert(s[k] == j);
            }
        }
        if s[i] == j {
            assert(s.contains(j)) by {
                assert(s[i] == j);
            }
        }
    }
    assert forall|p: int, q: int| 0 <= p < r.len() && 0 <= q < r.len() && p != q implies r[p]
        != r[q] by {
        let sp: int = if p == i { s.len() - 1 } else { p };
        let sq: int = if q == i { s.len() - 1 } else { q };
        assert(r[p] == s[sp]);
        assert(r[q] == s[sq]);
    }
    if r.contains(s[i]) {
        let k = choose|k: int| 0 <= k < r.len() && r[k] == s[i];
        if k == i {
            assert(s[s.len() - 1] == s[i]);
            assert(s.len() - 1 == i);
            assert(false);
        } else {
            assert(s[k] == s[i]);
            assert(false);
        }
    }
}

} // verus!
