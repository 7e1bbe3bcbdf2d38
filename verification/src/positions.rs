//! Positional intersection with slop: the primitive behind ordered-token
//! pattern matching. Given the sorted position lists of two terms in a
//! document, it keeps those positions of the right term that are preceded
//! (within `slop`) by a position of the left term.

use vstd::prelude::*;

verus! {

/// A left position `l` can serve a right position `r` when it lies in the
/// window `[r - slop, r]` (clipped at zero, which is automatic for `nat`-like
/// unsigned values).
pub open spec fn in_window(l: u32, r: u32, slop: u32) -> bool {
    r as int - slop as int <= l as int <= r as int
}

/// Some position of `left` at index `li` or later lies in the window of `r`.
pub open spec fn has_match_from(left: Seq<u32>, li: int, r: u32, slop: u32) -> bool {
    exists|i: int| li <= i < left.len() && in_window(left[i], r, slop)
}

/// Some position of `left` lies in the window of `r`.
pub open spec fn has_match(left: Seq<u32>, r: u32, slop: u32) -> bool {
    has_match_from(left, 0, r, slop)
}

/// The subsequence of `right` whose positions are served by some left
/// position within `slop`.
pub open spec fn slop_intersection(left: Seq<u32>, right: Seq<u32>, slop: u32) -> Seq<u32> {
    right.filter(|r: u32| has_match(left, r, slop))
}

/// Position lists are produced in non-decreasing order.
pub open spec fn position_sorted(s: Seq<u32>) -> bool {
    forall|i: int, j: int| 0 <= i <= j < s.len() ==> s[i] <= s[j]
}

pub(crate) proof fn lemma_filter_all_false(s: Seq<u32>, pred: spec_fn(u32) -> bool)
    requires
        forall|i: int| 0 <= i < s.len() ==> !pred(s[i]),
    ensures
        s.filter(pred) == Seq::<u32>::empty(),
    decreases s.len(),
{
    reveal(Seq::filter);
    if s.len() != 0 {
        lemma_filter_all_false(s.drop_last(), pred);
    }
}

proof fn lemma_filter_push(s: Seq<u32>, x: u32, pred: spec_fn(u32) -> bool)
    ensures
        pred(x) ==> s.push(x).filter(pred) == s.filter(pred).push(x),
        !pred(x) ==> s.push(x).filter(pred) == s.filter(pred),
{
    reveal(Seq::filter);
    assert(s.push(x).drop_last() == s);
    assert(s.push(x).last() == x);
}

/// Every element the intersection keeps comes from `right` and is served by
/// a left position; every position of `right` that is served is kept. This
/// is the membership reading of the `filter` definition.
pub proof fn lemma_slop_intersection_characterization(
    left: Seq<u32>,
    right: Seq<u32>,
    slop: u32,
)
    ensures
        forall|r: u32|
            slop_intersection(left, right, slop).contains(r) ==> right.contains(r)
                && has_match(left, r, slop),
        forall|j: int|
            0 <= j < right.len() && has_match(left, right[j], slop)
                ==> slop_intersection(left, right, slop).contains(right[j]),
    decreases right.len(),
{
    if right.len() > 0 {
        let prefix = right.drop_last();
        let last = right.last();
        lemma_slop_intersection_characterization(left, prefix, slop);
        lemma_filter_push(prefix, last, |r: u32| has_match(left, r, slop));
        assert(prefix.push(last) == right);
        assert forall|r: u32| slop_intersection(left, right, slop).contains(r) implies right
            .contains(r) && has_match(left, r, slop) by {
            if r == last && has_match(left, last, slop) {
                assert(right[right.len() - 1] == last);
            } else {
                assert(slop_intersection(left, prefix, slop).contains(r));
                if prefix.contains(r) {
                    let j = choose|j: int| 0 <= j < prefix.len() && prefix[j] == r;
                    assert(right[j] == r);
                }
            }
        }
        assert forall|j: int|
            0 <= j < right.len() && has_match(left, right[j], slop) implies slop_intersection(
            left,
            right,
            slop,
        ).contains(right[j]) by {
            if j < right.len() - 1 {
                assert(prefix[j] == right[j]);
                assert(slop_intersection(left, prefix, slop).contains(right[j]));
                let k = choose|k: int|
                    0 <= k < slop_intersection(left, prefix, slop).len()
                        && slop_intersection(left, prefix, slop)[k] == right[j];
                if has_match(left, last, slop) {
                    assert(slop_intersection(left, right, slop)[k] == right[j]);
                } else {
                    assert(slop_intersection(left, right, slop)[k] == right[j]);
                }
            } else {
                assert(has_match(left, last, slop));
                let kept = slop_intersection(left, right, slop);
                assert(kept.last() == last);
            }
        }
    }
}

/// Walks `left` and `right` with two cursors and collects into `out` exactly
/// those positions of `right` that have a left position in their slop
/// window. Both inputs must be sorted; the output is the matching
/// subsequence of `right`, in order.
pub fn intersection_with_slop(left: &Vec<u32>, right: &Vec<u32>, out: &mut Vec<u32>, slop: u32) -> (count: usize)
    requires
        position_sorted(left@),
        position_sorted(right@),
    ensures
        final(out)@ == slop_intersection(left@, right@, slop),
        count == final(out)@.len(),
{
    out.clear();
    let ghost pred = |r: u32| has_match(left@, r, slop);
    let mut left_index: usize = 0;
    let mut right_index: usize = 0;
    let left_len = left.len();
    let right_len = right.len();
    while left_index < left_len && right_index < right_len
        invariant
            left_len == left@.len(),
            right_len == right@.len(),
            left_index <= left_len,
            right_index <= right_len,
            position_sorted(left@),
            position_sorted(right@),
            pred == |r: u32| has_match(left@, r, slop),
            out@ == right@.take(right_index as int).filter(pred),
            forall|rj: int|
                right_index <= rj < right@.len() ==> (has_match(left@, right@[rj], slop)
                    <==> has_match_from(left@, left_index as int, right@[rj], slop)),
        decreases left_len - left_index + right_len - right_index,
    {
        let left_val = left[left_index];
        let right_val = right[right_index];

        let right_slop = if right_val >= slop {
            right_val - slop
        } else {
            0
        };

        if left_val < right_slop {
            // `left_val` is below the window of every remaining right
            // position, so it can never serve one again.
            assert forall|rj: int|
                right_index <= rj < right@.len() implies (has_match(left@, right@[rj], slop)
                    <==> has_match_from(left@, left_index as int + 1, right@[rj], slop)) by {
                assert(right@[right_index as int] <= right@[rj]);
                assert(!in_window(left_val, right@[rj], slop));
                assert(has_match_from(left@, left_index as int, right@[rj], slop)
                    <==> has_match_from(left@, left_index as int + 1, right@[rj], slop));
            }
            left_index += 1;
        } else if left_val <= right_val {
            // In the window: move up to the best (largest) left position
            // that still serves `right_val`, then keep `right_val`.
            while left_index + 1 < left_len && left[left_index + 1] <= right_val
                invariant
                    left_index < left_len,
                    right_index < right_len,
                    left_len == left@.len(),
                    right_len == right@.len(),
                    position_sorted(left@),
                    position_sorted(right@),
                    right_val == right@[right_index as int],
                    in_window(left@[left_index as int], right_val, slop),
                    forall|rj: int|
                        right_index <= rj < right@.len() ==> (has_match(left@, right@[rj], slop)
                            <==> has_match_from(left@, left_index as int, right@[rj], slop)),
                decreases left_len - left_index,
            {
                // The next left position still serves `right_val`, and serves
                // every later right position at least as well.
                assert forall|rj: int|
                    right_index <= rj < right@.len() implies (has_match_from(
                    left@,
                    left_index as int,
                    right@[rj],
                    slop,
                ) <==> has_match_from(left@, left_index as int + 1, right@[rj], slop)) by {
                    assert(right@[right_index as int] <= right@[rj]);
                    if in_window(left@[left_index as int], right@[rj], slop) {
                        assert(left@[left_index as int] <= left@[left_index as int + 1]);
                        assert(in_window(left@[left_index as int + 1], right@[rj], slop));
                    }
                }
                left_index += 1;
            }
            assert(has_match_from(left@, left_index as int, right_val, slop));
            assert(pred(right_val));
            proof {
                lemma_filter_push(right@.take(right_index as int), right_val, pred);
                assert(right@.take(right_index as int).push(right_val) == right@.take(
                    right_index as int + 1,
                ));
            }
            out.push(right_val);
            right_index += 1;
        } else {
            // All remaining left positions are above the window of
            // `right_val`: it is not part of the intersection.
            assert(!has_match_from(left@, left_index as int, right_val, slop)) by {
                assert forall|i: int|
                    left_index <= i < left@.len() implies !in_window(left@[i], right_val, slop) by {
                    assert(left@[left_index as int] <= left@[i]);
                }
            }
            proof {
                lemma_filter_push(right@.take(right_index as int), right_val, pred);
                assert(right@.take(right_index as int).push(right_val) == right@.take(
                    right_index as int + 1,
                ));
            }
            right_index += 1;
        }
    }
    proof {
        if right_index < right_len {
            // The left list is exhausted: nothing further can match.
            assert forall|rj: int|
                right_index <= rj < right@.len() implies !has_match(left@, right@[rj], slop) by {
                assert(!has_match_from(left@, left_index as int, right@[rj], slop));
            }
            let rest = right@.skip(right_index as int);
            assert(forall|i: int|
                0 <= i < rest.len() ==> !pred(#[trigger] rest[i])) by {
                assert(forall|i: int|
                    0 <= i < rest.len() ==> #[trigger] rest[i] == right@[right_index + i]);
            }
            lemma_filter_all_false(rest, pred);
            right@.lemma_split_at(right_index as int);
            assert(right@.take(right_index as int) + rest == right@);
            Seq::filter_distributes_over_add(
                right@.take(right_index as int),
                rest,
                pred,
            );
            assert(right@.filter(pred) == right@.take(right_index as int).filter(pred) + rest
                .filter(pred));
            assert(right@.filter(pred) =~= right@.take(right_index as int).filter(pred));
        } else {
            assert(right@.take(right_index as int) == right@);
        }
    }
    out.len()
}

} // verus!
