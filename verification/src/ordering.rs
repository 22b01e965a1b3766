//! Ordering of the candidates of one key: break-free candidates first, then
//! by descending score, ties in the order in which they were found.

use vstd::prelude::*;
use crate::structs::{RotatedPiece, RotatedPieceWithLeftBottom};

verus! {

/// Exclusive upper bound of the random jitter added to a score.
pub const JITTER_BOUND: usize = 99;

/// What a candidate is ordered by: its break tier, then its total score.
#[derive(Debug, Clone, Copy, PartialEq, Eq, Structural)]
pub struct SortKey {
    pub tier: u8,
    pub total: i64,
}

/// Whether a candidate with key `a` belongs strictly before one with key
/// `b`, whatever their positions: a lower break tier, or the same tier and a
/// higher total.
pub open spec fn spec_precedes(a: SortKey, b: SortKey) -> bool {
    a.tier < b.tier || (a.tier == b.tier && a.total > b.total)
}

/// Whether the candidate found at position `ia` with key `a` stands before
/// the one found at `ib` with key `b`: by key, and among equal keys the one
/// found first.
pub open spec fn goes_before(a: SortKey, ia: int, b: SortKey, ib: int) -> bool {
    spec_precedes(a, b) || (a == b && ia < ib)
}

/// Whether position `p` is listed in `order`.
pub open spec fn occurs_in(order: Seq<usize>, p: int) -> bool {
    exists|i: int| 0 <= i < order.len() && #[trigger] order[i] == p
}

/// Whether `order` lists every position of `keys` exactly once, each before
/// all those that it goes before.
pub open spec fn is_ranking(keys: Seq<SortKey>, order: Seq<usize>) -> bool {
    &&& order.len() == keys.len()
    &&& forall|i: int| 0 <= i < order.len() ==> (#[trigger] order[i]) < keys.len()
    &&& forall|i: int, j: int|
        0 <= i < j < order.len() ==> goes_before(
            keys[#[trigger] order[i] as int],
            order[i] as int,
            keys[#[trigger] order[j] as int],
            order[j] as int,
        )
    &&& forall|p: int| 0 <= p < keys.len() ==> #[trigger] occurs_in(order, p)
}

/// The key of each candidate of a group under the given jitter.
pub open spec fn sort_keys(group: Seq<RotatedPieceWithLeftBottom>, jitter: Seq<i32>) -> Seq<
    SortKey,
> {
    Seq::new(
        group.len(),
        |i: int|
            SortKey {
                tier: group[i].rotated_piece.break_count,
                total: (group[i].score + jitter[i]) as i64,
            },
    )
}

/// Whether `bucket` holds the rotated pieces of `group` in the order that
/// the keys under `jitter` give them.
pub open spec fn is_ordering_of(
    bucket: Seq<RotatedPiece>,
    group: Seq<RotatedPieceWithLeftBottom>,
    jitter: Seq<i32>,
) -> bool {
    exists|order: Seq<usize>|
        {
            &&& #[trigger] is_ranking(sort_keys(group, jitter), order)
            &&& bucket.len() == group.len()
            &&& forall|i: int|
                0 <= i < bucket.len() ==> bucket[i] == group[order[i] as int].rotated_piece
        }
}

/// Whether a bucket was ordered from `group` under some jitter below the
/// bound.
pub open spec fn is_shuffle_of(bucket: Seq<RotatedPiece>, group: Seq<RotatedPieceWithLeftBottom>) -> bool {
    exists|jitter: Seq<i32>|
        {
            &&& jitter.len() == group.len()
            &&& forall|i: int| 0 <= i < jitter.len() ==> 0 <= #[trigger] jitter[i] < JITTER_BOUND
            &&& #[trigger] is_ordering_of(bucket, group, jitter)
        }
}

/// Where the element now at `x` stood before an insertion at `pos`.
spec fn before_insert(x: int, pos: int) -> int {
    if x < pos {
        x
    } else {
        x - 1
    }
}

/// Whether key `a` belongs strictly before key `b`.
#[verifier::when_used_as_spec(spec_precedes)]
pub fn precedes(a: SortKey, b: SortKey) -> (before: bool)
    ensures
        before == spec_precedes(a, b),
{
    a.tier < b.tier || (a.tier == b.tier && a.total > b.total)
}

/// Ranks the positions of `keys`: lower tier first, then higher total, then
/// earlier position.
pub fn rank(keys: &Vec<SortKey>) -> (order: Vec<usize>)
    ensures
        is_ranking(keys@, order@),
{
    let mut order: Vec<usize> = Vec::new();
    let mut next: usize = 0;
    while next < keys.len()
        invariant
            next <= keys.len(),
            is_ranking(keys@.take(next as int), order@),
        decreases keys.len() - next,
    {
        let ghost before = order@;
        let mut pos: usize = order.len();
        while pos > 0 && precedes(keys[next], keys[order[pos - 1]])
            invariant
                next < keys.len(),
                pos <= order.len(),
                order.len() == next,
                order@ == before,
                is_ranking(keys@.take(next as int), order@),
                forall|i: int|
                    pos <= i < order.len() ==> spec_precedes(
                        keys[next as int],
                        keys[#[trigger] order[i] as int],
                    ),
            decreases pos,
        {
            pos -= 1;
        }
        order.insert(pos, next);
        proof {
            let old_keys = keys@.take(next as int);
            let new_keys = keys@.take(next + 1);
            assert forall|i: int| 0 <= i < order.len() implies (#[trigger] order[i])
                < new_keys.len() by {
                if i < pos {
                    assert(order[i] == before[i]);
                } else if i > pos {
                    assert(order[i] == before[i - 1]);
                }
            }
            assert forall|i: int, j: int| 0 <= i < j < order.len() implies goes_before(
                new_keys[#[trigger] order[i] as int],
                order[i] as int,
                new_keys[#[trigger] order[j] as int],
                order[j] as int,
            ) by {
                if i != pos {
                    assert(order[i] == before[before_insert(i, pos as int)]);
                    assert(before[before_insert(i, pos as int)] < next);
                }
                if j != pos {
                    assert(order[j] == before[before_insert(j, pos as int)]);
                    assert(before[before_insert(j, pos as int)] < next);
                }
                if i != pos && j != pos {
                    assert(goes_before(
                        old_keys[before[before_insert(i, pos as int)] as int],
                        before[before_insert(i, pos as int)] as int,
                        old_keys[before[before_insert(j, pos as int)] as int],
                        before[before_insert(j, pos as int)] as int,
                    ));
                } else if j == pos {
                    // Everything before the insertion point stays before the newcomer.
                    if pos > 0 {
                        assert(!spec_precedes(keys[next as int], keys[before[pos - 1] as int]));
                        assert(before[pos - 1] < next);
                        if i < pos - 1 {
                            assert(goes_before(
                                old_keys[before[i] as int],
                                before[i] as int,
                                old_keys[before[pos - 1] as int],
                                before[pos - 1] as int,
                            ));
                        }
                    }
                } else {
                    assert(spec_precedes(keys[next as int], keys[before[j - 1] as int]));
                }
            }
            assert forall|p: int| 0 <= p < new_keys.len() implies #[trigger] occurs_in(
                order@,
                p,
            ) by {
                if p == next {
                    assert(order[pos as int] == p);
                } else {
                    assert(occurs_in(before, p));
                    let i = choose|i: int| 0 <= i < before.len() && #[trigger] before[i] == p;
                    if i < pos {
                        assert(order[i] == p);
                    } else {
                        assert(order[i + 1] == p);
                    }
                }
            }
        }
        next += 1;
    }
    proof {
        assert(keys@.take(keys.len() as int) =~= keys@);
    }
    order
}

/// Orders the candidates of one key under the given jitter and strips them
/// to the rotated pieces.
pub fn order_group(group: &Vec<RotatedPieceWithLeftBottom>, jitter: &Vec<i32>) -> (bucket: Vec<
    RotatedPiece,
>)
    requires
        jitter.len() == group.len(),
    ensures
        is_ordering_of(bucket@, group@, jitter@),
{
    let mut keys: Vec<SortKey> = Vec::new();
    let mut i: usize = 0;
    while i < group.len()
        invariant
            i <= group.len(),
            jitter.len() == group.len(),
            keys.len() == i,
            forall|k: int| 0 <= k < i ==> keys[k] == sort_keys(group@, jitter@)[k],
        decreases group.len() - i,
    {
        keys.push(
            SortKey {
                tier: group[i].rotated_piece.break_count,
                total: group[i].score as i64 + jitter[i] as i64,
            },
        );
        i += 1;
    }
    assert(keys@ =~= sort_keys(group@, jitter@));
    let order = rank(&keys);
    let mut bucket: Vec<RotatedPiece> = Vec::new();
    let mut i: usize = 0;
    while i < order.len()
        invariant
            i <= order.len(),
            order.len() == group.len(),
            is_ranking(keys@, order@),
            keys.len() == group.len(),
            bucket.len() == i,
            forall|k: int| 0 <= k < i ==> bucket[k] == group[order[k] as int].rotated_piece,
        decreases order.len() - i,
    {
        bucket.push(group[order[i]].rotated_piece);
        i += 1;
    }
    assert(is_ranking(sort_keys(group@, jitter@), order@));
    bucket
}

/// The rotated pieces of a group, in the order in which they were found.
pub open spec fn pieces_of(group: Seq<RotatedPieceWithLeftBottom>) -> Seq<RotatedPiece> {
    Seq::new(group.len(), |k: int| group[k].rotated_piece)
}

/// Break tiers are in order in any bucket that was ordered from a group: no
/// candidate with a break stands before one without. The bucket holds the
/// rotated pieces of the group and no others.
pub proof fn lemma_ordering_keeps_tiers(
    bucket: Seq<RotatedPiece>,
    group: Seq<RotatedPieceWithLeftBottom>,
    jitter: Seq<i32>,
)
    requires
        is_ordering_of(bucket, group, jitter),
    ensures
        bucket.len() == group.len(),
        forall|i: int, j: int|
            0 <= i < j < bucket.len() ==> (#[trigger] bucket[i]).break_count <= (
            #[trigger] bucket[j]).break_count,
        forall|i: int| 0 <= i < bucket.len() ==> pieces_of(group).contains(#[trigger] bucket[i]),
        forall|k: int|
            0 <= k < group.len() ==> bucket.contains(#[trigger] pieces_of(group)[k]),
{
    let keys = sort_keys(group, jitter);
    let order = choose|order: Seq<usize>|
        {
            &&& #[trigger] is_ranking(keys, order)
            &&& bucket.len() == group.len()
            &&& forall|i: int|
                0 <= i < bucket.len() ==> bucket[i] == group[order[i] as int].rotated_piece
        };
    assert forall|i: int, j: int| 0 <= i < j < bucket.len() implies (#[trigger] bucket[i]).break_count
        <= (#[trigger] bucket[j]).break_count by {
        assert(goes_before(
            keys[order[i] as int],
            order[i] as int,
            keys[order[j] as int],
            order[j] as int,
        ));
    }
    assert forall|i: int| 0 <= i < bucket.len() implies pieces_of(group).contains(
        #[trigger] bucket[i],
    ) by {
        assert(pieces_of(group)[order[i] as int] == bucket[i]);
    }
    assert forall|k: int| 0 <= k < group.len() implies bucket.contains(
        #[trigger] pieces_of(group)[k],
    ) by {
        assert(occurs_in(order, k));
        let i = choose|i: int| 0 <= i < order.len() && #[trigger] order[i] == k;
        assert(bucket[i] == group[order[i] as int].rotated_piece);
    }
}

} // verus!
