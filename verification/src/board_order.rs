//! The visitation order: in which sequence the search walks the cells of the
//! board.

use vstd::prelude::*;
use crate::structs::SearchIndex;

verus! {

/// Whether the walk `order` visits the cell at board position `cell` before
/// step `step`.
#[verifier::opaque]
pub open spec fn visited_before(order: Seq<SearchIndex>, step: int, cell: int) -> bool {
    exists|earlier: int| 0 <= earlier < step && (#[trigger] order[earlier]).cell() == cell
}

/// Whether `order` is a walk that the search can follow: it names each of
/// the 256 cells of the board once, starts in the bottom-left corner, and
/// comes to a cell only after the cell to its left and the cell below it,
/// whose colours the new piece has to match.
pub open spec fn valid_board_order(order: Seq<SearchIndex>) -> bool {
    &&& order.len() == 256
    &&& order[0].row == 0
    &&& order[0].column == 0
    &&& forall|step: int| 0 <= step < 256 ==> (#[trigger] order[step]).on_board()
    &&& forall|s: int, t: int|
        0 <= s < t < 256 ==> (#[trigger] order[s]).cell() != (#[trigger] order[t]).cell()
    &&& forall|step: int|
        0 <= step < 256 && (#[trigger] order[step]).column > 0 ==> visited_before(
            order,
            step,
            order[step].cell() - 1,
        )
    &&& forall|step: int|
        0 <= step < 256 && (#[trigger] order[step]).row > 0 ==> visited_before(
            order,
            step,
            order[step].cell() - 16,
        )
}

/// The position of a cell in the row-major board.
pub fn cell_of(index: SearchIndex) -> (cell: usize)
    requires
        index.on_board(),
    ensures
        cell == index.cell(),
        cell < 256,
{
    index.row as usize * 16 + index.column as usize
}

/// Checks at run time that `order` is a walk that the search can follow.
pub fn is_valid_board_order(order: &[SearchIndex; 256]) -> (valid: bool)
    ensures
        valid == valid_board_order(order@),
{
    proof {
        reveal(visited_before);
    }
    if order[0].row != 0 || order[0].column != 0 {
        return false;
    }
    let mut seen = [false;256];
    let mut step: usize = 0;
    while step < 256
        invariant
            step <= 256,
            forall|s: int| 0 <= s < step ==> (#[trigger] order[s]).on_board(),
            forall|s: int, t: int|
                0 <= s < t < step ==> (#[trigger] order[s]).cell() != (#[trigger] order[t]).cell(),
            forall|cell: int|
                0 <= cell < 256 ==> (#[trigger] seen[cell] <==> visited_before(
                    order@,
                    step as int,
                    cell,
                )),
            forall|s: int|
                0 <= s < step && (#[trigger] order[s]).column > 0 ==> visited_before(
                    order@,
                    s,
                    order[s].cell() - 1,
                ),
            forall|s: int|
                0 <= s < step && (#[trigger] order[s]).row > 0 ==> visited_before(
                    order@,
                    s,
                    order[s].cell() - 16,
                ),
        decreases 256 - step,
    {
        proof {
            reveal(visited_before);
        }
        let index = order[step];
        if index.row >= 16 || index.column >= 16 {
            assert(!order[step as int].on_board());
            return false;
        }
        let cell = cell_of(index);
        if seen[cell] {
            proof {
                let s = choose|s: int| 0 <= s < step && (#[trigger] order[s]).cell() == cell;
                assert(order[s].cell() == order[step as int].cell());
            }
            return false;
        }
        if index.column > 0 && !seen[cell - 1] {
            assert(!visited_before(order@, step as int, order[step as int].cell() - 1));
            return false;
        }
        if index.row > 0 && !seen[cell - 16] {
            assert(!visited_before(order@, step as int, order[step as int].cell() - 16));
            return false;
        }
        seen[cell] = true;
        proof {
            assert forall|c: int| 0 <= c < 256 implies (#[trigger] seen[c] <==> visited_before(
                order@,
                step + 1,
                c,
            )) by {
                if c == cell {
                    assert(order[step as int].cell() == c);
                } else if visited_before(order@, step as int, c) {
                    let s = choose|s: int| 0 <= s < step && (#[trigger] order[s]).cell() == c;
                    assert(0 <= s < step + 1 && order[s].cell() == c);
                } else if visited_before(order@, step + 1, c) {
                    let s = choose|s: int| 0 <= s < step + 1 && (#[trigger] order[s]).cell() == c;
                    assert(s < step);
                }
            }
        }
        step += 1;
    }
    true
}

/// The walk that goes row by row from the bottom, each row from the left.
pub fn row_major_order() -> (order: [SearchIndex; 256])
    ensures
        valid_board_order(order@),
        forall|step: int|
            0 <= step < 256 ==> (#[trigger] order[step]).row == step / 16 && order[step].column
                == step % 16,
{
    let mut order = [SearchIndex { row: 0, column: 0 };256];
    let mut step: usize = 0;
    while step < 256
        invariant
            step <= 256,
            forall|s: int|
                0 <= s < step ==> (#[trigger] order[s]).row == s / 16 && order[s].column == s % 16,
            order[0].row == 0 && order[0].column == 0,
        decreases 256 - step,
    {
        order[step] = SearchIndex { row: (step / 16) as u8, column: (step % 16) as u8 };
        step += 1;
    }
    proof {
        reveal(visited_before);
        assert forall|s: int| 0 <= s < 256 && (#[trigger] order[s]).column > 0 implies visited_before(
            order@,
            s,
            order[s].cell() - 1,
        ) by {
            assert(order[s - 1].cell() == order[s].cell() - 1);
        }
        assert forall|s: int| 0 <= s < 256 && (#[trigger] order[s]).row > 0 implies visited_before(
            order@,
            s,
            order[s].cell() - 16,
        ) by {
            assert(order[s - 16].cell() == order[s].cell() - 16);
        }
    }
    order
}

} // verus!
