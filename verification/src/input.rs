use vstd::prelude::*;
use crate::vector::IVec2;
use crate::grid::{GCell, WorldGrid, in_grid};
use crate::line::{line_cells, line_fits};

verus! {

/// The drawing mode after a frame in which the left button is `lmb` and the
/// right button `rmb`, given the mode of the stroke under way, if any.
///
/// With neither button held there is no stroke (`None`). A new stroke sets
/// cells when the left button is held and clears them otherwise. A stroke
/// under way switches to setting when only the left button is held, to
/// clearing when only the right button is held, and keeps its mode when both
/// are held.
pub open spec fn stroke_mode(lmb: bool, rmb: bool, current: Option<GCell>) -> Option<GCell> {
    if !lmb && !rmb {
        None
    } else {
        match current {
            None => Some(if lmb { GCell::IsSet } else { GCell::Unset }),
            Some(mode) => Some(
                if lmb && !rmb {
                    GCell::IsSet
                } else if !lmb && rmb {
                    GCell::Unset
                } else {
                    mode
                },
            ),
        }
    }
}

/// The buttons decide the mode: none held ends the stroke, the left button
/// alone paints, the right button alone erases, whatever the stroke did
/// before; with both held a stroke under way keeps its mode and a new one
/// paints.
pub proof fn law_buttons_decide_the_mode(lmb: bool, rmb: bool, current: Option<GCell>)
    ensures
        !lmb && !rmb ==> stroke_mode(lmb, rmb, current) == None::<GCell>,
        lmb && !rmb ==> stroke_mode(lmb, rmb, current) == Some(GCell::IsSet),
        !lmb && rmb ==> stroke_mode(lmb, rmb, current) == Some(GCell::Unset),
        lmb && rmb && current is None ==> stroke_mode(lmb, rmb, current) == Some(GCell::IsSet),
        lmb && rmb && current is Some ==> stroke_mode(lmb, rmb, current) == current,
{
}

/// The drawing mode after a frame in which the left button is `lmb` and the
/// right button `rmb`, given the mode of the stroke under way, if any.
pub fn next_mode(lmb: bool, rmb: bool, current: Option<GCell>) -> (r: Option<GCell>)
    ensures
        r == stroke_mode(lmb, rmb, current),
{
    if !lmb && !rmb {
        return None;
    }
    match current {
        Some(mode) => {
            // Swap the mode if neccecary
            let mode = match (lmb, rmb, mode) {
                (true, false, GCell::Unset) => GCell::IsSet,
                (false, true, GCell::IsSet) => GCell::Unset,
                _ => mode,
            };
            Some(mode)
        },
        None => {
            // prioritize LMB
            // because lmb == false and lmb || rmb == true then rmb == true
            let mode = if lmb { GCell::IsSet } else { GCell::Unset };
            Some(mode)
        },
    }
}

/// One frame of drawing with the mouse: `last` is the stroke under way (its
/// mode and the cell the cursor was last seen in), `cursor` the cell under
/// the cursor this frame, if the cursor is over the window. Returns the
/// stroke to carry into the next frame.
///
/// With no button held the stroke ends and the grid is left alone. With the
/// cursor outside the window nothing changes. Otherwise a new stroke paints
/// the cell under the cursor, and a stroke under way paints the line from
/// its last cell to the cell under the cursor, in the mode of this frame.
pub fn stroke_step(
    grid: &mut WorldGrid,
    last: Option<(GCell, IVec2)>,
    lmb: bool,
    rmb: bool,
    cursor: Option<IVec2>,
) -> (r: Option<(GCell, IVec2)>)
    requires
        (lmb || rmb) && cursor is Some && last is None ==> in_grid(cursor->0),
        (lmb || rmb) && cursor is Some && last is Some ==> line_fits((last->0).1, cursor->0),
    ensures
        !lmb && !rmb ==> r is None && *final(grid) == *old(grid),
        (lmb || rmb) && cursor is None ==> r == last && *final(grid) == *old(grid),
        (lmb || rmb) && cursor is Some ==> {
            let mode = stroke_mode(lmb, rmb, match last { Some(l) => Some(l.0), None => None })->0;
            let c = cursor->0;
            &&& r == Some((mode, c))
            &&& forall|q: IVec2| in_grid(q) ==> #[trigger] final(grid).cell(q) == match last {
                None => if q == c { mode } else { old(grid).cell(q) },
                Some(l) => if line_cells(l.1, c).contains((q.x as int, q.y as int)) {
                    mode
                } else {
                    old(grid).cell(q)
                },
            }
        },
{
    let current = match last {
        Some(l) => Some(l.0),
        None => None,
    };
    let mode = match next_mode(lmb, rmb, current) {
        Some(mode) => mode,
        None => return None,
    };
    match cursor {
        None => last,
        Some(c) => {
            match last {
                Some(l) => grid.set_line(l.1, c, mode),
                None => grid.set(c, mode),
            }
            Some((mode, c))
        },
    }
}

} // verus!
