use vstd::prelude::*;

use crate::messages::ActionType;
use crate::types::Coord;

verus! {

/// The step a movement action takes, as (dx, dy); (0, 0) for every other action.
pub open spec fn move_delta(action: ActionType) -> (int, int) {
    match action {
        ActionType::MoveUp => (0, -1),
        ActionType::MoveDown => (0, 1),
        ActionType::MoveLeft => (-1, 0),
        ActionType::MoveRight => (1, 0),
        ActionType::MoveUpLeft => (-1, -1),
        ActionType::MoveUpRight => (1, -1),
        ActionType::MoveDownLeft => (-1, 1),
        ActionType::MoveDownRight => (1, 1),
        _ => (0, 0),
    }
}

/// `c` moved by `d` stays on the i32 grid.
pub open spec fn step_fits(c: Coord, d: (int, int)) -> bool {
    &&& i32::MIN <= c.x + d.0 <= i32::MAX
    &&& i32::MIN <= c.y + d.1 <= i32::MAX
}

/// Whether the step `action` takes from `current` stays on the i32 grid.
pub fn move_fits(current: Coord, action: &ActionType) -> (r: bool)
    ensures
        r == step_fits(current, move_delta(*action)),
{
    let (dx, dy): (i64, i64) = match action {
        ActionType::MoveUp => (0, -1),
        ActionType::MoveDown => (0, 1),
        ActionType::MoveLeft => (-1, 0),
        ActionType::MoveRight => (1, 0),
        ActionType::MoveUpLeft => (-1, -1),
        ActionType::MoveUpRight => (1, -1),
        ActionType::MoveDownLeft => (-1, 1),
        ActionType::MoveDownRight => (1, 1),
        _ => (0, 0),
    };
    let x = current.x as i64 + dx;
    let y = current.y as i64 + dy;
    -2147483648 <= x && x <= 2147483647 && -2147483648 <= y && y <= 2147483647
}

/// Predict the result of a move action: the position after the step it takes.
pub fn predict_move(current: Coord, action: &ActionType) -> (r: Coord)
    requires
        step_fits(current, move_delta(*action)),
    ensures
        r.x == current.x + move_delta(*action).0,
        r.y == current.y + move_delta(*action).1,
{
    match action {
        ActionType::MoveUp => Coord::new(current.x, current.y - 1),
        ActionType::MoveDown => Coord::new(current.x, current.y + 1),
        ActionType::MoveLeft => Coord::new(current.x - 1, current.y),
        ActionType::MoveRight => Coord::new(current.x + 1, current.y),
        ActionType::MoveUpLeft => Coord::new(current.x - 1, current.y - 1),
        ActionType::MoveUpRight => Coord::new(current.x + 1, current.y - 1),
        ActionType::MoveDownLeft => Coord::new(current.x - 1, current.y + 1),
        ActionType::MoveDownRight => Coord::new(current.x + 1, current.y + 1),
        _ => current,
    }
}

/// Check whether a rollback is needed: the confirmed position when the prediction
/// was wrong, `None` when it matches.
pub fn check_rollback(predicted: Coord, confirmed: Coord) -> (r: Option<Coord>)
    ensures
        r == (if predicted == confirmed { None } else { Some(confirmed) }),
{
    if predicted != confirmed {
        Some(confirmed)
    } else {
        None
    }
}

} // verus!
