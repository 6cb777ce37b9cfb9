//! One blast of fire travelling over the board, a cell at a time.
//!
//! A bomb that goes off sends a burst in each of the four directions. A burst
//! carries the bomb's reach as the number of steps it may still take, and the
//! bomb's kind. Before each step it looks at the cell in front of it and
//! either moves on, turns, stops, or is swallowed by another bomb, which it
//! sets off. Two choices are fixed here: fire takes one point of health from
//! an enemy it passes, and a rock that a penetrating blast passes stays
//! where it is.

use vstd::prelude::*;
use crate::grid::{
    bomb_count, cell_at, lemma_bombs_with_cell, same_shape, with_cell, Grid,
};
use crate::maze_types::{BombType, FireDirection, MazeElement, NextAction};

verus! {

/// A burst of fire: where it is, how many steps it may still take, where it
/// is heading, and the kind of the bomb it came from.
pub struct Burst {
    pub x: int,
    pub y: int,
    pub steps: nat,
    pub direction: FireDirection,
    pub kind: BombType,
}

/// The coordinate `distance` cells away from `(x, y)` in the given direction.
pub open spec fn ahead(x: int, y: int, direction: FireDirection, distance: int) -> (int, int) {
    match direction {
        FireDirection::Up => (x, y - distance),
        FireDirection::Down => (x, y + distance),
        FireDirection::Left => (x - distance, y),
        FireDirection::Right => (x + distance, y),
    }
}

/// The coordinate one cell away from `(x, y)` in the given direction.
pub open spec fn neighbour(x: int, y: int, direction: FireDirection) -> (int, int) {
    ahead(x, y, direction, 1)
}

/// What a burst of the given kind does on meeting a cell, or the edge of the
/// board where there is no cell.
pub open spec fn reaction(cell: Option<MazeElement>, kind: BombType) -> NextAction {
    match cell {
        None => NextAction::Stop,
        Some(MazeElement::Empty) => NextAction::Continue,
        Some(MazeElement::Enemy { .. }) => NextAction::Continue,
        Some(MazeElement::Wall) => NextAction::Stop,
        Some(MazeElement::Rock) => match kind {
            BombType::Normal => NextAction::Stop,
            BombType::Penetrating => NextAction::Continue,
        },
        Some(MazeElement::Bomb { .. }) => NextAction::Bomb,
        Some(MazeElement::Deviate { direction }) => NextAction::ChangeDirection(direction),
    }
}

/// What a burst standing at `(x, y)` does next: the reaction to the cell in front of it.
pub open spec fn next_action(
    grid: Grid,
    x: int,
    y: int,
    kind: BombType,
    direction: FireDirection,
) -> NextAction {
    let (next_x, next_y) = neighbour(x, y, direction);
    reaction(cell_at(grid, next_x, next_y), kind)
}

/// What fire leaves of a cell it passes through: an enemy loses one point of
/// health and is gone when none is left; anything else is as it was.
pub open spec fn scorched(cell: MazeElement) -> MazeElement {
    match cell {
        MazeElement::Enemy { health } => if health <= 1 {
            MazeElement::Empty
        } else {
            MazeElement::Enemy { health: (health - 1) as u8 }
        },
        other => other,
    }
}

/// How a burst ends: the board it leaves, the burst as it stood when it
/// stopped, and the bomb that swallowed it, if one did. That bomb is still on
/// the board.
pub struct BurstOutcome {
    pub grid: Grid,
    pub burst: Burst,
    pub chained: Option<(int, int)>,
}

/// Runs a burst until it stops: out of steps, at the edge of the board, in
/// front of a wall or, for a normal bomb, a rock, or swallowed by a bomb.
pub open spec fn burst_outcome(grid: Grid, burst: Burst) -> BurstOutcome
    decreases burst.steps,
{
    let (next_x, next_y) = neighbour(burst.x, burst.y, burst.direction);
    if burst.steps == 0 {
        BurstOutcome { grid, burst, chained: None }
    } else {
        match next_action(grid, burst.x, burst.y, burst.kind, burst.direction) {
            NextAction::Stop => BurstOutcome { grid, burst, chained: None },
            NextAction::Bomb => BurstOutcome { grid, burst, chained: Some((next_x, next_y)) },
            NextAction::Continue => burst_outcome(
                with_cell(grid, next_x, next_y, scorched(grid[next_y][next_x])),
                Burst { x: next_x, y: next_y, steps: (burst.steps - 1) as nat, ..burst },
            ),
            NextAction::ChangeDirection(direction) => burst_outcome(
                grid,
                Burst {
                    x: next_x,
                    y: next_y,
                    steps: (burst.steps - 1) as nat,
                    direction,
                    ..burst
                },
            ),
        }
    }
}

/// What passing fire can have made of a cell: nothing, or an enemy weaker or gone.
pub open spec fn scorched_from(before: MazeElement, after: MazeElement) -> bool {
    ||| after == before
    ||| before is Enemy && after is Empty
    ||| before is Enemy && after is Enemy && after->health < before->health
}

/// A burst keeps the shape of the board and changes nothing but enemies,
/// which it can only weaken. The bomb that swallowed it, if any, is on the
/// board it leaves.
pub proof fn lemma_burst_touches_enemies_only(grid: Grid, burst: Burst)
    ensures
        same_shape(burst_outcome(grid, burst).grid, grid),
        forall|x: int, y: int|
            cell_at(grid, x, y) is Some ==> scorched_from(
                grid[y][x],
                #[trigger] burst_outcome(grid, burst).grid[y][x],
            ),
        bomb_count(burst_outcome(grid, burst).grid) == bomb_count(grid),
        burst_outcome(grid, burst).chained matches Some((x, y)) ==> cell_at(
            burst_outcome(grid, burst).grid,
            x,
            y,
        ) matches Some(MazeElement::Bomb { .. }),
    decreases burst.steps,
{
    let (next_x, next_y) = neighbour(burst.x, burst.y, burst.direction);
    if burst.steps > 0 {
        match next_action(grid, burst.x, burst.y, burst.kind, burst.direction) {
            NextAction::Continue => {
                let entered = with_cell(grid, next_x, next_y, scorched(grid[next_y][next_x]));
                let moved = Burst {
                    x: next_x,
                    y: next_y,
                    steps: (burst.steps - 1) as nat,
                    ..burst
                };
                lemma_bombs_with_cell(grid, next_x, next_y, scorched(grid[next_y][next_x]));
                lemma_burst_touches_enemies_only(entered, moved);
                assert forall|x: int, y: int| cell_at(grid, x, y) is Some implies scorched_from(
                    grid[y][x],
                    #[trigger] burst_outcome(grid, burst).grid[y][x],
                ) by {
                    assert(cell_at(entered, x, y) is Some);
                    assert(scorched_from(entered[y][x], burst_outcome(entered, moved).grid[y][x]));
                }
            },
            NextAction::ChangeDirection(direction) => {
                lemma_burst_touches_enemies_only(
                    grid,
                    Burst {
                        x: next_x,
                        y: next_y,
                        steps: (burst.steps - 1) as nat,
                        direction,
                        ..burst
                    },
                );
            },
            _ => {},
        }
    }
}

/// Fire of the given kind can stand at `(x, y)`: the cell is on the board
/// and holds no wall, no bomb and, for a normal bomb's fire, no rock.
pub open spec fn stands_free(grid: Grid, x: int, y: int, kind: BombType) -> bool {
    match cell_at(grid, x, y) {
        None => false,
        Some(MazeElement::Wall) => false,
        Some(MazeElement::Bomb { .. }) => false,
        Some(MazeElement::Rock) => kind == BombType::Penetrating,
        Some(_) => true,
    }
}

/// A burst never enters the cell of a wall or of a bomb, nor, if it came
/// from a normal bomb, that of a rock: it ends as it started, not having
/// moved, or on a cell where its fire can stand. It keeps its kind and
/// gains no steps.
pub proof fn lemma_burst_keeps_off_obstacles(grid: Grid, burst: Burst)
    ensures
        ({
            let outcome = burst_outcome(grid, burst);
            &&& outcome.burst.kind == burst.kind
            &&& outcome.burst.steps <= burst.steps
            &&& outcome.burst == burst || stands_free(
                outcome.grid,
                outcome.burst.x,
                outcome.burst.y,
                burst.kind,
            )
        }),
    decreases burst.steps,
{
    let (next_x, next_y) = neighbour(burst.x, burst.y, burst.direction);
    if burst.steps > 0 {
        match next_action(grid, burst.x, burst.y, burst.kind, burst.direction) {
            NextAction::Continue => {
                let entered = with_cell(grid, next_x, next_y, scorched(grid[next_y][next_x]));
                let moved = Burst {
                    x: next_x,
                    y: next_y,
                    steps: (burst.steps - 1) as nat,
                    ..burst
                };
                lemma_burst_keeps_off_obstacles(entered, moved);
                lemma_burst_touches_enemies_only(entered, moved);
                assert(scorched_from(
                    entered[next_y][next_x],
                    burst_outcome(entered, moved).grid[next_y][next_x],
                ));
            },
            NextAction::ChangeDirection(direction) => {
                let moved = Burst {
                    x: next_x,
                    y: next_y,
                    steps: (burst.steps - 1) as nat,
                    direction,
                    ..burst
                };
                lemma_burst_keeps_off_obstacles(grid, moved);
                lemma_burst_touches_enemies_only(grid, moved);
                assert(scorched_from(
                    grid[next_y][next_x],
                    burst_outcome(grid, moved).grid[next_y][next_x],
                ));
            },
            _ => {},
        }
    }
}

/// A burst in front of a wall ends there, whatever its kind: it does not
/// enter the wall's cell, and it leaves the board as it was.
pub proof fn lemma_wall_stops_burst(grid: Grid, burst: Burst)
    requires
        ({
            let (next_x, next_y) = neighbour(burst.x, burst.y, burst.direction);
            cell_at(grid, next_x, next_y) == Some(MazeElement::Wall)
        }),
    ensures
        burst_outcome(grid, burst) == (BurstOutcome { grid, burst, chained: None }),
{
}

/// A normal bomb's burst in front of a rock ends there, and the rock stays.
pub proof fn lemma_rock_stops_normal_burst(grid: Grid, burst: Burst)
    requires
        burst.kind == BombType::Normal,
        ({
            let (next_x, next_y) = neighbour(burst.x, burst.y, burst.direction);
            cell_at(grid, next_x, next_y) == Some(MazeElement::Rock)
        }),
    ensures
        burst_outcome(grid, burst) == (BurstOutcome { grid, burst, chained: None }),
{
}

/// A penetrating bomb's burst in front of a rock moves onto the rock's cell
/// and goes on from there in the same direction with one step fewer. The
/// rock is still there when the burst has ended.
pub proof fn lemma_penetrating_burst_passes_rock(grid: Grid, burst: Burst)
    requires
        burst.kind == BombType::Penetrating,
        burst.steps > 0,
        ({
            let (next_x, next_y) = neighbour(burst.x, burst.y, burst.direction);
            cell_at(grid, next_x, next_y) == Some(MazeElement::Rock)
        }),
    ensures
        ({
            let (next_x, next_y) = neighbour(burst.x, burst.y, burst.direction);
            &&& burst_outcome(grid, burst) == burst_outcome(
                grid,
                Burst { x: next_x, y: next_y, steps: (burst.steps - 1) as nat, ..burst },
            )
            &&& cell_at(burst_outcome(grid, burst).grid, next_x, next_y) == Some(MazeElement::Rock)
        }),
{
    let (next_x, next_y) = neighbour(burst.x, burst.y, burst.direction);
    assert(with_cell(grid, next_x, next_y, MazeElement::Rock) =~~= grid);
    lemma_burst_touches_enemies_only(grid, burst);
    assert(scorched_from(grid[next_y][next_x], burst_outcome(grid, burst).grid[next_y][next_x]));
}

/// A burst in front of a tile that turns fire moves onto the tile and goes
/// on from there in the tile's direction with one step fewer.
pub proof fn lemma_deviate_turns_burst(grid: Grid, burst: Burst, direction: FireDirection)
    requires
        burst.steps > 0,
        ({
            let (next_x, next_y) = neighbour(burst.x, burst.y, burst.direction);
            cell_at(grid, next_x, next_y) == Some(MazeElement::Deviate { direction })
        }),
    ensures
        ({
            let (next_x, next_y) = neighbour(burst.x, burst.y, burst.direction);
            burst_outcome(grid, burst) == burst_outcome(
                grid,
                Burst {
                    x: next_x,
                    y: next_y,
                    steps: (burst.steps - 1) as nat,
                    direction,
                    ..burst
                },
            )
        }),
{
}

/// The way is free for `distance` cells in front of the burst: each of them
/// is on the board and lets the burst move on without turning it.
pub open spec fn free_ahead(grid: Grid, burst: Burst, distance: nat) -> bool {
    forall|i: int|
        1 <= i <= distance ==> reaction(
            #[trigger] cell_at(
                grid,
                ahead(burst.x, burst.y, burst.direction, i).0,
                ahead(burst.x, burst.y, burst.direction, i).1,
            ),
            burst.kind,
        ) == NextAction::Continue
}

/// The cell at `(x, y)` is one of the `distance` cells in front of the burst.
pub open spec fn lies_ahead(burst: Burst, distance: nat, x: int, y: int) -> bool {
    exists|i: int| 1 <= i <= distance && #[trigger] ahead(burst.x, burst.y, burst.direction, i) == (x, y)
}

/// A burst whose way is free for as many cells as it has steps travels
/// exactly that far: it ends that many cells from where it started, still
/// heading the same way, with no step left and no bomb set off. On its way it
/// has scorched the cells it passed, and no other.
pub proof fn lemma_free_burst_travels_its_reach(grid: Grid, burst: Burst)
    requires
        free_ahead(grid, burst, burst.steps),
    ensures
        ({
            let outcome = burst_outcome(grid, burst);
            let (end_x, end_y) = ahead(burst.x, burst.y, burst.direction, burst.steps as int);
            &&& outcome.burst == Burst { x: end_x, y: end_y, steps: 0, ..burst }
            &&& outcome.chained is None
            &&& same_shape(outcome.grid, grid)
            &&& forall|x: int, y: int|
                cell_at(grid, x, y) is Some ==> #[trigger] outcome.grid[y][x] == if lies_ahead(
                    burst,
                    burst.steps,
                    x,
                    y,
                ) {
                    scorched(grid[y][x])
                } else {
                    grid[y][x]
                }
        }),
    decreases burst.steps,
{
    if burst.steps > 0 {
        let (next_x, next_y) = neighbour(burst.x, burst.y, burst.direction);
        assert(ahead(burst.x, burst.y, burst.direction, 1) == (next_x, next_y));
        assert(cell_at(grid, next_x, next_y) is Some);
        let entered = with_cell(grid, next_x, next_y, scorched(grid[next_y][next_x]));
        let moved = Burst { x: next_x, y: next_y, steps: (burst.steps - 1) as nat, ..burst };
        assert(burst_outcome(grid, burst) == burst_outcome(entered, moved));
        assert forall|i: int| 1 <= i <= moved.steps implies reaction(
            #[trigger] cell_at(
                entered,
                ahead(moved.x, moved.y, moved.direction, i).0,
                ahead(moved.x, moved.y, moved.direction, i).1,
            ),
            moved.kind,
        ) == NextAction::Continue by {
            assert(ahead(moved.x, moved.y, moved.direction, i) == ahead(
                burst.x,
                burst.y,
                burst.direction,
                i + 1,
            ));
            let (x, y) = ahead(burst.x, burst.y, burst.direction, i + 1);
            assert(cell_at(entered, x, y) == cell_at(grid, x, y));
        }
        lemma_free_burst_travels_its_reach(entered, moved);
        let outcome = burst_outcome(grid, burst);
        assert forall|x: int, y: int| cell_at(grid, x, y) is Some implies #[trigger] outcome.grid[y][x]
            == if lies_ahead(burst, burst.steps, x, y) {
            scorched(grid[y][x])
        } else {
            grid[y][x]
        } by {
            assert(cell_at(entered, x, y) is Some);
            if lies_ahead(moved, moved.steps, x, y) {
                let i = choose|i: int|
                    1 <= i <= moved.steps && #[trigger] ahead(moved.x, moved.y, moved.direction, i)
                        == (x, y);
                assert(ahead(burst.x, burst.y, burst.direction, i + 1) == (x, y));
            } else if (x, y) == (next_x, next_y) {
            } else if lies_ahead(burst, burst.steps, x, y) {
                let i = choose|i: int|
                    1 <= i <= burst.steps && #[trigger] ahead(burst.x, burst.y, burst.direction, i)
                        == (x, y);
                assert(ahead(moved.x, moved.y, moved.direction, i - 1) == (x, y));
            }
        }
    }
}

} // verus!
