//! A bomb going off, and the bombs that its fire sets off in turn.
//!
//! A bomb that goes off leaves its cell empty and sends four bursts, up,
//! down, left and right, in that order. Each burst runs until it stops. A
//! burst that is swallowed by another bomb sets that bomb off at once: the
//! second bomb's four bursts, and whatever they set off, run before the
//! first bomb's next burst does. The bursts that still have to run wait on a
//! stack, so no depth of nesting is needed to say what happens, and since a
//! bomb is gone from the board the moment it goes off, no bomb goes off
//! twice.

use vstd::prelude::*;
use crate::fire::{burst_outcome, lemma_burst_touches_enemies_only, scorched_from, Burst};
use crate::grid::{bomb_count, cell_at, lemma_bombs_with_cell, same_shape, with_cell, Grid};
use crate::maze_types::{BombType, FireDirection, MazeElement};

verus! {

/// A bomb stands at the given place of the board.
pub open spec fn holds_bomb(grid: Grid, place: (int, int)) -> bool {
    cell_at(grid, place.0, place.1) is Some && grid[place.1][place.0] is Bomb
}

/// The four bursts of a bomb with the given reach and kind at `(x, y)`, as a
/// stack: the last one runs first, so they run up, down, left, right.
pub open spec fn spawn(x: int, y: int, reach: nat, kind: BombType) -> Seq<Burst> {
    seq![
        Burst { x, y, steps: reach, direction: FireDirection::Right, kind },
        Burst { x, y, steps: reach, direction: FireDirection::Left, kind },
        Burst { x, y, steps: reach, direction: FireDirection::Down, kind },
        Burst { x, y, steps: reach, direction: FireDirection::Up, kind },
    ]
}

/// The bursts that the bomb at `(x, y)` sends when it goes off; none where no bomb stands.
pub open spec fn blast_of(grid: Grid, x: int, y: int) -> Seq<Burst> {
    match cell_at(grid, x, y) {
        Some(MazeElement::Bomb { reach, kind }) => spawn(x, y, reach as nat, kind),
        _ => Seq::empty(),
    }
}

/// The board once the bomb at `(x, y)` is gone; the same board where no bomb stands there.
pub open spec fn cleared(grid: Grid, x: int, y: int) -> Grid {
    match cell_at(grid, x, y) {
        Some(MazeElement::Bomb { .. }) => with_cell(grid, x, y, MazeElement::Empty),
        _ => grid,
    }
}

/// What a detonation comes to: the board it leaves, and the coordinates of
/// the bombs that went off, in the order in which they did.
pub struct Detonation {
    pub grid: Grid,
    pub detonated: Seq<(int, int)>,
}

/// Runs the bursts on the stack `pending`, last one first, and every bomb that they set off.
pub open spec fn chain_reaction(grid: Grid, pending: Seq<Burst>) -> Detonation
    decreases bomb_count(grid), pending.len(),
{
    if pending.len() == 0 {
        Detonation { grid, detonated: Seq::empty() }
    } else {
        let outcome = burst_outcome(grid, pending.last());
        let waiting = pending.drop_last();
        proof {
            lemma_burst_touches_enemies_only(grid, pending.last());
        }
        match outcome.chained {
            None => chain_reaction(outcome.grid, waiting),
            Some((x, y)) => {
                proof {
                    lemma_bombs_with_cell(outcome.grid, x, y, MazeElement::Empty);
                }
                let rest = chain_reaction(
                    cleared(outcome.grid, x, y),
                    waiting + blast_of(outcome.grid, x, y),
                );
                Detonation { grid: rest.grid, detonated: seq![(x, y)] + rest.detonated }
            },
        }
    }
}

/// Sets off the bomb at `(x, y)`. Where no bomb stands there, nothing happens.
pub open spec fn detonation(grid: Grid, x: int, y: int) -> Detonation {
    if holds_bomb(grid, (x, y)) {
        let rest = chain_reaction(cleared(grid, x, y), blast_of(grid, x, y));
        Detonation { grid: rest.grid, detonated: seq![(x, y)] + rest.detonated }
    } else {
        Detonation { grid, detonated: Seq::empty() }
    }
}

/// The bursts on top of the stack, and all that they set off, are done with
/// before the bursts below them start: running the whole stack is running
/// its top part, and then the part below on the board which that leaves.
pub proof fn lemma_chain_reaction_in_turn(grid: Grid, below: Seq<Burst>, top: Seq<Burst>)
    ensures
        ({
            let first = chain_reaction(grid, top);
            let then = chain_reaction(first.grid, below);
            chain_reaction(grid, below + top) == (Detonation {
                grid: then.grid,
                detonated: first.detonated + then.detonated,
            })
        }),
    decreases bomb_count(grid), top.len(),
{
    let first = chain_reaction(grid, top);
    let then = chain_reaction(first.grid, below);
    if top.len() == 0 {
        assert(below + top =~= below);
        assert(first.detonated + then.detonated =~= then.detonated);
    } else {
        let outcome = burst_outcome(grid, top.last());
        let waiting = top.drop_last();
        assert((below + top).last() == top.last());
        assert((below + top).drop_last() =~= below + waiting);
        lemma_burst_touches_enemies_only(grid, top.last());
        match outcome.chained {
            None => {
                lemma_chain_reaction_in_turn(outcome.grid, below, waiting);
            },
            Some((x, y)) => {
                let scene = cleared(outcome.grid, x, y);
                let blast = blast_of(outcome.grid, x, y);
                lemma_bombs_with_cell(outcome.grid, x, y, MazeElement::Empty);
                assert((below + waiting) + blast =~= below + (waiting + blast));
                lemma_chain_reaction_in_turn(scene, below, waiting + blast);
                let rest = chain_reaction(scene, waiting + blast);
                assert(seq![(x, y)] + (rest.detonated + then.detonated) =~= (seq![(x, y)]
                    + rest.detonated) + then.detonated);
            },
        }
    }
}

/// A burst run by itself ends without more ado, or it is swallowed by a
/// bomb, and then that bomb goes off: what follows is that bomb's whole
/// detonation.
pub proof fn lemma_burst_sets_off_bomb_at_once(grid: Grid, burst: Burst)
    ensures
        chain_reaction(grid, seq![burst]) == match burst_outcome(grid, burst).chained {
            None => Detonation { grid: burst_outcome(grid, burst).grid, detonated: Seq::empty() },
            Some((x, y)) => detonation(burst_outcome(grid, burst).grid, x, y),
        },
{
    let outcome = burst_outcome(grid, burst);
    let pending = seq![burst];
    assert(pending.last() == burst);
    assert(pending.drop_last() =~= Seq::<Burst>::empty());
    lemma_burst_touches_enemies_only(grid, burst);
    match outcome.chained {
        None => {
            assert(chain_reaction(outcome.grid, Seq::<Burst>::empty()).grid == outcome.grid);
        },
        Some((x, y)) => {
            assert(Seq::<Burst>::empty() + blast_of(outcome.grid, x, y) =~= blast_of(
                outcome.grid,
                x,
                y,
            ));
        },
    }
}

/// The burst of the given bomb that heads in the given direction.
pub open spec fn burst_towards(
    x: int,
    y: int,
    reach: nat,
    kind: BombType,
    direction: FireDirection,
) -> Burst {
    Burst { x, y, steps: reach, direction, kind }
}

/// The four bursts of a bomb run one after the other, up, down, left,
/// right; each is done, with all that it set off, before the next starts
/// on the board that it left.
pub proof fn lemma_bursts_run_in_order(grid: Grid, x: int, y: int, reach: nat, kind: BombType)
    ensures
        ({
            let up = chain_reaction(grid, seq![burst_towards(x, y, reach, kind, FireDirection::Up)]);
            let down = chain_reaction(
                up.grid,
                seq![burst_towards(x, y, reach, kind, FireDirection::Down)],
            );
            let left = chain_reaction(
                down.grid,
                seq![burst_towards(x, y, reach, kind, FireDirection::Left)],
            );
            let right = chain_reaction(
                left.grid,
                seq![burst_towards(x, y, reach, kind, FireDirection::Right)],
            );
            chain_reaction(grid, spawn(x, y, reach, kind)) == (Detonation {
                grid: right.grid,
                detonated: up.detonated + down.detonated + left.detonated + right.detonated,
            })
        }),
{
    let go_up = seq![burst_towards(x, y, reach, kind, FireDirection::Up)];
    let go_down = seq![burst_towards(x, y, reach, kind, FireDirection::Down)];
    let go_left = seq![burst_towards(x, y, reach, kind, FireDirection::Left)];
    let go_right = seq![burst_towards(x, y, reach, kind, FireDirection::Right)];
    let up = chain_reaction(grid, go_up);
    let down = chain_reaction(up.grid, go_down);
    let left = chain_reaction(down.grid, go_left);
    assert(spawn(x, y, reach, kind) =~= (go_right + go_left + go_down) + go_up);
    lemma_chain_reaction_in_turn(grid, go_right + go_left + go_down, go_up);
    lemma_chain_reaction_in_turn(up.grid, go_right + go_left, go_down);
    lemma_chain_reaction_in_turn(down.grid, go_right, go_left);
    let right = chain_reaction(left.grid, go_right);
    assert(up.detonated + (down.detonated + (left.detonated + right.detonated)) =~= up.detonated
        + down.detonated + left.detonated + right.detonated);
}

/// What is left of a board `before` is the board `after`, and the bombs at
/// the places `detonated` are those that went off: the shape is the same;
/// each place is listed once and held a bomb; a bomb that is listed is gone
/// and one that is not is untouched; an enemy is as it was, weaker, or
/// gone; every other cell is as it was.
pub open spec fn aftermath(before: Grid, after: Grid, detonated: Seq<(int, int)>) -> bool {
    &&& same_shape(after, before)
    &&& detonated.no_duplicates()
    &&& forall|i: int| 0 <= i < detonated.len() ==> holds_bomb(before, #[trigger] detonated[i])
    &&& forall|x: int, y: int|
        cell_at(before, x, y) is Some ==> if before[y][x] is Bomb {
            #[trigger] after[y][x] == if detonated.contains((x, y)) {
                MazeElement::Empty
            } else {
                before[y][x]
            }
        } else {
            scorched_from(before[y][x], after[y][x])
        }
}

/// Running a stack of bursts leaves the aftermath of the bombs it set off.
pub proof fn lemma_chain_reaction_aftermath(grid: Grid, pending: Seq<Burst>)
    ensures
        aftermath(
            grid,
            chain_reaction(grid, pending).grid,
            chain_reaction(grid, pending).detonated,
        ),
    decreases bomb_count(grid), pending.len(),
{
    let chain = chain_reaction(grid, pending);
    if pending.len() > 0 {
        let outcome = burst_outcome(grid, pending.last());
        let waiting = pending.drop_last();
        lemma_burst_touches_enemies_only(grid, pending.last());
        match outcome.chained {
            None => {
                lemma_chain_reaction_aftermath(outcome.grid, waiting);
                assert forall|i: int| 0 <= i < chain.detonated.len() implies holds_bomb(
                    grid,
                    #[trigger] chain.detonated[i],
                ) by {
                    let place = chain.detonated[i];
                    assert(holds_bomb(outcome.grid, place));
                    assert(scorched_from(grid[place.1][place.0], outcome.grid[place.1][place.0]));
                }
                assert forall|x: int, y: int| cell_at(grid, x, y) is Some implies if grid[y][x] is Bomb {
                    #[trigger] chain.grid[y][x] == if chain.detonated.contains((x, y)) {
                        MazeElement::Empty
                    } else {
                        grid[y][x]
                    }
                } else {
                    scorched_from(grid[y][x], chain.grid[y][x])
                } by {
                    assert(cell_at(outcome.grid, x, y) is Some);
                    assert(scorched_from(grid[y][x], outcome.grid[y][x]));
                }
            },
            Some((bomb_x, bomb_y)) => {
                let scene = cleared(outcome.grid, bomb_x, bomb_y);
                let rest = chain_reaction(scene, waiting + blast_of(outcome.grid, bomb_x, bomb_y));
                lemma_bombs_with_cell(outcome.grid, bomb_x, bomb_y, MazeElement::Empty);
                lemma_chain_reaction_aftermath(
                    scene,
                    waiting + blast_of(outcome.grid, bomb_x, bomb_y),
                );
                assert(scorched_from(grid[bomb_y][bomb_x], outcome.grid[bomb_y][bomb_x]));
                assert(scorched_from(scene[bomb_y][bomb_x], rest.grid[bomb_y][bomb_x]));
                assert forall|i: int| 0 <= i < chain.detonated.len() implies holds_bomb(
                    grid,
                    #[trigger] chain.detonated[i],
                ) && (i > 0 ==> chain.detonated[i] != (bomb_x, bomb_y)) by {
                    if i > 0 {
                        let place = rest.detonated[i - 1];
                        assert(chain.detonated[i] == place);
                        assert(holds_bomb(scene, place));
                        assert(scorched_from(
                            grid[place.1][place.0],
                            outcome.grid[place.1][place.0],
                        ));
                    }
                }
                assert forall|i: int, j: int|
                    0 <= i < chain.detonated.len() && 0 <= j < chain.detonated.len() && i
                        != j implies chain.detonated[i] != chain.detonated[j] by {
                    if i > 0 && j > 0 {
                        assert(rest.detonated[i - 1] != rest.detonated[j - 1]);
                    }
                }
                assert forall|x: int, y: int| cell_at(grid, x, y) is Some implies if grid[y][x] is Bomb {
                    #[trigger] chain.grid[y][x] == if chain.detonated.contains((x, y)) {
                        MazeElement::Empty
                    } else {
                        grid[y][x]
                    }
                } else {
                    scorched_from(grid[y][x], chain.grid[y][x])
                } by {
                    assert(cell_at(outcome.grid, x, y) is Some);
                    assert(cell_at(scene, x, y) is Some);
                    assert(scorched_from(grid[y][x], outcome.grid[y][x]));
                    if (x, y) == (bomb_x, bomb_y) {
                        assert(chain.detonated[0] == (x, y));
                    } else if grid[y][x] is Bomb {
                        if rest.detonated.contains((x, y)) {
                            let i = choose|i: int|
                                0 <= i < rest.detonated.len() && rest.detonated[i] == (x, y);
                            assert(chain.detonated[i + 1] == (x, y));
                        } else if chain.detonated.contains((x, y)) {
                            let i = choose|i: int|
                                0 <= i < chain.detonated.len() && chain.detonated[i] == (x, y);
                            assert(rest.detonated[i - 1] == (x, y));
                        }
                    }
                }
            },
        }
    }
}

/// Setting off a bomb leaves the aftermath of the bombs that went off, the
/// first one among them. In particular every bomb that fire reached went
/// off once and no more, however many bursts came its way, and no wall,
/// rock or turning tile has changed.
pub proof fn lemma_detonation_aftermath(grid: Grid, x: int, y: int)
    requires
        holds_bomb(grid, (x, y)),
    ensures
        aftermath(grid, detonation(grid, x, y).grid, detonation(grid, x, y).detonated),
        detonation(grid, x, y).detonated[0] == (x, y),
{
    let scene = cleared(grid, x, y);
    let rest = chain_reaction(scene, blast_of(grid, x, y));
    let whole = detonation(grid, x, y);
    lemma_chain_reaction_aftermath(scene, blast_of(grid, x, y));
    assert(scorched_from(scene[y][x], rest.grid[y][x]));
    assert forall|i: int| 0 <= i < whole.detonated.len() implies holds_bomb(
        grid,
        #[trigger] whole.detonated[i],
    ) && (i > 0 ==> whole.detonated[i] != (x, y)) by {
        if i > 0 {
            assert(whole.detonated[i] == rest.detonated[i - 1]);
            assert(holds_bomb(scene, rest.detonated[i - 1]));
        }
    }
    assert forall|i: int, j: int|
        0 <= i < whole.detonated.len() && 0 <= j < whole.detonated.len() && i
            != j implies whole.detonated[i] != whole.detonated[j] by {
        if i > 0 && j > 0 {
            assert(rest.detonated[i - 1] != rest.detonated[j - 1]);
        }
    }
    assert forall|cx: int, cy: int| cell_at(grid, cx, cy) is Some implies if grid[cy][cx] is Bomb {
        #[trigger] whole.grid[cy][cx] == if whole.detonated.contains((cx, cy)) {
            MazeElement::Empty
        } else {
            grid[cy][cx]
        }
    } else {
        scorched_from(grid[cy][cx], whole.grid[cy][cx])
    } by {
        assert(cell_at(scene, cx, cy) is Some);
        if (cx, cy) == (x, y) {
            assert(whole.detonated[0] == (cx, cy));
        } else if grid[cy][cx] is Bomb {
            if rest.detonated.contains((cx, cy)) {
                let i = choose|i: int|
                    0 <= i < rest.detonated.len() && rest.detonated[i] == (cx, cy);
                assert(whole.detonated[i + 1] == (cx, cy));
            } else if whole.detonated.contains((cx, cy)) {
                let i = choose|i: int|
                    0 <= i < whole.detonated.len() && whole.detonated[i] == (cx, cy);
                assert(rest.detonated[i - 1] == (cx, cy));
            }
        }
    }
}

} // verus!
