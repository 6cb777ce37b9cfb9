//! The board and what stands on it.

use vstd::prelude::*;
use crate::board_text::{lemma_board_round_trip, parse_board, process_file};
use crate::detonation::{
    blast_of, chain_reaction, cleared, detonation, lemma_chain_reaction_aftermath,
    lemma_detonation_aftermath, spawn,
};
use crate::errors::MazeError;
use crate::fire::{
    burst_outcome, lemma_burst_touches_enemies_only, neighbour, next_action, scorched, Burst,
};
use crate::grid::{
    bomb_count, cell_at, is_rectangular, lemma_bombs_with_cell,
    lemma_same_shape_keeps_rectangular, same_shape, with_cell, Grid,
};

verus! {

/// How a bomb's blast treats rocks.
#[derive(Debug, Clone, Copy, PartialEq, Eq, Structural)]
pub enum BombType {
    /// The blast stops in front of a rock.
    Normal,
    /// The blast passes over rocks and leaves them standing.
    Penetrating,
}

/// One of the four directions a blast travels in.
#[derive(Debug, Clone, Copy, PartialEq, Eq, Structural)]
pub enum FireDirection {
    /// Towards the first row.
    Up,
    /// Towards the last row.
    Down,
    /// Towards the last column.
    Right,
    /// Towards the first column.
    Left,
}

/// The occupant of one cell of the board.
#[derive(Debug, Clone, Copy, PartialEq, Eq, Structural)]
pub enum MazeElement {
    /// An enemy; fire that passes takes health from it, and it is gone when
    /// none is left.
    Enemy { health: u8 },
    /// A bomb whose fire travels `reach` cells in each direction.
    Bomb { reach: u8, kind: BombType },
    /// A rock: it stops the fire of normal bombs.
    Rock,
    /// A wall: it stops all fire.
    Wall,
    /// A tile that turns the fire that passes into its own direction.
    Deviate { direction: FireDirection },
    /// Nothing.
    Empty,
}

/// What a burst does about the cell in front of it.
#[derive(Debug, Clone, Copy, PartialEq, Eq, Structural)]
pub enum NextAction {
    /// Move into the cell and go on in the same direction.
    Continue,
    /// End here, without entering the cell.
    Stop,
    /// The cell holds a bomb: it goes off, and the burst ends here.
    Bomb,
    /// Move into the cell and go on in the direction given.
    ChangeDirection(FireDirection),
}

/// A burst of fire on its way over the board.
#[derive(Debug, Clone, Copy, PartialEq, Eq, Structural)]
pub struct FireBurst {
    /// The column the burst stands in.
    pub x: usize,
    /// The row the burst stands in.
    pub y: usize,
    /// How many cells the burst may still enter.
    pub remaining_steps: u8,
    /// Where the burst is heading.
    pub direction: FireDirection,
    /// The kind of the bomb the burst came from.
    pub kind: BombType,
}

impl View for FireBurst {
    type V = Burst;

    open spec fn view(&self) -> Burst {
        Burst {
            x: self.x as int,
            y: self.y as int,
            steps: self.remaining_steps as nat,
            direction: self.direction,
            kind: self.kind,
        }
    }
}

/// How a burst ended: the burst as it stood when it stopped, and the
/// coordinate of the bomb that swallowed it, if one did.
#[derive(Debug, Clone, Copy, PartialEq, Eq)]
pub struct BurstEnd {
    /// The burst as it stood when it stopped.
    pub burst: FireBurst,
    /// Column and row of the bomb that swallowed the burst.
    pub chained: Option<(usize, usize)>,
}

/// A coordinate of the model as a pair of indexes.
pub open spec fn coordinate(place: (usize, usize)) -> (int, int) {
    (place.0 as int, place.1 as int)
}

/// The coordinates of the model for a list of places.
pub open spec fn coordinates(places: Seq<(usize, usize)>) -> Seq<(int, int)> {
    places.map_values(|place: (usize, usize)| coordinate(place))
}

/// The bursts of the model for a stack of bursts.
pub open spec fn bursts(stack: Seq<FireBurst>) -> Seq<Burst> {
    stack.map_values(|burst: FireBurst| burst@)
}

/// The board that rows of cells make up.
pub open spec fn grid_of(matrix: Seq<Vec<MazeElement>>) -> Grid {
    Seq::new(matrix.len(), |y: int| matrix[y]@)
}

/// The board: a grid of cells, addressed by column `x` and row `y`, both
/// counted from zero at the top left.
#[derive(Debug)]
pub struct Maze {
    /// The rows of the board, top to bottom; each row holds its cells left to right.
    pub matrix: Vec<Vec<MazeElement>>,
}

impl View for Maze {
    type V = Grid;

    open spec fn view(&self) -> Grid {
        grid_of(self.matrix@)
    }
}

impl Maze {
    /// The board is well formed: all its rows have the same length.
    pub open spec fn rectangular(&self) -> bool {
        is_rectangular(self@)
    }

    /// Reads a board from its text. Fails with `InvalidFormat` where a cell
    /// is no token or the rows differ in length; a board that is read is
    /// rectangular.
    pub fn new(board: &str) -> (result: Result<Maze, MazeError>)
        ensures
            match result {
                Ok(maze) => parse_board(board@) == Ok::<Grid, Seq<char>>(maze@)
                    && maze.rectangular(),
                Err(error) => parse_board(board@) is Err && error.is_invalid_format(
                    parse_board(board@)->Err_0,
                ),
            },
    {
        match process_file(board) {
            Ok(matrix) => {
                proof {
                    lemma_board_round_trip(board@);
                }
                Ok(Maze { matrix })
            },
            Err(error) => Err(error),
        }
    }

    /// The cell at column `x` of row `y`, or `None` outside the board.
    pub fn get_maze_element(&self, x: usize, y: usize) -> (cell: Option<&MazeElement>)
        ensures
            match cell {
                Some(element) => cell_at(self@, x as int, y as int) == Some(*element),
                None => cell_at(self@, x as int, y as int) is None,
            },
    {
        if y < self.matrix.len() {
            let row = &self.matrix[y];
            if x < row.len() {
                Some(&row[x])
            } else {
                None
            }
        } else {
            None
        }
    }

    /// Replaces the cell at column `x` of row `y`, which must be on the board.
    pub fn set_maze_element(&mut self, x: usize, y: usize, element: MazeElement)
        requires
            cell_at(old(self)@, x as int, y as int) is Some,
        ensures
            final(self)@ == with_cell(old(self)@, x as int, y as int, element),
            same_shape(final(self)@, old(self)@),
            old(self).rectangular() ==> final(self).rectangular(),
    {
        self.matrix[y][x] = element;
        assert(self@ =~~= with_cell(old(self)@, x as int, y as int, element));
        proof {
            if old(self).rectangular() {
                lemma_same_shape_keeps_rectangular(self@, old(self)@);
            }
        }
    }

    /// Sets off the bomb at column `x` of row `y`: the bomb leaves the board,
    /// its fire travels up, down, left and right, and every bomb that the
    /// fire reaches goes off in turn. Fails with `OutOfBounds` outside the
    /// board and with `NoBomb` on a cell that holds no bomb; the board is
    /// then as it was.
    pub fn detonate_bomb(&mut self, x: usize, y: usize) -> (result: Result<(), MazeError>)
        ensures
            match cell_at(old(self)@, x as int, y as int) {
                None => result == Err::<(), MazeError>(MazeError::OutOfBounds) && final(self)@
                    == old(self)@,
                Some(MazeElement::Bomb { .. }) => result is Ok && final(self)@ == detonation(
                    old(self)@,
                    x as int,
                    y as int,
                ).grid,
                Some(_) => result == Err::<(), MazeError>(MazeError::NoBomb) && final(self)@
                    == old(self)@,
            },
            same_shape(final(self)@, old(self)@),
            old(self).rectangular() ==> final(self).rectangular(),
    {
        let element = match self.get_maze_element(x, y) {
            Some(element) => *element,
            None => {
                return Err(MazeError::OutOfBounds);
            },
        };
        match element {
            MazeElement::Bomb { reach, kind } => {
                self.set_maze_element(x, y, MazeElement::Empty);
                self.advance_fire_bursts(x, y, &reach, &kind);
                proof {
                    lemma_detonation_aftermath(old(self)@, x as int, y as int);
                    if old(self).rectangular() {
                        lemma_same_shape_keeps_rectangular(self@, old(self)@);
                    }
                }
                Ok(())
            },
            _ => Err(MazeError::NoBomb),
        }
    }

    /// Runs the four bursts of a bomb of the given reach and kind that went
    /// off at `(x_initial, y_initial)`, and every bomb that they set off.
    /// Returns the places of the bombs that went off on the way, in the
    /// order in which they did.
    pub fn advance_fire_bursts(
        &mut self,
        x_initial: usize,
        y_initial: usize,
        reach: &u8,
        bomb_type: &BombType,
    ) -> (detonated: Vec<(usize, usize)>)
        ensures
            ({
                let chain = chain_reaction(
                    old(self)@,
                    spawn(x_initial as int, y_initial as int, *reach as nat, *bomb_type),
                );
                &&& final(self)@ == chain.grid
                &&& coordinates(detonated@) == chain.detonated
            }),
            same_shape(final(self)@, old(self)@),
            old(self).rectangular() ==> final(self).rectangular(),
    {
        proof {
            let chain = chain_reaction(
                self@,
                spawn(x_initial as int, y_initial as int, *reach as nat, *bomb_type),
            );
            lemma_chain_reaction_aftermath(
                self@,
                spawn(x_initial as int, y_initial as int, *reach as nat, *bomb_type),
            );
            if self.rectangular() {
                lemma_same_shape_keeps_rectangular(chain.grid, self@);
            }
        }
        let mut pending: Vec<FireBurst> = Vec::new();
        push_bursts(&mut pending, x_initial, y_initial, *reach, *bomb_type);
        let mut detonated: Vec<(usize, usize)> = Vec::new();
        let ghost chain = chain_reaction(self@, bursts(pending@));
        assert(coordinates(detonated@) + chain.detonated =~= chain.detonated);
        while pending.len() > 0
            invariant
                chain.grid == chain_reaction(self@, bursts(pending@)).grid,
                chain.detonated == coordinates(detonated@) + chain_reaction(
                    self@,
                    bursts(pending@),
                ).detonated,
            decreases bomb_count(self@), pending.len(),
        {
            let ghost grid = self@;
            let ghost stack = bursts(pending@);
            let ghost found = coordinates(detonated@);
            let burst = pending.pop().unwrap();
            assert(bursts(pending@) =~= stack.drop_last());
            let end = self.advance_fire_burst(
                burst.remaining_steps,
                burst.x,
                burst.y,
                &burst.kind,
                burst.direction,
            );
            proof {
                lemma_burst_touches_enemies_only(grid, burst@);
            }
            if let Some((x, y)) = end.chained {
                let ghost scene = self@;
                proof {
                    lemma_bombs_with_cell(scene, x as int, y as int, MazeElement::Empty);
                }
                self.ignite(x, y, &mut pending);
                detonated.push((x, y));
                assert(coordinates(detonated@) =~= found + seq![(x as int, y as int)]);
                let ghost rest = chain_reaction(self@, bursts(pending@));
                assert(found + (seq![(x as int, y as int)] + rest.detonated) =~= (found + seq![
                    (x as int, y as int),
                ]) + rest.detonated);
            }
        }
        assert(chain_reaction(self@, bursts(pending@)).detonated =~= Seq::empty());
        detonated
    }

    /// Takes the bomb at `(x, y)` off the board and puts its four bursts on
    /// the stack. Where no bomb stands there, nothing happens.
    fn ignite(&mut self, x: usize, y: usize, pending: &mut Vec<FireBurst>)
        ensures
            final(self)@ == cleared(old(self)@, x as int, y as int),
            bursts(final(pending)@) == bursts(old(pending)@) + blast_of(
                old(self)@,
                x as int,
                y as int,
            ),
    {
        let element = match self.get_maze_element(x, y) {
            Some(element) => *element,
            None => MazeElement::Empty,
        };
        match element {
            MazeElement::Bomb { reach, kind } => {
                self.set_maze_element(x, y, MazeElement::Empty);
                push_bursts(pending, x, y, reach, kind);
            },
            _ => {
                assert(bursts(pending@) =~= bursts(pending@) + Seq::<Burst>::empty());
            },
        }
    }

    /// Runs one burst until it stops, and says how it ended. Enemies in its
    /// way are hurt; a bomb that swallows it is reported and left standing.
    pub fn advance_fire_burst(
        &mut self,
        remaining_steps: u8,
        x_burst: usize,
        y_burst: usize,
        bomb_type: &BombType,
        direction: FireDirection,
    ) -> (end: BurstEnd)
        ensures
            ({
                let outcome = burst_outcome(
                    old(self)@,
                    Burst {
                        x: x_burst as int,
                        y: y_burst as int,
                        steps: remaining_steps as nat,
                        direction,
                        kind: *bomb_type,
                    },
                );
                &&& final(self)@ == outcome.grid
                &&& end.burst@ == outcome.burst
                &&& match end.chained {
                    Some(place) => outcome.chained == Some(coordinate(place)),
                    None => outcome.chained is None,
                }
            }),
            same_shape(final(self)@, old(self)@),
            old(self).rectangular() ==> final(self).rectangular(),
    {
        proof {
            let start = Burst {
                x: x_burst as int,
                y: y_burst as int,
                steps: remaining_steps as nat,
                direction,
                kind: *bomb_type,
            };
            lemma_burst_touches_enemies_only(self@, start);
            if self.rectangular() {
                lemma_same_shape_keeps_rectangular(burst_outcome(self@, start).grid, self@);
            }
        }
        let mut burst = FireBurst {
            x: x_burst,
            y: y_burst,
            remaining_steps,
            direction,
            kind: *bomb_type,
        };
        let mut chained: Option<(usize, usize)> = None;
        let mut stopped = false;
        let ghost outcome = burst_outcome(self@, burst@);
        while burst.remaining_steps > 0 && !stopped
            invariant
                !stopped ==> burst_outcome(self@, burst@) == outcome,
                !stopped ==> chained is None,
                stopped ==> self@ == outcome.grid && burst@ == outcome.burst,
                stopped ==> match chained {
                    Some(place) => outcome.chained == Some(coordinate(place)),
                    None => outcome.chained is None,
                },
            decreases burst.remaining_steps + if stopped { 0int } else { 1int },
        {
            let action = self.calulate_next_action(burst.x, burst.y, &burst.kind, burst.direction);
            let next = next_indexes(burst.x, burst.y, burst.direction);
            proof {
                self.lemma_indexes_fit();
            }
            match (action, next) {
                (NextAction::Continue, (Some(next_x), Some(next_y))) => {
                    let ghost before = self@;
                    if let MazeElement::Enemy { health } = self.matrix[next_y][next_x] {
                        let left = if health <= 1 {
                            MazeElement::Empty
                        } else {
                            MazeElement::Enemy { health: health - 1 }
                        };
                        self.set_maze_element(next_x, next_y, left);
                    }
                    assert(self@ =~~= with_cell(
                        before,
                        next_x as int,
                        next_y as int,
                        scorched(before[next_y as int][next_x as int]),
                    ));
                    burst.x = next_x;
                    burst.y = next_y;
                    burst.remaining_steps = burst.remaining_steps - 1;
                },
                (NextAction::ChangeDirection(turn), (Some(next_x), Some(next_y))) => {
                    burst.x = next_x;
                    burst.y = next_y;
                    burst.direction = turn;
                    burst.remaining_steps = burst.remaining_steps - 1;
                },
                (NextAction::Bomb, (Some(next_x), Some(next_y))) => {
                    chained = Some((next_x, next_y));
                    stopped = true;
                },
                _ => {
                    stopped = true;
                },
            }
        }
        BurstEnd { burst, chained }
    }

    /// What a burst of the given kind, standing at `(x_burst, y_burst)` and
    /// heading in `direction`, does about the cell in front of it.
    pub fn calulate_next_action(
        &self,
        x_burst: usize,
        y_burst: usize,
        bomb_type: &BombType,
        direction: FireDirection,
    ) -> (action: NextAction)
        ensures
            action == next_action(self@, x_burst as int, y_burst as int, *bomb_type, direction),
    {
        let (next_x, next_y) = next_indexes(x_burst, y_burst, direction);
        proof {
            self.lemma_indexes_fit();
        }
        match (next_x, next_y) {
            (Some(x), Some(y)) => match self.get_maze_element(x, y) {
                Some(MazeElement::Empty) => NextAction::Continue,
                Some(MazeElement::Enemy { .. }) => NextAction::Continue,
                Some(MazeElement::Wall) => NextAction::Stop,
                Some(MazeElement::Rock) => match bomb_type {
                    BombType::Normal => NextAction::Stop,
                    BombType::Penetrating => NextAction::Continue,
                },
                Some(MazeElement::Bomb { .. }) => NextAction::Bomb,
                Some(MazeElement::Deviate { direction: turn }) => NextAction::ChangeDirection(*turn),
                None => NextAction::Stop,
            },
            (_, _) => NextAction::Stop,
        }
    }

    /// Every coordinate on the board can be written as a pair of indexes.
    pub proof fn lemma_indexes_fit(&self)
        ensures
            self@.len() <= usize::MAX,
            forall|y: int| 0 <= y < self@.len() ==> (#[trigger] self@[y]).len() <= usize::MAX,
            forall|x: int, y: int| #[trigger]
                cell_at(self@, x, y) is Some ==> index_of(x) is Some && index_of(y) is Some,
    {
        assert(self.matrix.len() == self.matrix@.len());
        assert forall|y: int| 0 <= y < self@.len() implies (#[trigger] self@[y]).len()
            <= usize::MAX by {
            let row = self.matrix@[y];
            assert(row.len() == row@.len());
        }
    }
}

/// Puts the four bursts of a bomb at `(x, y)` on the stack, so that they
/// come off it in the order up, down, left, right.
fn push_bursts(pending: &mut Vec<FireBurst>, x: usize, y: usize, reach: u8, kind: BombType)
    ensures
        bursts(final(pending)@) == bursts(old(pending)@) + spawn(
            x as int,
            y as int,
            reach as nat,
            kind,
        ),
{
    pending.push(FireBurst { x, y, remaining_steps: reach, direction: FireDirection::Right, kind });
    pending.push(FireBurst { x, y, remaining_steps: reach, direction: FireDirection::Left, kind });
    pending.push(FireBurst { x, y, remaining_steps: reach, direction: FireDirection::Down, kind });
    pending.push(FireBurst { x, y, remaining_steps: reach, direction: FireDirection::Up, kind });
    assert(bursts(pending@) =~= bursts(old(pending)@) + spawn(
        x as int,
        y as int,
        reach as nat,
        kind,
    ));
}

/// An index of the model as the board's functions take it, or `None` where
/// it is negative or too large to be one.
pub open spec fn index_of(i: int) -> Option<usize> {
    if 0 <= i <= usize::MAX {
        Some(i as usize)
    } else {
        None
    }
}

/// The column and the row one cell away from `(x_burst, y_burst)` in the
/// given direction, each `None` where the step would leave the range of
/// indexes.
pub fn next_indexes(x_burst: usize, y_burst: usize, direction: FireDirection) -> (next: (
    Option<usize>,
    Option<usize>,
))
    ensures
        next.0 == index_of(neighbour(x_burst as int, y_burst as int, direction).0),
        next.1 == index_of(neighbour(x_burst as int, y_burst as int, direction).1),
{
    match direction {
        FireDirection::Up => (Some(x_burst), y_burst.checked_sub(1)),
        FireDirection::Down => (Some(x_burst), y_burst.checked_add(1)),
        FireDirection::Left => (x_burst.checked_sub(1), Some(y_burst)),
        FireDirection::Right => (x_burst.checked_add(1), Some(y_burst)),
    }
}

} // verus!
