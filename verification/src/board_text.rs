//! The text form of a board.
//!
//! A board is written as rows, one to a line. The cells of a row are
//! separated by one space, and each cell is a token of one or two
//! characters:
//!
//! | token | cell |
//! |---|---|
//! | `_` | empty |
//! | `W` | wall |
//! | `R` | rock |
//! | `B` and a digit | normal bomb with that reach |
//! | `S` and a digit | penetrating bomb with that reach |
//! | `F` and a digit | enemy with that health |
//! | `D` and one of `L`, `R`, `U`, `D` | tile that turns fire left, right, up, down |
//!
//! A line ends at a newline; a carriage return just before the newline
//! belongs to the line's end, and a newline at the very end of the text
//! starts no further line. All rows must have the same number of cells.

use vstd::prelude::*;
use vstd::string::StringExecFns;
use crate::errors::MazeError;
use crate::grid::{is_rectangular, Grid};
use crate::maze_types::{grid_of, BombType, FireDirection, MazeElement};

verus! {

/// The number that a digit stands for; `None` for any other character.
pub open spec fn digit_value(c: char) -> Option<u8> {
    if '0' <= c <= '9' {
        Some((c as u8 - '0' as u8) as u8)
    } else {
        None
    }
}

/// The digit that stands for a number up to nine.
pub open spec fn digit_char(digit: u8) -> char {
    (digit + '0' as u8) as char
}

/// The direction that a letter stands for; `None` for any other character.
pub open spec fn direction_value(c: char) -> Option<FireDirection> {
    if c == 'L' {
        Some(FireDirection::Left)
    } else if c == 'R' {
        Some(FireDirection::Right)
    } else if c == 'U' {
        Some(FireDirection::Up)
    } else if c == 'D' {
        Some(FireDirection::Down)
    } else {
        None
    }
}

/// The letter that stands for a direction.
pub open spec fn direction_char(direction: FireDirection) -> char {
    match direction {
        FireDirection::Left => 'L',
        FireDirection::Right => 'R',
        FireDirection::Up => 'U',
        FireDirection::Down => 'D',
    }
}

/// The cell that a token stands for; `None` where the text is no token.
pub open spec fn parse_token(token: Seq<char>) -> Option<MazeElement> {
    if token.len() == 1 {
        if token[0] == '_' {
            Some(MazeElement::Empty)
        } else if token[0] == 'W' {
            Some(MazeElement::Wall)
        } else if token[0] == 'R' {
            Some(MazeElement::Rock)
        } else {
            None
        }
    } else if token.len() == 2 {
        if token[0] == 'B' {
            match digit_value(token[1]) {
                Some(reach) => Some(MazeElement::Bomb { reach, kind: BombType::Normal }),
                None => None,
            }
        } else if token[0] == 'S' {
            match digit_value(token[1]) {
                Some(reach) => Some(MazeElement::Bomb { reach, kind: BombType::Penetrating }),
                None => None,
            }
        } else if token[0] == 'F' {
            match digit_value(token[1]) {
                Some(health) => Some(MazeElement::Enemy { health }),
                None => None,
            }
        } else if token[0] == 'D' {
            match direction_value(token[1]) {
                Some(direction) => Some(MazeElement::Deviate { direction }),
                None => None,
            }
        } else {
            None
        }
    } else {
        None
    }
}

/// The cell can be written: its reach or health is a single digit.
pub open spec fn writable(element: MazeElement) -> bool {
    match element {
        MazeElement::Bomb { reach, .. } => reach <= 9,
        MazeElement::Enemy { health } => health <= 9,
        _ => true,
    }
}

/// The token that stands for a cell that can be written.
pub open spec fn token_of(element: MazeElement) -> Seq<char> {
    match element {
        MazeElement::Empty => seq!['_'],
        MazeElement::Wall => seq!['W'],
        MazeElement::Rock => seq!['R'],
        MazeElement::Bomb { reach, kind: BombType::Normal } => seq!['B', digit_char(reach)],
        MazeElement::Bomb { reach, kind: BombType::Penetrating } => seq!['S', digit_char(reach)],
        MazeElement::Enemy { health } => seq!['F', digit_char(health)],
        MazeElement::Deviate { direction } => seq!['D', direction_char(direction)],
    }
}

/// Why a text that is no token is refused: for its length, or for a
/// character in it.
pub open spec fn token_fault(token: Seq<char>) -> Seq<char> {
    if token.len() == 1 || token.len() == 2 {
        "Not allowed character found"@
    } else {
        "Incorrect maze MazeElement file"@
    }
}

/// Writing down the cell that a token stands for gives the token back.
pub proof fn lemma_token_round_trip(token: Seq<char>)
    requires
        parse_token(token) is Some,
    ensures
        writable(parse_token(token)->0),
        token_of(parse_token(token)->0) == token,
{
    assert(token_of(parse_token(token)->0) =~= token);
}

/// Reading the token of a cell that can be written gives the cell back.
pub proof fn lemma_element_round_trip(element: MazeElement)
    requires
        writable(element),
    ensures
        parse_token(token_of(element)) == Some(element),
{
}

/// The pieces into which the separator cuts a text. There is one piece more
/// than there are separators; a piece may be empty.
pub open spec fn split_on(text: Seq<char>, separator: char) -> Seq<Seq<char>>
    decreases text.len(),
{
    if text.len() == 0 {
        seq![Seq::empty()]
    } else {
        let before = split_on(text.drop_last(), separator);
        if text.last() == separator {
            before.push(Seq::empty())
        } else {
            before.drop_last().push(before.last().push(text.last()))
        }
    }
}

/// A line without the carriage return at its end, if it has one.
pub open spec fn without_carriage_return(line: Seq<char>) -> Seq<char> {
    if line.len() > 0 && line.last() == '\r' {
        line.drop_last()
    } else {
        line
    }
}

/// The lines of a text. Each newline ends a line, and a carriage return
/// just before it is left out of the line. What follows the last newline
/// is a line too, unless it is empty.
pub open spec fn text_lines(text: Seq<char>) -> Seq<Seq<char>> {
    let pieces = split_on(text, '\n');
    let ended = pieces.drop_last().map_values(|line: Seq<char>| without_carriage_return(line));
    if pieces.last().len() == 0 {
        ended
    } else {
        ended.push(pieces.last())
    }
}

/// The tokens of a text: line by line, what the spaces of the line separate.
pub open spec fn text_tokens(text: Seq<char>) -> Seq<Seq<Seq<char>>> {
    text_lines(text).map_values(|line: Seq<char>| split_on(line, ' '))
}

/// Why a board whose rows differ in length is refused.
pub open spec fn shape_fault() -> Seq<char> {
    "Rows of different lengths found"@
}

/// The cells that the tokens stand for, or the fault of the first text
/// among them that is no token.
pub open spec fn parse_tokens(tokens: Seq<Seq<char>>) -> Result<Seq<MazeElement>, Seq<char>>
    decreases tokens.len(),
{
    if tokens.len() == 0 {
        Ok(Seq::empty())
    } else {
        match parse_tokens(tokens.drop_last()) {
            Err(fault) => Err(fault),
            Ok(cells) => match parse_token(tokens.last()) {
                Some(cell) => Ok(cells.push(cell)),
                None => Err(token_fault(tokens.last())),
            },
        }
    }
}

/// The row that a line stands for.
pub open spec fn parse_row(line: Seq<char>) -> Result<Seq<MazeElement>, Seq<char>> {
    parse_tokens(split_on(line, ' '))
}

/// The board that the lines stand for, or the fault of the first line that
/// is no row or has another length than the first row.
pub open spec fn parse_rows(lines: Seq<Seq<char>>) -> Result<Grid, Seq<char>>
    decreases lines.len(),
{
    if lines.len() == 0 {
        Ok(Seq::empty())
    } else {
        match parse_rows(lines.drop_last()) {
            Err(fault) => Err(fault),
            Ok(rows) => match parse_row(lines.last()) {
                Err(fault) => Err(fault),
                Ok(row) => if rows.len() > 0 && row.len() != rows[0].len() {
                    Err(shape_fault())
                } else {
                    Ok(rows.push(row))
                },
            },
        }
    }
}

/// The board that a text stands for, or why it stands for none.
pub open spec fn parse_board(text: Seq<char>) -> Result<Grid, Seq<char>> {
    parse_rows(text_lines(text))
}

/// The texts that lists of characters hold.
pub open spec fn texts(pieces: Seq<Vec<char>>) -> Seq<Seq<char>> {
    pieces.map_values(|piece: Vec<char>| piece@)
}

/// The pieces of a text put together again, with the separator between them.
pub open spec fn join(pieces: Seq<Seq<char>>, separator: char) -> Seq<char>
    decreases pieces.len(),
{
    if pieces.len() == 0 {
        Seq::empty()
    } else if pieces.len() == 1 {
        pieces[0]
    } else {
        join(pieces.drop_last(), separator).push(separator) + pieces.last()
    }
}

/// The tokens of a board that can be written, row by row.
pub open spec fn grid_tokens(grid: Grid) -> Seq<Seq<Seq<char>>> {
    grid.map_values(
        |row: Seq<MazeElement>| row.map_values(|element: MazeElement| token_of(element)),
    )
}

/// Every cell of the board can be written.
pub open spec fn writable_grid(grid: Grid) -> bool {
    forall|x: int, y: int|
        0 <= y < grid.len() && 0 <= x < grid[y].len() ==> writable(#[trigger] grid[y][x])
}

/// Cutting a text and joining the pieces gives the text back, and no piece
/// holds the separator.
pub proof fn lemma_split_on_cuts_at_separators(text: Seq<char>, separator: char)
    ensures
        join(split_on(text, separator), separator) == text,
        forall|i: int|
            0 <= i < split_on(text, separator).len() ==> !(#[trigger] split_on(
                text,
                separator,
            )[i]).contains(separator),
    decreases text.len(),
{
    let pieces = split_on(text, separator);
    if text.len() == 0 {
        assert(join(pieces, separator) =~= text);
    } else {
        let before = split_on(text.drop_last(), separator);
        lemma_split_on_cuts_at_separators(text.drop_last(), separator);
        lemma_split_on_is_never_empty(text.drop_last(), separator);
        if text.last() == separator {
            assert(pieces.drop_last() =~= before);
            assert(join(pieces, separator) =~= text);
        } else {
            let grown = before.last().push(text.last());
            assert(pieces.drop_last() =~= before.drop_last());
            if before.len() == 1 {
                assert(join(pieces, separator) =~= text);
            } else {
                assert(join(pieces, separator) =~= join(before, separator).push(text.last()));
                assert(join(pieces, separator) =~= text);
            }
            assert forall|i: int| 0 <= i < pieces.len() implies !(#[trigger] pieces[i]).contains(
                separator,
            ) by {
                if i == pieces.len() - 1 {
                    assert(!before[i].contains(separator));
                    if grown.contains(separator) {
                        let k = choose|k: int| 0 <= k < grown.len() && grown[k] == separator;
                        assert(before[i][k] == separator);
                    }
                } else {
                    assert(pieces[i] == before[i]);
                }
            }
        }
    }
}

/// Tokens are read one by one: they all stand for cells, and then the
/// result holds those cells in order, or one of them is no token, and then
/// the result is a fault.
pub proof fn lemma_parse_tokens_reads_each(tokens: Seq<Seq<char>>)
    ensures
        parse_tokens(tokens) is Ok <==> forall|i: int|
            0 <= i < tokens.len() ==> parse_token(#[trigger] tokens[i]) is Some,
        parse_tokens(tokens) is Ok ==> parse_tokens(tokens)->Ok_0.len() == tokens.len()
            && forall|i: int|
            0 <= i < tokens.len() ==> parse_token(tokens[i]) == Some(
                #[trigger] parse_tokens(tokens)->Ok_0[i],
            ),
    decreases tokens.len(),
{
    if tokens.len() > 0 {
        lemma_parse_tokens_reads_each(tokens.drop_last());
        if parse_tokens(tokens) is Ok {
            assert forall|i: int| 0 <= i < tokens.len() implies parse_token(
                #[trigger] tokens[i],
            ) is Some by {
                if i < tokens.len() - 1 {
                    assert(tokens.drop_last()[i] == tokens[i]);
                }
            }
        }
        if forall|i: int| 0 <= i < tokens.len() ==> parse_token(#[trigger] tokens[i]) is Some {
            assert forall|i: int| 0 <= i < tokens.drop_last().len() implies parse_token(
                #[trigger] tokens.drop_last()[i],
            ) is Some by {
                assert(tokens.drop_last()[i] == tokens[i]);
            }
            assert(parse_token(tokens[tokens.len() - 1]) is Some);
        }
        if parse_tokens(tokens) is Ok {
            let cells = parse_tokens(tokens)->Ok_0;
            assert forall|i: int| 0 <= i < tokens.len() implies parse_token(tokens[i]) == Some(
                #[trigger] cells[i],
            ) by {
                if i < tokens.len() - 1 {
                    assert(tokens.drop_last()[i] == tokens[i]);
                }
            }
        }
    }
}

/// Lines are read one by one: they all stand for rows of one length, and
/// then the result holds those rows in order, or the result is a fault.
pub proof fn lemma_parse_rows_reads_each(lines: Seq<Seq<char>>)
    ensures
        parse_rows(lines) is Ok <==> forall|i: int|
            0 <= i < lines.len() ==> (#[trigger] parse_row(lines[i])) is Ok && parse_row(
                lines[i],
            )->Ok_0.len() == parse_row(lines[0])->Ok_0.len(),
        parse_rows(lines) is Ok ==> parse_rows(lines)->Ok_0.len() == lines.len() && forall|i: int|
            0 <= i < lines.len() ==> parse_row(lines[i]) == Ok::<Seq<MazeElement>, Seq<char>>(
                #[trigger] parse_rows(lines)->Ok_0[i],
            ),
    decreases lines.len(),
{
    if lines.len() > 0 {
        let before = lines.drop_last();
        lemma_parse_rows_reads_each(before);
        assert forall|i: int| 0 <= i < before.len() implies before[i] == lines[i] by {}
        if parse_rows(lines) is Ok {
            let rows = parse_rows(before)->Ok_0;
            assert forall|i: int| 0 <= i < lines.len() implies (#[trigger] parse_row(
                lines[i],
            )) is Ok && parse_row(lines[i])->Ok_0.len() == parse_row(lines[0])->Ok_0.len() by {
                if i < lines.len() - 1 {
                    assert(before[i] == lines[i]);
                    assert(parse_row(before[i]) is Ok);
                }
                if lines.len() > 1 {
                    assert(before[0] == lines[0]);
                    assert(parse_row(before[0]) == Ok::<Seq<MazeElement>, Seq<char>>(rows[0]));
                }
            }
        }
        if forall|i: int|
            0 <= i < lines.len() ==> (#[trigger] parse_row(lines[i])) is Ok && parse_row(
                lines[i],
            )->Ok_0.len() == parse_row(lines[0])->Ok_0.len() {
            assert forall|i: int| 0 <= i < before.len() implies (#[trigger] parse_row(
                before[i],
            )) is Ok && parse_row(before[i])->Ok_0.len() == parse_row(before[0])->Ok_0.len() by {
                assert(before[i] == lines[i]);
                assert(before[0] == lines[0]);
                assert(parse_row(lines[i]) is Ok);
            }
            assert(parse_row(lines[lines.len() - 1]) is Ok);
            if before.len() > 0 {
                let rows = parse_rows(before)->Ok_0;
                assert(before[0] == lines[0]);
                assert(parse_row(before[0]) == Ok::<Seq<MazeElement>, Seq<char>>(rows[0]));
            }
        }
        if parse_rows(lines) is Ok {
            let rows = parse_rows(lines)->Ok_0;
            assert forall|i: int| 0 <= i < lines.len() implies parse_row(lines[i]) == Ok::<
                Seq<MazeElement>,
                Seq<char>,
            >(#[trigger] rows[i]) by {
                if i < lines.len() - 1 {
                    assert(before[i] == lines[i]);
                }
            }
        }
    }
}

/// A text that stands for a board does so token by token: the board is
/// rectangular, each of its cells can be written, and writing them down
/// gives the tokens of the text back, row by row.
pub proof fn lemma_board_round_trip(text: Seq<char>)
    requires
        parse_board(text) is Ok,
    ensures
        is_rectangular(parse_board(text)->Ok_0),
        writable_grid(parse_board(text)->Ok_0),
        grid_tokens(parse_board(text)->Ok_0) == text_tokens(text),
{
    let grid = parse_board(text)->Ok_0;
    let lines = text_lines(text);
    lemma_parse_rows_reads_each(lines);
    assert forall|y: int| 0 <= y < grid.len() implies (#[trigger] grid[y]).len() == grid[0].len()
        && grid_tokens(grid)[y] == text_tokens(text)[y] && (forall|x: int|
        0 <= x < grid[y].len() ==> writable(#[trigger] grid[y][x])) by {
        let tokens = split_on(lines[y], ' ');
        assert(parse_row(lines[y]) == Ok::<Seq<MazeElement>, Seq<char>>(grid[y]));
        assert(parse_row(lines[0]) == Ok::<Seq<MazeElement>, Seq<char>>(grid[0]));
        lemma_parse_tokens_reads_each(tokens);
        assert forall|x: int| 0 <= x < grid[y].len() implies writable(#[trigger] grid[y][x])
            && token_of(grid[y][x]) == tokens[x] by {
            assert(parse_token(tokens[x]) == Some(grid[y][x]));
            lemma_token_round_trip(tokens[x]);
        }
        assert(grid_tokens(grid)[y] =~= tokens);
    }
    assert(grid_tokens(grid) =~= text_tokens(text));
}

/// A text whose every token stands for a cell, and whose rows hold the
/// same number of tokens, stands for a board.
pub proof fn lemma_board_of_tokens_parses(text: Seq<char>)
    requires
        forall|x: int, y: int|
            0 <= y < text_tokens(text).len() && 0 <= x < text_tokens(text)[y].len()
                ==> parse_token(#[trigger] text_tokens(text)[y][x]) is Some,
        forall|y: int|
            0 <= y < text_tokens(text).len() ==> (#[trigger] text_tokens(text)[y]).len()
                == text_tokens(text)[0].len(),
    ensures
        parse_board(text) is Ok,
{
    let lines = text_lines(text);
    let tokens = text_tokens(text);
    assert forall|i: int| 0 <= i < lines.len() implies (#[trigger] parse_row(lines[i])) is Ok
        && parse_row(lines[i])->Ok_0.len() == parse_row(lines[0])->Ok_0.len() by {
        assert(tokens[i] == split_on(lines[i], ' '));
        assert(tokens[0] == split_on(lines[0], ' '));
        assert(tokens[i].len() == tokens[0].len());
        lemma_parse_tokens_reads_each(tokens[i]);
        lemma_parse_tokens_reads_each(tokens[0]);
        assert forall|x: int| 0 <= x < tokens[i].len() implies parse_token(
            #[trigger] tokens[i][x],
        ) is Some by {
            assert(parse_token(text_tokens(text)[i][x]) is Some);
        }
        assert forall|x: int| 0 <= x < tokens[0].len() implies parse_token(
            #[trigger] tokens[0][x],
        ) is Some by {
            assert(parse_token(text_tokens(text)[0][x]) is Some);
        }
    }
    lemma_parse_rows_reads_each(lines);
}

/// Once some tokens have been refused, reading further ones changes nothing.
pub proof fn lemma_parse_tokens_keeps_fault(tokens: Seq<Seq<char>>, read: int)
    requires
        0 <= read <= tokens.len(),
        parse_tokens(tokens.take(read)) is Err,
    ensures
        parse_tokens(tokens) == parse_tokens(tokens.take(read)),
    decreases tokens.len() - read,
{
    if read < tokens.len() {
        assert(tokens.take(read + 1).drop_last() =~= tokens.take(read));
        lemma_parse_tokens_keeps_fault(tokens, read + 1);
    } else {
        assert(tokens.take(read) =~= tokens);
    }
}

/// Once some lines have been refused, reading further ones changes nothing.
pub proof fn lemma_parse_rows_keeps_fault(lines: Seq<Seq<char>>, read: int)
    requires
        0 <= read <= lines.len(),
        parse_rows(lines.take(read)) is Err,
    ensures
        parse_rows(lines) == parse_rows(lines.take(read)),
    decreases lines.len() - read,
{
    if read < lines.len() {
        assert(lines.take(read + 1).drop_last() =~= lines.take(read));
        lemma_parse_rows_keeps_fault(lines, read + 1);
    } else {
        assert(lines.take(read) =~= lines);
    }
}

/// A text is cut into at least one piece.
pub proof fn lemma_split_on_is_never_empty(text: Seq<char>, separator: char)
    ensures
        split_on(text, separator).len() >= 1,
    decreases text.len(),
{
    if text.len() > 0 {
        lemma_split_on_is_never_empty(text.drop_last(), separator);
    }
}

/// The characters of a text, one by one.
pub fn chars_of(text: &str) -> (chars: Vec<char>)
    ensures
        chars@ == text@,
{
    let mut chars: Vec<char> = Vec::new();
    for c in it: text.chars()
        invariant
            it.seq() == text@,
            chars@ == text@.take(it.index() as int),
    {
        chars.push(c);
    }
    chars
}

/// The error for a text that is no token.
fn refuse_token(token: &[char]) -> (error: MazeError)
    ensures
        error.is_invalid_format(token_fault(token@)),
{
    if token.len() == 1 || token.len() == 2 {
        MazeError::InvalidFormat(String::from_str("Not allowed character found"))
    } else {
        MazeError::InvalidFormat(String::from_str("Incorrect maze MazeElement file"))
    }
}

/// Reads a digit.
fn digit_of(c: char) -> (digit: Option<u8>)
    ensures
        digit == digit_value(c),
{
    if '0' <= c && c <= '9' {
        Some(c as u8 - '0' as u8)
    } else {
        None
    }
}

/// Reads the token that the characters spell.
pub fn chars_to_maze_element(token: &[char]) -> (result: Result<MazeElement, MazeError>)
    ensures
        match result {
            Ok(element) => parse_token(token@) == Some(element),
            Err(error) => parse_token(token@) is None && error.is_invalid_format(
                token_fault(token@),
            ),
        },
{
    if token.len() == 1 {
        match token[0] {
            '_' => Ok(MazeElement::Empty),
            'W' => Ok(MazeElement::Wall),
            'R' => Ok(MazeElement::Rock),
            _ => Err(refuse_token(token)),
        }
    } else if token.len() == 2 {
        match token[0] {
            'B' => match digit_of(token[1]) {
                Some(reach) => Ok(MazeElement::Bomb { reach, kind: BombType::Normal }),
                None => Err(refuse_token(token)),
            },
            'S' => match digit_of(token[1]) {
                Some(reach) => Ok(MazeElement::Bomb { reach, kind: BombType::Penetrating }),
                None => Err(refuse_token(token)),
            },
            'F' => match digit_of(token[1]) {
                Some(health) => Ok(MazeElement::Enemy { health }),
                None => Err(refuse_token(token)),
            },
            'D' => match token[1] {
                'L' => Ok(MazeElement::Deviate { direction: FireDirection::Left }),
                'R' => Ok(MazeElement::Deviate { direction: FireDirection::Right }),
                'U' => Ok(MazeElement::Deviate { direction: FireDirection::Up }),
                'D' => Ok(MazeElement::Deviate { direction: FireDirection::Down }),
                _ => Err(refuse_token(token)),
            },
            _ => Err(refuse_token(token)),
        }
    } else {
        Err(refuse_token(token))
    }
}

/// Reads one token: the cell that it stands for, or `InvalidFormat` where
/// the text is no token.
pub fn str_to_maze_element(element_str: &str) -> (result: Result<MazeElement, MazeError>)
    ensures
        match result {
            Ok(element) => parse_token(element_str@) == Some(element),
            Err(error) => parse_token(element_str@) is None && error.is_invalid_format(
                token_fault(element_str@),
            ),
        },
{
    let chars = chars_of(element_str);
    chars_to_maze_element(chars.as_slice())
}

/// The text of a digit.
fn digit_str(digit: u8) -> (text: &'static str)
    requires
        digit <= 9,
    ensures
        text@ == seq![digit_char(digit)],
{
    proof {
        reveal_strlit("0");
        reveal_strlit("1");
        reveal_strlit("2");
        reveal_strlit("3");
        reveal_strlit("4");
        reveal_strlit("5");
        reveal_strlit("6");
        reveal_strlit("7");
        reveal_strlit("8");
        reveal_strlit("9");
    }
    let text = match digit {
        0 => "0",
        1 => "1",
        2 => "2",
        3 => "3",
        4 => "4",
        5 => "5",
        6 => "6",
        7 => "7",
        8 => "8",
        _ => "9",
    };
    assert(text@ =~= seq![digit_char(digit)]);
    text
}

/// Writes a cell as its token; `None` for a cell that cannot be written,
/// because its reach or health takes more than one digit.
pub fn maze_element_to_str(element: &MazeElement) -> (token: Option<String>)
    ensures
        match token {
            Some(text) => writable(*element) && text@ == token_of(*element),
            None => !writable(*element),
        },
{
    proof {
        reveal_strlit("_");
        reveal_strlit("W");
        reveal_strlit("R");
        reveal_strlit("B");
        reveal_strlit("S");
        reveal_strlit("F");
        reveal_strlit("DL");
        reveal_strlit("DR");
        reveal_strlit("DU");
        reveal_strlit("DD");
    }
    let (letter, digit) = match element {
        MazeElement::Empty => ("_", None),
        MazeElement::Wall => ("W", None),
        MazeElement::Rock => ("R", None),
        MazeElement::Bomb { reach, kind: BombType::Normal } => ("B", Some(*reach)),
        MazeElement::Bomb { reach, kind: BombType::Penetrating } => ("S", Some(*reach)),
        MazeElement::Enemy { health } => ("F", Some(*health)),
        MazeElement::Deviate { direction: FireDirection::Left } => ("DL", None),
        MazeElement::Deviate { direction: FireDirection::Right } => ("DR", None),
        MazeElement::Deviate { direction: FireDirection::Up } => ("DU", None),
        MazeElement::Deviate { direction: FireDirection::Down } => ("DD", None),
    };
    match digit {
        None => {
            let text = String::from_str(letter);
            assert(text@ =~= token_of(*element));
            Some(text)
        },
        Some(digit) => if digit <= 9 {
            let text = String::from_str(letter).concat(digit_str(digit));
            assert(text@ =~= token_of(*element));
            Some(text)
        } else {
            None
        },
    }
}

/// Cuts a text at each separator.
pub fn split_chars(text: &[char], separator: char) -> (pieces: Vec<Vec<char>>)
    ensures
        texts(pieces@) == split_on(text@, separator),
{
    let mut pieces: Vec<Vec<char>> = Vec::new();
    let mut piece: Vec<char> = Vec::new();
    let mut i: usize = 0;
    assert(text@.take(0) =~= Seq::<char>::empty());
    assert(texts(pieces@).push(piece@) =~= seq![Seq::<char>::empty()]);
    while i < text.len()
        invariant
            i <= text.len(),
            texts(pieces@).push(piece@) == split_on(text@.take(i as int), separator),
        decreases text.len() - i,
    {
        let ghost done = texts(pieces@);
        let ghost current = piece@;
        let c = text[i];
        if c == separator {
            pieces.push(piece);
            piece = Vec::new();
            assert(texts(pieces@).push(piece@) =~= done.push(current).push(Seq::empty()));
        } else {
            piece.push(c);
            assert(texts(pieces@).push(piece@) =~= done.push(current).drop_last().push(
                current.push(c),
            ));
        }
        i += 1;
        assert(text@.take(i as int).drop_last() =~= text@.take(i - 1));
    }
    assert(text@.take(i as int) =~= text@);
    pieces.push(piece);
    pieces
}

/// Cuts a text into its lines.
pub fn lines_of(text: &[char]) -> (lines: Vec<Vec<char>>)
    ensures
        texts(lines@) == text_lines(text@),
{
    let mut lines = split_chars(text, '\n');
    proof {
        lemma_split_on_is_never_empty(text@, '\n');
    }
    let ghost pieces = texts(lines@);
    let rest = lines.pop().unwrap();
    assert(texts(lines@) =~= pieces.drop_last());
    let mut i: usize = 0;
    while i < lines.len()
        invariant
            i <= lines.len(),
            lines.len() == pieces.len() - 1,
            forall|k: int| 0 <= k < i ==> lines@[k]@ == without_carriage_return(pieces[k]),
            forall|k: int| i <= k < lines.len() ==> lines@[k]@ == pieces[k],
        decreases lines.len() - i,
    {
        let length = lines[i].len();
        if length > 0 && lines[i][length - 1] == '\r' {
            lines[i].pop();
        }
        i += 1;
    }
    assert(texts(lines@) =~= pieces.drop_last().map_values(
        |line: Seq<char>| without_carriage_return(line),
    ));
    if rest.len() > 0 {
        lines.push(rest);
        assert(texts(lines@) =~= text_lines(text@));
    }
    lines
}

/// Reads one row: the cells that the tokens of the line stand for.
pub fn parse_line(line: &[char]) -> (result: Result<Vec<MazeElement>, MazeError>)
    ensures
        match result {
            Ok(row) => parse_row(line@) == Ok::<Seq<MazeElement>, Seq<char>>(row@),
            Err(error) => parse_row(line@) matches Err(fault) && error.is_invalid_format(fault),
        },
{
    let tokens = split_chars(line, ' ');
    let mut row: Vec<MazeElement> = Vec::new();
    let mut i: usize = 0;
    assert(texts(tokens@).take(0) =~= Seq::<Seq<char>>::empty());
    while i < tokens.len()
        invariant
            i <= tokens.len(),
            texts(tokens@) == split_on(line@, ' '),
            parse_tokens(texts(tokens@).take(i as int)) == Ok::<Seq<MazeElement>, Seq<char>>(
                row@,
            ),
        decreases tokens.len() - i,
    {
        let ghost read = texts(tokens@).take(i + 1);
        assert(read.drop_last() =~= texts(tokens@).take(i as int));
        assert(read.last() == tokens@[i as int]@);
        match chars_to_maze_element(tokens[i].as_slice()) {
            Ok(element) => {
                row.push(element);
            },
            Err(error) => {
                proof {
                    lemma_parse_tokens_keeps_fault(texts(tokens@), i + 1);
                }
                return Err(error);
            },
        }
        i += 1;
    }
    assert(texts(tokens@).take(i as int) =~= texts(tokens@));
    Ok(row)
}

/// Reads a board from its text: the rows of cells that the text stands
/// for, or `InvalidFormat` where a cell is no token or the rows differ in
/// length.
pub fn process_file(file_string: &str) -> (result: Result<Vec<Vec<MazeElement>>, MazeError>)
    ensures
        match result {
            Ok(rows) => parse_board(file_string@) == Ok::<Grid, Seq<char>>(grid_of(rows@)),
            Err(error) => parse_board(file_string@) matches Err(fault) && error.is_invalid_format(
                fault,
            ),
        },
{
    let chars = chars_of(file_string);
    let lines = lines_of(chars.as_slice());
    let mut rows: Vec<Vec<MazeElement>> = Vec::new();
    let mut i: usize = 0;
    assert(texts(lines@).take(0) =~= Seq::<Seq<char>>::empty());
    assert(grid_of(rows@) =~= Seq::<Seq<MazeElement>>::empty());
    while i < lines.len()
        invariant
            i <= lines.len(),
            texts(lines@) == text_lines(file_string@),
            parse_rows(texts(lines@).take(i as int)) == Ok::<Grid, Seq<char>>(grid_of(rows@)),
        decreases lines.len() - i,
    {
        let ghost read = texts(lines@).take(i + 1);
        let ghost before = grid_of(rows@);
        assert(read.drop_last() =~= texts(lines@).take(i as int));
        assert(read.last() == lines@[i as int]@);
        match parse_line(lines[i].as_slice()) {
            Ok(row) => {
                if rows.len() > 0 && row.len() != rows[0].len() {
                    proof {
                        lemma_parse_rows_keeps_fault(texts(lines@), i + 1);
                    }
                    return Err(
                        MazeError::InvalidFormat(
                            String::from_str("Rows of different lengths found"),
                        ),
                    );
                }
                rows.push(row);
                assert(grid_of(rows@) =~= before.push(row@));
            },
            Err(error) => {
                proof {
                    lemma_parse_rows_keeps_fault(texts(lines@), i + 1);
                }
                return Err(error);
            },
        }
        i += 1;
    }
    assert(texts(lines@).take(i as int) =~= texts(lines@));
    Ok(rows)
}

} // verus!
