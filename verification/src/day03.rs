use vstd::prelude::*;
use crate::text::{
    chars_of, copy_range, line_sep, list1, list_rest, parse_line_ending, parse_not_line_ending,
    spec_not_line_ending,
};

verus! {

/// The third day: a field of characters, and the places next to a symbol.
pub struct Day03;

/// A place in a field of characters.
#[derive(Clone, Copy, Debug, PartialEq, Eq)]
pub struct Coordinate {
    pub row: usize,
    pub column: usize,
}

impl Coordinate {
    /// The place at `row` and `column`, if both are given.
    pub open spec fn spec_new(row: Option<usize>, column: Option<usize>) -> Option<Coordinate> {
        match (row, column) {
            (Some(row), Some(column)) => Some(Coordinate { row, column }),
            _ => None,
        }
    }

    /// The place at `row` and `column`, if both are given.
    pub fn new(row: Option<usize>, column: Option<usize>) -> (r: Option<Coordinate>)
        ensures
            r == Self::spec_new(row, column),
    {
        if let (Some(row), Some(column)) = (row, column) {
            Some(Coordinate { row, column })
        } else {
            None
        }
    }
}

/// The two measures of a field.
#[derive(Clone, Copy, Debug, PartialEq, Eq)]
pub struct FieldSize {
    pub rows: usize,
    pub columns: usize,
}

/// The character of `field` at `target`, if `target` is given and lies in the
/// field.
pub open spec fn spec_char_at(field: Seq<Vec<char>>, target: Option<Coordinate>) -> Option<char> {
    match target {
        Some(t) => if t.row < field.len() && t.column < field[t.row as int]@.len() {
            Some(field[t.row as int]@[t.column as int])
        } else {
            None
        },
        None => None,
    }
}

/// The character of `field` at `target`, if `target` is given and lies in the
/// field.
pub fn char_at(field: &Vec<Vec<char>>, target: &Option<Coordinate>) -> (r: Option<char>)
    ensures
        r == spec_char_at(field@, *target),
{
    if let Some(target) = target {
        if target.row < field.len() {
            let row: &Vec<char> = &field[target.row];
            if target.column < row.len() {
                Some(row[target.column])
            } else {
                None
            }
        } else {
            None
        }
    } else {
        None
    }
}

/// The measures of `field`: as `rows` the length of its first line, or 0
/// when it has none, and as `columns` the number of its lines.
pub open spec fn spec_field_dimensions(field: Seq<Vec<char>>) -> FieldSize {
    FieldSize {
        rows: if field.len() > 0 {
            field[0]@.len() as usize
        } else {
            0
        },
        columns: field.len() as usize,
    }
}

/// The measures of `field`: as `rows` the length of its first line, or 0
/// when it has none, and as `columns` the number of its lines.
pub fn field_dimensions(field: &Vec<Vec<char>>) -> (r: FieldSize)
    ensures
        r == spec_field_dimensions(field@),
{
    let rows: usize = if field.len() > 0 {
        field[0].len()
    } else {
        0
    };
    FieldSize { rows, columns: field.len() }
}

/// One more than `lhs`, unless that is `cap`.
pub open spec fn spec_capped_increment(lhs: usize, cap: usize) -> Option<usize> {
    if lhs + 1 == cap {
        None
    } else {
        Some((lhs + 1) as usize)
    }
}

/// One more than `lhs`, unless that is `cap`.
pub fn capped_increment(lhs: usize, cap: usize) -> (r: Option<usize>)
    requires
        lhs < usize::MAX,
    ensures
        r == spec_capped_increment(lhs, cap),
{
    if lhs + 1 == cap {
        None
    } else {
        Some(lhs + 1)
    }
}

/// One less than `n`, unless `n` is 0.
pub open spec fn spec_decrement(n: usize) -> Option<usize> {
    if n == 0 {
        None
    } else {
        Some((n - 1) as usize)
    }
}

/// The eight places around `target`, line by line from the upper left to the
/// lower right; a place is missing where `target` stands at the edge.
pub open spec fn spec_collides_with(field: Seq<Vec<char>>, target: Coordinate) -> Seq<
    Option<Coordinate>,
> {
    let size = spec_field_dimensions(field);
    let left = spec_decrement(target.column);
    let col = Some(target.column);
    let right = spec_capped_increment(target.column, size.columns);
    let up = spec_decrement(target.row);
    let row = Some(target.row);
    let down = spec_capped_increment(target.row, size.rows);
    seq![
        Coordinate::spec_new(up, left),
        Coordinate::spec_new(up, col),
        Coordinate::spec_new(up, right),
        Coordinate::spec_new(row, left),
        Coordinate::spec_new(row, right),
        Coordinate::spec_new(down, left),
        Coordinate::spec_new(down, col),
        Coordinate::spec_new(down, right),
    ]
}

/// The eight places around `target`, line by line from the upper left to the
/// lower right; a place is missing where `target` stands at the edge. The
/// column of `target` is held against the number of lines of the field, its
/// row against the length of the first line.
pub fn collides_with(field: &Vec<Vec<char>>, target: &Coordinate) -> (r: [Option<Coordinate>; 8])
    requires
        target.row < usize::MAX,
        target.column < usize::MAX,
    ensures
        r@ == spec_collides_with(field@, *target),
{
    let field_size = field_dimensions(field);
    let left: Option<usize> = if target.column == 0 {
        None
    } else {
        Some(target.column - 1)
    };
    let col: Option<usize> = Some(target.column);
    let right: Option<usize> = capped_increment(target.column, field_size.columns);
    let up: Option<usize> = if target.row == 0 {
        None
    } else {
        Some(target.row - 1)
    };
    let row: Option<usize> = Some(target.row);
    let down: Option<usize> = capped_increment(target.row, field_size.rows);
    let r = [
        Coordinate::new(up, left),
        Coordinate::new(up, col),
        Coordinate::new(up, right),
        Coordinate::new(row, left),
        Coordinate::new(row, right),
        Coordinate::new(down, left),
        Coordinate::new(down, col),
        Coordinate::new(down, right),
    ];
    proof {
        assert(r@ =~= spec_collides_with(field@, *target));
    }
    r
}

/// `c` is a punctuation character of ASCII other than the full stop.
pub open spec fn is_symbol(c: char) -> bool {
    let n = c as u32;
    n != 46 && (33 <= n <= 47 || 58 <= n <= 64 || 91 <= n <= 96 || 123 <= n <= 126)
}

/// One of the eight places around `target` holds a symbol.
pub open spec fn spec_touches_symbol(field: Seq<Vec<char>>, target: Coordinate) -> bool {
    exists|k: int|
        0 <= k < 8 && (match spec_char_at(field, #[trigger] spec_collides_with(field, target)[k]) {
            Some(c) => is_symbol(c),
            None => false,
        })
}

/// The places of line `row` before column `upto` that have a symbol next to
/// them, from left to right.
pub open spec fn row_hits(field: Seq<Vec<char>>, row: int, upto: int) -> Seq<Coordinate>
    decreases upto,
{
    if upto <= 0 {
        Seq::empty()
    } else {
        let place = Coordinate { row: row as usize, column: (upto - 1) as usize };
        if spec_touches_symbol(field, place) {
            row_hits(field, row, upto - 1).push(place)
        } else {
            row_hits(field, row, upto - 1)
        }
    }
}

/// The places of the lines before line `upto` that have a symbol next to
/// them, line by line.
pub open spec fn field_hits(field: Seq<Vec<char>>, upto: int) -> Seq<Coordinate>
    decreases upto,
{
    if upto <= 0 {
        Seq::empty()
    } else {
        field_hits(field, upto - 1) + row_hits(field, upto - 1, field[upto - 1]@.len() as int)
    }
}

impl Day03 {
    /// The places of the field that have a symbol next to them, line by line
    /// and in each line from left to right.
    pub fn symbol_hits(field: &Vec<Vec<char>>) -> (hits: Vec<Coordinate>)
        ensures
            hits@ == field_hits(field@, field@.len() as int),
    {
        let rows: usize = field.len();
        let mut hits: Vec<Coordinate> = Vec::new();
        let mut row: usize = 0;
        while row < rows
            invariant
                rows == field@.len(),
                row <= rows,
                hits@ == field_hits(field@, row as int),
            decreases rows - row,
        {
            let columns: usize = field[row].len();
            let ghost before = hits@;
            let mut column: usize = 0;
            while column < columns
                invariant
                    rows == field@.len(),
                    row < rows,
                    columns == field@[row as int]@.len(),
                    column <= columns,
                    hits@ == before + row_hits(field@, row as int, column as int),
                decreases columns - column,
            {
                let place = Coordinate { row, column };
                if Self::touches_symbol(field, &place) {
                    hits.push(place);
                }
                proof {
                    assert(hits@ =~= before + row_hits(field@, row as int, column + 1));
                }
                column += 1;
            }
            row += 1;
        }
        hits
    }

    /// Whether one of the eight places around `target` holds a symbol: a
    /// punctuation character other than the full stop.
    pub fn touches_symbol(field: &Vec<Vec<char>>, target: &Coordinate) -> (b: bool)
        requires
            target.row < usize::MAX,
            target.column < usize::MAX,
        ensures
            b == spec_touches_symbol(field@, *target),
    {
        let places = collides_with(field, target);
        let mut k: usize = 0;
        while k < 8
            invariant
                k <= 8,
                places@ == spec_collides_with(field@, *target),
                forall|j: int|
                    0 <= j < k ==> !(match spec_char_at(
                        field@,
                        #[trigger] spec_collides_with(field@, *target)[j],
                    ) {
                        Some(c) => is_symbol(c),
                        None => false,
                    }),
            decreases 8 - k,
        {
            let hit: Option<char> = char_at(field, &places[k]);
            if let Some(c) = hit {
                let n: u32 = c as u32;
                if n != 46 && ((33 <= n && n <= 47) || (58 <= n && n <= 64) || (91 <= n && n <= 96)
                    || (123 <= n && n <= 126)) {
                    return true;
                }
            }
            k += 1;
        }
        false
    }
}

/// The rest of the line from `i` on, and where it ends.
pub open spec fn spec_field_line(s: Seq<char>, i: int) -> Option<(Seq<char>, int)> {
    match spec_not_line_ending(s, i) {
        Some(e) => Some((s.subrange(i, e), e)),
        None => None,
    }
}

/// Reading the rest of a line.
pub open spec fn field_line_item() -> spec_fn(Seq<char>, int) -> Option<(Seq<char>, int)> {
    |s: Seq<char>, i: int| spec_field_line(s, i)
}

/// What the lines of a field hold, as sequences of characters.
pub open spec fn field_views(field: Seq<Vec<char>>) -> Seq<Seq<char>> {
    field.map_values(|line: Vec<char>| line@)
}

impl Day03 {
    /// Reads a field from the start of `input`: its lines, with a line end
    /// between each two. A line may be empty. Hands back the field and the
    /// number of characters read, or `None` when the first line ends in a
    /// carriage return that no line feed follows.
    pub fn parse(input: &str) -> (r: Option<(Vec<Vec<char>>, usize)>)
        ensures
            match r {
                Some((field, e)) => list1(input@, 0, field_line_item(), line_sep()) == Some(
                    (field_views(field@), e as int),
                ) && e <= input@.len(),
                None => list1(input@, 0, field_line_item(), line_sep()).is_none(),
            },
    {
        let text: Vec<char> = chars_of(input);
        let s: &[char] = text.as_slice();
        let start: usize = match parse_not_line_ending(s, 0) {
            Some(e) => e,
            None => {
                return None;
            },
        };
        let mut field: Vec<Vec<char>> = Vec::new();
        let first: Vec<char> = copy_range(s, 0, start);
        proof {
            assert(field_views(field@.push(first)) =~= seq![first@]);
        }
        field.push(first);
        let mut at: usize = start;
        loop
            invariant
                s@ == input@,
                at <= s@.len(),
                list1(s@, 0, field_line_item(), line_sep()) == Some(
                    list_rest(s@, at as int, field_line_item(), line_sep(), field_views(field@)),
                ),
            decreases s@.len() - at,
        {
            let next: usize = match parse_line_ending(s, at) {
                Some(next) => next,
                None => {
                    return Some((field, at));
                },
            };
            match parse_not_line_ending(s, next) {
                Some(m) => {
                    let line: Vec<char> = copy_range(s, next, m);
                    proof {
                        assert(field_views(field@.push(line)) =~= field_views(field@).push(line@));
                    }
                    field.push(line);
                    at = m;
                },
                None => {
                    return Some((field, at));
                },
            }
        }
    }
}

} // verus!
