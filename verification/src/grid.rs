//! The grid: a square field of cells, walls and the start and goal markers,
//! together with the validation that turns raw text lines into a usable
//! search problem. Reading the file is the driver's job; everything the
//! engine relies on about the grid's shape is checked and proved here.

use vstd::prelude::*;
use crate::structs::{Node, Point};
use crate::heuristics::iabs;

verus! {

/// The grid is square, non-empty and small enough that every cell index and
/// cost fits its machine integer.
pub open spec fn grid_square(g: Seq<Vec<char>>) -> bool {
    1 <= g.len() <= 46340 && forall|i: int| 0 <= i < g.len() ==> (#[trigger] g[i])@.len()
        == g.len()
}

/// The cell at `(x, y)` is on the grid and is not a wall.
pub open spec fn passable(g: Seq<Vec<char>>, x: int, y: int) -> bool {
    0 <= x < g.len() && 0 <= y < g.len() && g[x]@[y] != 'W'
}

/// Bounds and wall check for the move from `node` by offset `(x, y)`.
pub fn is_valid_neighbor(graph: &Vec<Vec<char>>, node: &Node, x: i32, y: i32) -> (b: bool)
    requires
        grid_square(graph@),
        -46341 <= node.position.x + x <= 46341,
        -46341 <= node.position.y + y <= 46341,
    ensures
        b == passable(graph@, node.position.x + x, node.position.y + y),
{
    let x0 = node.position.x + x;
    let y0 = node.position.y + y;
    x0 >= 0 && y0 >= 0 && (x0 as usize) < graph.len() && (y0 as usize) < graph.len()
        && graph[x0 as usize][y0 as usize] != 'W'
}

/// The two coordinates are one unit-cost move apart (4-connected).
pub open spec fn adjacent_step(a: Point, b: Point) -> bool {
    iabs(a.x - b.x) + iabs(a.y - b.y) == 1
}

/// The sequence of coordinates walks the grid: every cell is passable and
/// consecutive cells are one move apart.
pub open spec fn is_walk(g: Seq<Vec<char>>, p: Seq<Point>) -> bool {
    &&& p.len() >= 1
    &&& forall|i: int| 0 <= i < p.len() ==> passable(g, (#[trigger] p[i]).x as int, p[i].y as int)
    &&& forall|i: int| 0 <= i < p.len() - 1 ==> adjacent_step(#[trigger] p[i], p[i + 1])
}

/// The walk leads from `from` to `to`.
pub open spec fn connects(g: Seq<Vec<char>>, p: Seq<Point>, from: Point, to: Point) -> bool {
    is_walk(g, p) && p.first() == from && p.last() == to
}

/// Some 4-connected walk over passable cells leads from `from` to `to`.
pub open spec fn reachable(g: Seq<Vec<char>>, from: Point, to: Point) -> bool {
    exists|p: Seq<Point>| connects(g, p, from, to)
}

/// Some 4-connected walk over passable cells of exactly `cost` unit moves
/// leads from `from` to `to`.
pub open spec fn reachable_in(g: Seq<Vec<char>>, from: Point, to: Point, cost: int) -> bool {
    exists|p: Seq<Point>| connects(g, p, from, to) && p.len() == cost + 1
}

/// A passable cell is the endpoint of the zero-move walk from itself.
pub proof fn lemma_walk_single(g: Seq<Vec<char>>, s: Point)
    requires
        passable(g, s.x as int, s.y as int),
    ensures
        reachable_in(g, s, s, 0),
        reachable(g, s, s),
{
    let p = seq![s];
    assert(p.first() == s && p.last() == s);
    assert(connects(g, p, s, s) && p.len() == 0 + 1);
}

/// A walk extends by one unit move onto any adjacent passable cell.
pub proof fn lemma_walk_extend(g: Seq<Vec<char>>, from: Point, a: Point, b: Point, cost: int)
    requires
        reachable_in(g, from, a, cost),
        passable(g, b.x as int, b.y as int),
        adjacent_step(a, b),
    ensures
        reachable_in(g, from, b, cost + 1),
        reachable(g, from, b),
{
    let p = choose|p: Seq<Point>| connects(g, p, from, a) && p.len() == cost + 1;
    let q = p.push(b);
    assert(q.first() == from);
    assert(q.last() == b);
    assert(forall|i: int| 0 <= i < p.len() ==> q[i] == p[i]);
    assert(q[p.len() - 1] == a && q[p.len() as int] == b);
    assert(is_walk(g, q));
    assert(connects(g, q, from, b) && q.len() == cost + 1 + 1);
}

/// How many cells of a row hold the character `c`.
pub open spec fn count_row(row: Seq<char>, c: char) -> nat
    decreases row.len(),
{
    if row.len() == 0 {
        0
    } else {
        count_row(row.drop_last(), c) + if row.last() == c {
            1nat
        } else {
            0nat
        }
    }
}

/// How many cells of the whole grid hold the character `c`.
pub open spec fn count_grid(g: Seq<Vec<char>>, c: char) -> nat
    decreases g.len(),
{
    if g.len() == 0 {
        0
    } else {
        count_grid(g.drop_last(), c) + count_row(g.last()@, c)
    }
}

proof fn lemma_count_row_step(row: Seq<char>, c: char, j: int)
    requires
        0 <= j < row.len(),
    ensures
        count_row(row.take(j + 1), c) == count_row(row.take(j), c) + if row[j] == c {
            1nat
        } else {
            0nat
        },
{
    assert(row.take(j + 1).drop_last() =~= row.take(j));
    assert(row.take(j + 1).last() == row[j]);
}

proof fn lemma_count_grid_step(g: Seq<Vec<char>>, c: char, i: int)
    requires
        0 <= i < g.len(),
    ensures
        count_grid(g.take(i + 1), c) == count_grid(g.take(i), c) + count_row(g[i]@, c),
{
    assert(g.take(i + 1).drop_last() =~= g.take(i));
    assert(g.take(i + 1).last() == g[i]);
}

proof fn lemma_count_grid_prefix_le(g: Seq<Vec<char>>, c: char, i: int)
    requires
        0 <= i <= g.len(),
    ensures
        count_grid(g.take(i), c) <= count_grid(g, c),
    decreases g.len() - i,
{
    if i == g.len() {
        assert(g.take(i) =~= g);
    } else {
        lemma_count_grid_step(g, c, i);
        lemma_count_grid_prefix_le(g, c, i + 1);
    }
}

proof fn lemma_count_row_prefix_le(row: Seq<char>, c: char, j: int)
    requires
        0 <= j <= row.len(),
    ensures
        count_row(row.take(j), c) <= count_row(row, c),
    decreases row.len() - j,
{
    if j == row.len() {
        assert(row.take(j) =~= row);
    } else {
        lemma_count_row_step(row, c, j);
        lemma_count_row_prefix_le(row, c, j + 1);
    }
}

/// Scan the grid for the unique cell holding `c`. `Err(false)` reports that
/// no cell holds it, `Err(true)` that more than one does.
pub fn locate_unique(graph: &Vec<Vec<char>>, c: char) -> (r: Result<Point, bool>)
    requires
        grid_square(graph@),
    ensures
        match r {
            Ok(p) => count_grid(graph@, c) == 1 && 0 <= p.x < graph@.len() && 0 <= p.y
                < graph@.len() && graph@[p.x as int]@[p.y as int] == c,
            Err(dup) => if dup {
                count_grid(graph@, c) >= 2
            } else {
                count_grid(graph@, c) == 0
            },
        },
{
    let n = graph.len();
    let mut found: Option<Point> = None;
    let mut i: usize = 0;
    while i < n
        invariant
            grid_square(graph@),
            n == graph@.len(),
            0 <= i <= n,
            match found {
                None => count_grid(graph@.take(i as int), c) == 0,
                Some(p) => count_grid(graph@.take(i as int), c) == 1 && 0 <= p.x < n && 0
                    <= p.y < n && graph@[p.x as int]@[p.y as int] == c,
            },
        decreases n - i,
    {
        let row = &graph[i];
        let mut j: usize = 0;
        while j < n
            invariant
                grid_square(graph@),
                n == graph@.len(),
                0 <= i < n,
                0 <= j <= n,
                row == &graph[i as int],
                row@.len() == n,
                match found {
                    None => count_grid(graph@.take(i as int), c) + count_row(
                        row@.take(j as int),
                        c,
                    ) == 0,
                    Some(p) => count_grid(graph@.take(i as int), c) + count_row(
                        row@.take(j as int),
                        c,
                    ) == 1 && 0 <= p.x < n && 0 <= p.y < n && graph@[p.x as int]@[p.y as int]
                        == c,
                },
            decreases n - j,
        {
            proof {
                lemma_count_row_step(row@, c, j as int);
            }
            if row[j] == c {
                if found.is_some() {
                    proof {
                        lemma_count_row_prefix_le(row@, c, j as int + 1);
                        lemma_count_grid_step(graph@, c, i as int);
                        lemma_count_grid_prefix_le(graph@, c, i as int + 1);
                    }
                    return Err(true);
                }
                found = Some(Point { x: i as i32, y: j as i32 });
            }
            j = j + 1;
        }
        proof {
            lemma_count_grid_step(graph@, c, i as int);
            assert(row@.take(n as int) =~= row@);
        }
        i = i + 1;
    }
    proof {
        assert(graph@.take(n as int) =~= graph@);
    }
    match found {
        Some(p) => Ok(p),
        None => Err(false),
    }
}

/// A decimal digit's value, or a marker value for non-digits.
pub open spec fn digit_val(c: char) -> int {
    c as u32 - 48
}

/// Every character of the sequence is a decimal digit.
pub open spec fn all_digits(s: Seq<char>) -> bool {
    forall|i: int| 0 <= i < s.len() ==> 48 <= (#[trigger] s[i]) as u32 <= 57
}

/// The number that a sequence of decimal digits denotes.
pub open spec fn digits_value(s: Seq<char>) -> int
    decreases s.len(),
{
    if s.len() == 0 {
        0
    } else {
        digits_value(s.drop_last()) * 10 + digit_val(s.last())
    }
}

proof fn lemma_digits_value_nonneg(s: Seq<char>)
    requires
        all_digits(s),
    ensures
        digits_value(s) >= 0,
    decreases s.len(),
{
    if s.len() > 0 {
        assert(all_digits(s.drop_last()));
        lemma_digits_value_nonneg(s.drop_last());
    }
}

proof fn lemma_digits_value_step(s: Seq<char>, j: int)
    requires
        0 <= j < s.len(),
    ensures
        digits_value(s.take(j + 1)) == digits_value(s.take(j)) * 10 + digit_val(s[j]),
{
    assert(s.take(j + 1).drop_last() =~= s.take(j));
    assert(s.take(j + 1).last() == s[j]);
}

proof fn lemma_digits_value_prefix_le(s: Seq<char>, j: int)
    requires
        all_digits(s),
        0 <= j <= s.len(),
    ensures
        digits_value(s.take(j)) <= digits_value(s),
    decreases s.len() - j,
{
    if j == s.len() {
        assert(s.take(j) =~= s);
    } else {
        lemma_digits_value_step(s, j);
        assert(all_digits(s.take(j)));
        lemma_digits_value_nonneg(s.take(j));
        lemma_digits_value_prefix_le(s, j + 1);
    }
}

/// Parse the grid dimension from its text line. Accepts exactly the
/// non-empty all-digit lines whose value is between 1 and 46340.
pub fn parse_dimension(line: &Vec<char>) -> (r: Option<usize>)
    ensures
        match r {
            Some(n) => line@.len() >= 1 && all_digits(line@) && n == digits_value(line@) && 1
                <= n <= 46340,
            None => line@.len() == 0 || !all_digits(line@) || digits_value(line@) == 0
                || digits_value(line@) > 46340,
        },
{
    if line.len() == 0 {
        return None;
    }
    let mut value: u64 = 0;
    let mut j: usize = 0;
    while j < line.len()
        invariant
            0 <= j <= line@.len(),
            value == digits_value(line@.take(j as int)),
            0 <= value <= 46340,
            forall|k: int| 0 <= k < j ==> 48 <= (#[trigger] line@[k]) as u32 <= 57,
        decreases line@.len() - j,
    {
        let c = line[j];
        let v = c as u32;
        proof {
            lemma_digits_value_step(line@, j as int);
        }
        if v < 48 || v > 57 {
            return None;
        }
        let d = (v - 48) as u64;
        let next = value * 10 + d;
        if next > 46340 {
            proof {
                if all_digits(line@) {
                    lemma_digits_value_prefix_le(line@, j as int + 1);
                }
            }
            return None;
        }
        value = next;
        j = j + 1;
    }
    proof {
        assert(line@.take(line@.len() as int) =~= line@);
    }
    if value == 0 {
        None
    } else {
        Some(value as usize)
    }
}

/// Grid validation errors: the fatal configuration failures that are
/// reported before any worker starts.
#[derive(Clone, Copy, Debug, PartialEq, Eq, Structural)]
pub enum GridError {
    /// The first line is not a usable dimension.
    BadSize,
    /// The cell rows do not form a square of the declared dimension.
    BadShape,
    /// Some cell is not one of `.`, `W`, `S`, `E`.
    BadCell,
    /// No start cell, or more than one.
    BadStart,
    /// No goal cell, or more than one.
    BadGoal,
}

/// The dimension line denotes a usable grid side.
pub open spec fn size_line_ok(l: Seq<char>) -> bool {
    l.len() >= 1 && all_digits(l) && 1 <= digits_value(l) <= 46340
}

/// Every cell of the grid is from the `{., W, S, E}` alphabet.
pub open spec fn cells_ok(g: Seq<Vec<char>>) -> bool {
    forall|i: int, j: int| 0 <= i < g.len() && 0 <= j < g[i]@.len() ==> ((#[trigger] g[i]@[j])
        == '.' || g[i]@[j] == 'W' || g[i]@[j] == 'S' || g[i]@[j] == 'E')
}

/// Check that every row has length `n` and every cell is from the alphabet.
fn check_shape(rows: &Vec<Vec<char>>, n: usize) -> (r: Result<(), GridError>)
    requires
        rows@.len() == n,
    ensures
        match r {
            Ok(()) => grid_square(rows@) && cells_ok(rows@) && 1 <= n,
            Err(e) => (e == GridError::BadShape || e == GridError::BadCell) && (e
                == GridError::BadShape ==> !(grid_square(rows@) && n <= 46340)) && (e
                == GridError::BadCell ==> grid_square(rows@) && !cells_ok(rows@)),
        },
        n == 0 || n > 46340 ==> r == Result::<(), GridError>::Err(GridError::BadShape),
{
    if n == 0 || n > 46340 {
        return Err(GridError::BadShape);
    }
    let mut i: usize = 0;
    while i < n
        invariant
            rows@.len() == n,
            1 <= n <= 46340,
            0 <= i <= n,
            forall|k: int| 0 <= k < i ==> (#[trigger] rows@[k])@.len() == n,
        decreases n - i,
    {
        if rows[i].len() != n {
            return Err(GridError::BadShape);
        }
        i = i + 1;
    }
    let mut i2: usize = 0;
    while i2 < n
        invariant
            rows@.len() == n,
            1 <= n <= 46340,
            grid_square(rows@),
            0 <= i2 <= n,
            forall|k: int, j: int|
                0 <= k < i2 && 0 <= j < rows@[k]@.len() ==> ((#[trigger] rows@[k]@[j]) == '.'
                    || rows@[k]@[j] == 'W' || rows@[k]@[j] == 'S' || rows@[k]@[j] == 'E'),
        decreases n - i2,
    {
        let row = &rows[i2];
        let mut j: usize = 0;
        while j < n
            invariant
                rows@.len() == n,
                1 <= n <= 46340,
                grid_square(rows@),
                0 <= i2 < n,
                0 <= j <= n,
                row == &rows@[i2 as int],
                row@.len() == n,
                forall|k: int, j2: int|
                    0 <= k < i2 && 0 <= j2 < rows@[k]@.len() ==> ((#[trigger] rows@[k]@[j2])
                        == '.' || rows@[k]@[j2] == 'W' || rows@[k]@[j2] == 'S' || rows@[k]@[j2]
                        == 'E'),
                forall|j2: int|
                    0 <= j2 < j ==> ((#[trigger] row@[j2]) == '.' || row@[j2] == 'W'
                        || row@[j2] == 'S' || row@[j2] == 'E'),
            decreases n - j,
        {
            let c = row[j];
            if c != '.' && c != 'W' && c != 'S' && c != 'E' {
                return Err(GridError::BadCell);
            }
            j = j + 1;
        }
        i2 = i2 + 1;
    }
    Ok(())
}

/// Turn the raw lines of a grid file into a validated search problem: the
/// first line is the dimension, the rest the square of cells with exactly
/// one start `S` and one goal `E`. Every malformed input is rejected with
/// the first applicable error, before any worker would start.
pub fn parse_graph(lines: Vec<Vec<char>>) -> (r: Result<(Vec<Vec<char>>, Point, Point), GridError>)
    ensures
        ({
            let rest = lines@.subrange(1, lines@.len() as int);
            r is Ok <==> lines@.len() >= 1 && size_line_ok(lines@[0]@) && rest.len()
                == digits_value(lines@[0]@) && grid_square(rest) && cells_ok(rest)
                && count_grid(rest, 'S') == 1 && count_grid(rest, 'E') == 1
        }),
        match r {
            Ok((graph, start, end)) => {
                &&& lines@.len() >= 1
                &&& graph@ =~= lines@.subrange(1, lines@.len() as int)
                &&& grid_square(graph@)
                &&& cells_ok(graph@)
                &&& graph@.len() == digits_value(lines@[0]@)
                &&& count_grid(graph@, 'S') == 1
                &&& count_grid(graph@, 'E') == 1
                &&& 0 <= start.x < graph@.len() && 0 <= start.y < graph@.len()
                &&& graph@[start.x as int]@[start.y as int] == 'S'
                &&& 0 <= end.x < graph@.len() && 0 <= end.y < graph@.len()
                &&& graph@[end.x as int]@[end.y as int] == 'E'
            },
            Err(_) => true,
        },
        r is Err ==> {
            let e = r->Err_0;
            let rest = lines@.subrange(1, lines@.len() as int);
            ||| e == GridError::BadSize && (lines@.len() == 0 || !size_line_ok(lines@[0]@))
            ||| e == GridError::BadShape && lines@.len() >= 1 && size_line_ok(lines@[0]@)
                && !(rest.len() == digits_value(lines@[0]@) && grid_square(rest))
            ||| e == GridError::BadCell && grid_square(rest) && !cells_ok(rest)
            ||| e == GridError::BadStart && grid_square(rest) && cells_ok(rest) && count_grid(
                rest,
                'S',
            ) != 1
            ||| e == GridError::BadGoal && grid_square(rest) && cells_ok(rest) && count_grid(
                rest,
                'S',
            ) == 1 && count_grid(rest, 'E') != 1
        },
{
    let mut lines = lines;
    if lines.len() == 0 {
        return Err(GridError::BadSize);
    }
    let n = match parse_dimension(&lines[0]) {
        Some(n) => n,
        None => {
            return Err(GridError::BadSize);
        },
    };
    let rows = lines.split_off(1);
    if rows.len() != n {
        return Err(GridError::BadShape);
    }
    match check_shape(&rows, n) {
        Ok(()) => (),
        Err(e) => {
            return Err(e);
        },
    }
    let start = match locate_unique(&rows, 'S') {
        Ok(p) => p,
        Err(_) => {
            return Err(GridError::BadStart);
        },
    };
    let end = match locate_unique(&rows, 'E') {
        Ok(p) => p,
        Err(_) => {
            return Err(GridError::BadGoal);
        },
    };
    Ok((rows, start, end))
}

} // verus!
