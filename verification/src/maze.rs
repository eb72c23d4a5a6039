use vstd::prelude::*;
use vstd::string::StrSliceExecFns;

verus! {

broadcast use vstd::seq_lib::lemma_seq_contains_after_push;

/// A rectangular field of cells.
pub struct Maze<T> {
    pub rows: usize,
    pub columns: usize,
    pub field: Vec<Vec<T>>,
}

/// The four straight directions.
#[derive(Debug, Copy, Clone, PartialEq, Eq, PartialOrd, Ord)]
pub enum Direction {
    Up,
    Down,
    Left,
    Right,
}

impl<T> Maze<T> {
    /// The field really is `rows` by `columns`.
    pub open spec fn wf(self) -> bool {
        &&& self.field@.len() == self.rows
        &&& forall|i: int| 0 <= i < self.rows ==> (#[trigger] self.field@[i])@.len() == self.columns
    }
}

/// `(x2, y2)` touches `(x, y)`: one of its eight surrounding cells.
pub open spec fn is_adjacent(x: int, y: int, x2: int, y2: int) -> bool {
    &&& !(x2 == x && y2 == y)
    &&& x - 1 <= x2 <= x + 1
    &&& y - 1 <= y2 <= y + 1
}

/// How many cells of a row are open.
pub open spec fn count_open_row(s: Seq<bool>) -> nat
    decreases s.len(),
{
    if s.len() == 0 {
        0
    } else {
        count_open_row(s.drop_last()) + (if s.last() {
            1nat
        } else {
            0nat
        })
    }
}

/// How many cells of the whole field are open.
pub open spec fn count_open(g: Seq<Vec<bool>>) -> nat
    decreases g.len(),
{
    if g.len() == 0 {
        0
    } else {
        count_open(g.drop_last()) + count_open_row(g.last()@)
    }
}

/// Closing one open cell of a row lowers its open count by one.
proof fn lemma_count_open_row_update(s: Seq<bool>, j: int)
    requires
        0 <= j < s.len(),
        s[j],
    ensures
        count_open_row(s.update(j, false)) + 1 == count_open_row(s),
    decreases s.len(),
{
    let t = s.update(j, false);
    if j == s.len() - 1 {
        assert(t.drop_last() =~= s.drop_last());
    } else {
        assert(t.drop_last() =~= s.drop_last().update(j, false));
        lemma_count_open_row_update(s.drop_last(), j);
    }
}

/// Closing cells never raises a row's open count.
proof fn lemma_count_open_row_mono(s1: Seq<bool>, s2: Seq<bool>)
    requires
        s1.len() == s2.len(),
        forall|k: int| 0 <= k < s2.len() ==> (#[trigger] s2[k] ==> s1[k]),
    ensures
        count_open_row(s2) <= count_open_row(s1),
    decreases s1.len(),
{
    if s1.len() > 0 {
        lemma_count_open_row_mono(s1.drop_last(), s2.drop_last());
    }
}

/// Closing one open cell of the field lowers its open count by one.
proof fn lemma_count_open_update(g: Seq<Vec<bool>>, i: int, nr: Vec<bool>, j: int)
    requires
        0 <= i < g.len(),
        0 <= j < g[i]@.len(),
        g[i]@[j],
        nr@ == g[i]@.update(j, false),
    ensures
        count_open(g.update(i, nr)) + 1 == count_open(g),
    decreases g.len(),
{
    let t = g.update(i, nr);
    if i == g.len() - 1 {
        assert(t.drop_last() =~= g.drop_last());
        lemma_count_open_row_update(g[i]@, j);
    } else {
        assert(t.drop_last() =~= g.drop_last().update(i, nr));
        assert(t.last() == g.last());
        lemma_count_open_update(g.drop_last(), i, nr, j);
    }
}

/// Closing cells never raises the field's open count.
proof fn lemma_count_open_mono(g1: Seq<Vec<bool>>, g2: Seq<Vec<bool>>)
    requires
        g1.len() == g2.len(),
        forall|i: int| 0 <= i < g1.len() ==> (#[trigger] g1[i])@.len() == g2[i]@.len(),
        forall|i: int, k: int|
            0 <= i < g2.len() && 0 <= k < g2[i]@.len() ==> (#[trigger] g2[i]@[k] ==> g1[i]@[k]),
    ensures
        count_open(g2) <= count_open(g1),
    decreases g1.len(),
{
    if g1.len() > 0 {
        lemma_count_open_mono(g1.drop_last(), g2.drop_last());
        lemma_count_open_row_mono(g1.last()@, g2.last()@);
    }
}

impl Maze<bool> {
    /// Flood fill: closes the cell at `(x, y)` if it is open, together with
    /// every open cell reachable from it over adjacent open cells.  Cells are
    /// only ever closed, the starting cell ends closed, and no cell that was
    /// closed along the way keeps an open neighbour.
    #[verifier::loop_isolation(false)]
    pub fn dfs(&mut self, x: usize, y: usize)
        requires
            old(self).wf(),
            x < old(self).columns,
            y < old(self).rows,
        ensures
            final(self).wf(),
            final(self).rows == old(self).rows,
            final(self).columns == old(self).columns,
            forall|i: int, k: int|
                0 <= i < old(self).rows && 0 <= k < old(self).columns ==> ((
                #[trigger] final(self).field@[i]@[k]) ==> old(self).field@[i]@[k]),
            !final(self).field@[y as int]@[x as int],
            forall|a: int, b: int|
                0 <= a < old(self).columns && 0 <= b < old(self).rows
                    && old(self).field@[b]@[a] && !final(self).field@[b]@[a] ==> (forall|c: int, d: int|
                    0 <= c < old(self).columns && 0 <= d < old(self).rows && is_adjacent(a, b, c, d)
                        ==> !(#[trigger] final(self).field@[d]@[c])),
        decreases count_open(old(self).field@),
    {
        let ghost g0 = old(self).field@;
        let rows = self.rows;
        let columns = self.columns;
        if self.field[y][x] {
            let ghost row0 = self.field@[y as int]@;
            self.field[y][x] = false;
            let ghost g1 = self.field@;
            proof {
                assert(g1[y as int]@ =~= row0.update(x as int, false));
                lemma_count_open_update(g0, y as int, self.field@[y as int], x as int);
            }
            let positions = self.movable_positions(x, y);
            let mut j: usize = 0;
            while j < positions.len()
                invariant
                    self.wf(),
                    self.rows == rows,
                    self.columns == columns,
                    x < columns,
                    y < rows,
                    j <= positions@.len(),
                    g1.len() == rows,
                    forall|i: int| 0 <= i < rows ==> (#[trigger] g1[i])@.len() == columns,
                    count_open(g1) + 1 == count_open(g0),
                    forall|p: (usize, usize)|
                        positions@.contains(p) <==> (is_adjacent(
                            x as int,
                            y as int,
                            p.0 as int,
                            p.1 as int,
                        ) && p.0 < columns && p.1 < rows),
                    forall|i: int, k: int|
                        0 <= i < rows && 0 <= k < columns ==> (#[trigger] self.field@[i]@[k]
                            ==> g1[i]@[k]),
                    !self.field@[y as int]@[x as int],
                    forall|k: int|
                        0 <= k < j ==> !(#[trigger] self.field@[positions@[k].1 as int]@[positions@[k].0 as int]),
                    forall|a: int, b: int|
                        0 <= a < columns && 0 <= b < rows && g0[b]@[a] && !self.field@[b]@[a] && !(a
                            == x as int && b == y as int) ==> (forall|c: int, d: int|
                            0 <= c < columns && 0 <= d < rows && is_adjacent(a, b, c, d) ==> !(
                            #[trigger] self.field@[d]@[c])),
                decreases positions@.len() - j,
            {
                let p = positions[j];
                let ghost mid = self.field@;
                proof {
                    assert(positions@.contains(positions@[j as int]));
                    lemma_count_open_mono(g1, self.field@);
                }
                self.dfs(p.0, p.1);
                proof {
                    assert forall|k: int|
                        0 <= k < j + 1 implies !(
                    #[trigger] self.field@[positions@[k].1 as int]@[positions@[k].0 as int]) by {
                        assert(positions@.contains(positions@[k]));
                        if k < j {
                            assert(!mid[positions@[k].1 as int]@[positions@[k].0 as int]);
                        }
                    }
                    assert forall|a: int, b: int|
                        0 <= a < columns && 0 <= b < rows && g0[b]@[a] && !self.field@[b]@[a] && !(a
                            == x as int && b == y as int) implies (forall|c: int, d: int|
                        0 <= c < columns && 0 <= d < rows && is_adjacent(a, b, c, d) ==> !(
                        #[trigger] self.field@[d]@[c])) by {
                        if mid[b]@[a] {
                        } else {
                        }
                    }
                }
                j = j + 1;
            }
            proof {
                assert forall|c: int, d: int|
                    0 <= c < columns && 0 <= d < rows && is_adjacent(x as int, y as int, c, d)
                    implies !(#[trigger] self.field@[d]@[c]) by {
                    let p = (c as usize, d as usize);
                    assert(positions@.contains(p));
                    let k = choose|k: int| 0 <= k < positions@.len() && positions@[k] == p;
                }
            }
        }
    }

    /// The cells one step away from `(x, y)` in any of the eight directions,
    /// as far as they lie on the field: exactly the valid adjacent positions.
    pub fn movable_positions(&self, x: usize, y: usize) -> (r: Vec<(usize, usize)>)
        requires
            x < self.columns,
            y < self.rows,
        ensures
            forall|p: (usize, usize)|
                r@.contains(p) <==> (is_adjacent(x as int, y as int, p.0 as int, p.1 as int) && p.0
                    < self.columns && p.1 < self.rows),
    {
        let mut positions: Vec<(usize, usize)> = Vec::new();
        if y > 0 {
            if x > 0 {
                positions.push((x - 1, y - 1));
            }
            positions.push((x, y - 1));
            if x + 1 < self.columns {
                positions.push((x + 1, y - 1));
            }
        }
        if x > 0 {
            positions.push((x - 1, y));
        }
        if x + 1 < self.columns {
            positions.push((x + 1, y));
        }
        if y + 1 < self.rows {
            if x > 0 {
                positions.push((x - 1, y + 1));
            }
            positions.push((x, y + 1));
            if x + 1 < self.columns {
                positions.push((x + 1, y + 1));
            }
        }
        positions
    }
}

/// Turns the lines of a maze into open/closed cells: a cell is open exactly
/// when its character is not the wall character.
pub fn parse_maze(lines: &Vec<String>, wall_ch: char) -> (r: Vec<Vec<bool>>)
    ensures
        r@.len() == lines@.len(),
        forall|i: int| 0 <= i < lines@.len() ==> (#[trigger] r@[i])@.len() == lines@[i]@.len(),
        forall|i: int, j: int|
            0 <= i < lines@.len() && 0 <= j < lines@[i]@.len() ==> (#[trigger] r@[i]@[j]) == (
            lines@[i]@[j] != wall_ch),
{
    let mut rows: Vec<Vec<bool>> = Vec::new();
    let mut i: usize = 0;
    while i < lines.len()
        invariant
            rows@.len() == i <= lines@.len(),
            forall|k: int| 0 <= k < i ==> (#[trigger] rows@[k])@.len() == lines@[k]@.len(),
            forall|k: int, j: int|
                0 <= k < i && 0 <= j < lines@[k]@.len() ==> (#[trigger] rows@[k]@[j]) == (
                lines@[k]@[j] != wall_ch),
        decreases lines@.len() - i,
    {
        let line = &lines[i];
        let len = line.as_str().unicode_len();
        let mut row: Vec<bool> = Vec::new();
        let mut j: usize = 0;
        while j < len
            invariant
                len == lines@[i as int]@.len(),
                line@ == lines@[i as int]@,
                i < lines@.len(),
                row@.len() == j <= len,
                forall|t: int|
                    0 <= t < j ==> (#[trigger] row@[t]) == (lines@[i as int]@[t] != wall_ch),
            decreases len - j,
        {
            let c = line.as_str().get_char(j);
            row.push(c != wall_ch);
            j = j + 1;
        }
        rows.push(row);
        i = i + 1;
    }
    rows
}

/// Walls the maze in: a closed border all the way around, with every original
/// row kept in the middle, one cell in from each side.
pub fn surround_wall(maze: &mut Vec<Vec<bool>>)
    requires
        old(maze)@.len() > 0,
        old(maze)@[0]@.len() <= usize::MAX - 2,
    ensures
        final(maze)@.len() == old(maze)@.len() + 2,
        final(maze)@[0]@.len() == old(maze)@[0]@.len() + 2,
        final(maze)@.last()@.len() == old(maze)@[0]@.len() + 2,
        forall|j: int| 0 <= j < final(maze)@[0]@.len() ==> !(#[trigger] final(maze)@[0]@[j]),
        forall|j: int|
            0 <= j < final(maze)@.last()@.len() ==> !(#[trigger] final(maze)@.last()@[j]),
        forall|i: int|
            0 <= i < old(maze)@.len() ==> (#[trigger] final(maze)@[i + 1])@.len()
                == old(maze)@[i]@.len() + 2,
        forall|i: int|
            0 <= i < old(maze)@.len() ==> !(#[trigger] final(maze)@[i + 1])@[0]
                && !final(maze)@[i + 1]@.last(),
        forall|i: int, j: int|
            0 <= i < old(maze)@.len() && 0 <= j < old(maze)@[i]@.len() ==> (
            #[trigger] final(maze)@[i + 1]@[j + 1]) == old(maze)@[i]@[j],
{
    let n_line = maze[0].len() + 2;
    let mut result: Vec<Vec<bool>> = Vec::new();
    let mut top: Vec<bool> = Vec::new();
    let mut j: usize = 0;
    while j < n_line
        invariant
            top@.len() == j <= n_line,
            forall|t: int| 0 <= t < j ==> !(#[trigger] top@[t]),
        decreases n_line - j,
    {
        top.push(false);
        j = j + 1;
    }
    let bottom = top.clone();
    result.push(top);
    let mut i: usize = 0;
    while i < maze.len()
        invariant
            maze@ == old(maze)@,
            i <= maze@.len(),
            result@.len() == i + 1,
            result@[0]@.len() == n_line,
            forall|t: int| 0 <= t < n_line ==> !(#[trigger] result@[0]@[t]),
            forall|k: int|
                0 <= k < i ==> (#[trigger] result@[k + 1])@.len() == maze@[k]@.len() + 2,
            forall|k: int|
                0 <= k < i ==> !(#[trigger] result@[k + 1])@[0] && !result@[k + 1]@.last(),
            forall|k: int, j2: int|
                0 <= k < i && 0 <= j2 < maze@[k]@.len() ==> #[trigger] result@[k + 1]@[j2 + 1]
                    == maze@[k]@[j2],
        decreases maze@.len() - i,
    {
        let src = &maze[i];
        let mut line: Vec<bool> = Vec::new();
        line.push(false);
        let mut j2: usize = 0;
        while j2 < src.len()
            invariant
                src@ == maze@[i as int]@,
                i < maze@.len(),
                line@.len() == j2 + 1,
                j2 <= src@.len(),
                !line@[0],
                forall|t: int| 0 <= t < j2 ==> #[trigger] line@[t + 1] == src@[t],
            decreases src@.len() - j2,
        {
            line.push(src[j2]);
            j2 = j2 + 1;
        }
        line.push(false);
        result.push(line);
        i = i + 1;
    }
    result.push(bottom);
    *maze = result;
}

} // verus!
