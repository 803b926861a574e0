use vstd::prelude::*;

use crate::board::{rectangular, Game};

verus! {

/// A piece cell that takes room on the board.
pub open spec fn filled(c: char) -> bool {
    c != '.'
}

/// The board's width: the length of its first row.
pub open spec fn width(g: Seq<Seq<char>>) -> int {
    if g.len() > 0 {
        g[0].len() as int
    } else {
        0
    }
}

/// Every filled piece cell, with the piece's top-left cell at `(x, y)`, lands
/// on the board and on no enemy cell.
pub open spec fn fits(g: Seq<Seq<char>>, p: Seq<Seq<char>>, e1: char, e2: char, x: int, y: int) -> bool {
    forall|i: int, j: int|
        0 <= i < p.len() && 0 <= j < p[i].len() && filled(#[trigger] p[i][j]) ==> x + i < g.len()
            && y + j < width(g) && g[x + i][y + j] != e1 && g[x + i][y + j] != e2
}

/// A filled piece cell lands on an occupied board cell.
pub open spec fn touches(g: Seq<Seq<char>>, c: char, gx: int, gy: int) -> bool {
    filled(c) && 0 <= gx < g.len() && 0 <= gy < width(g) && g[gx][gy] != '.'
}

/// How many of the first `n` cells of a piece row, laid from `(gx, y)`,
/// land on occupied board cells.
pub open spec fn row_overlap(g: Seq<Seq<char>>, row: Seq<char>, gx: int, y: int, n: int) -> nat
    decreases n,
{
    if n <= 0 {
        0
    } else {
        row_overlap(g, row, gx, y, n - 1) + if touches(g, row[n - 1], gx, y + n - 1) {
            1nat
        } else {
            0nat
        }
    }
}

/// How many filled cells of the first `m` piece rows land on occupied board
/// cells, with the piece anchored at `(x, y)`.
pub open spec fn overlap_rows(g: Seq<Seq<char>>, p: Seq<Seq<char>>, x: int, y: int, m: int) -> nat
    decreases m,
{
    if m <= 0 {
        0
    } else {
        overlap_rows(g, p, x, y, m - 1) + row_overlap(g, p[m - 1], x + m - 1, y, p[m - 1].len() as int)
    }
}

/// The overlap count of the piece anchored at `(x, y)`.
pub open spec fn overlap(g: Seq<Seq<char>>, p: Seq<Seq<char>>, x: int, y: int) -> nat {
    overlap_rows(g, p, x, y, p.len() as int)
}

/// A legal placement: an anchor on the board where the piece fits and
/// touches exactly one occupied cell.
pub open spec fn is_candidate(g: Seq<Seq<char>>, p: Seq<Seq<char>>, e1: char, e2: char, x: int, y: int) -> bool {
    0 <= x < g.len() && 0 <= y < width(g) && fits(g, p, e1, e2, x, y) && overlap(g, p, x, y) == 1
}

/// The legal anchors `(x, y)` with `y < n`, in increasing `y`.
pub open spec fn row_candidates(g: Seq<Seq<char>>, p: Seq<Seq<char>>, e1: char, e2: char, x: int, n: int) -> Seq<(usize, usize)>
    decreases n,
{
    if n <= 0 {
        Seq::empty()
    } else {
        let prev = row_candidates(g, p, e1, e2, x, n - 1);
        if is_candidate(g, p, e1, e2, x, n - 1) {
            prev.push((x as usize, (n - 1) as usize))
        } else {
            prev
        }
    }
}

/// The legal anchors of the first `m` rows, in row-major order.
pub open spec fn candidates_upto(g: Seq<Seq<char>>, p: Seq<Seq<char>>, e1: char, e2: char, m: int) -> Seq<(usize, usize)>
    decreases m,
{
    if m <= 0 {
        Seq::empty()
    } else {
        candidates_upto(g, p, e1, e2, m - 1) + row_candidates(g, p, e1, e2, m - 1, width(g))
    }
}

/// All legal anchors, in row-major order.
pub open spec fn candidates(g: Seq<Seq<char>>, p: Seq<Seq<char>>, e1: char, e2: char) -> Seq<(usize, usize)> {
    candidates_upto(g, p, e1, e2, g.len() as int)
}

/// A board cell holds one of the two enemy markers.
pub open spec fn is_enemy(g: Seq<Seq<char>>, e1: char, e2: char, x: int, y: int) -> bool {
    g[x][y] == e1 || g[x][y] == e2
}

/// The enemy cells `(x, y)` with `y < n`, in increasing `y`.
pub open spec fn row_enemies(g: Seq<Seq<char>>, e1: char, e2: char, x: int, n: int) -> Seq<(usize, usize)>
    decreases n,
{
    if n <= 0 {
        Seq::empty()
    } else {
        let prev = row_enemies(g, e1, e2, x, n - 1);
        if is_enemy(g, e1, e2, x, n - 1) {
            prev.push((x as usize, (n - 1) as usize))
        } else {
            prev
        }
    }
}

/// The enemy cells of the first `m` rows, in row-major order.
pub open spec fn enemies_upto(g: Seq<Seq<char>>, e1: char, e2: char, m: int) -> Seq<(usize, usize)>
    decreases m,
{
    if m <= 0 {
        Seq::empty()
    } else {
        enemies_upto(g, e1, e2, m - 1) + row_enemies(g, e1, e2, m - 1, g[m - 1].len() as int)
    }
}

/// All enemy cells of the board, in row-major order.
pub open spec fn enemy_cells(g: Seq<Seq<char>>, e1: char, e2: char) -> Seq<(usize, usize)> {
    enemies_upto(g, e1, e2, g.len() as int)
}

/// The squared Euclidean distance between two cells; it orders pairs of cells
/// as the distance itself does.
pub open spec fn sq_dist(a: (usize, usize), b: (usize, usize)) -> int {
    (a.0 - b.0) * (a.0 - b.0) + (a.1 - b.1) * (a.1 - b.1)
}

/// The squared distance from `a` to the nearest of `es`; `None`, standing for
/// an infinite distance, when `es` is empty.
pub open spec fn nearest(a: (usize, usize), es: Seq<(usize, usize)>) -> Option<int>
    decreases es.len(),
{
    if es.len() == 0 {
        None
    } else {
        let d = sq_dist(a, es.last());
        match nearest(a, es.drop_last()) {
            None => Some(d),
            Some(m) => Some(
                if d < m {
                    d
                } else {
                    m
                },
            ),
        }
    }
}

/// Distance `a` is strictly below distance `b`, where `None` is infinite.
pub open spec fn closer(a: Option<int>, b: Option<int>) -> bool {
    match (a, b) {
        (Some(u), Some(v)) => u < v,
        (Some(_), None) => true,
        _ => false,
    }
}

/// Of the anchors `cs`, the first that lies nearest to an enemy cell; the
/// first anchor when none is nearer than the others.
pub open spec fn pick(cs: Seq<(usize, usize)>, es: Seq<(usize, usize)>) -> Option<(usize, usize)>
    decreases cs.len(),
{
    if cs.len() == 0 {
        None
    } else {
        let c = cs.last();
        match pick(cs.drop_last(), es) {
            None => Some(c),
            Some(b) => if closer(nearest(c, es), nearest(b, es)) {
                Some(c)
            } else {
                Some(b)
            },
        }
    }
}

/// The anchor the player plays: the legal anchor nearest to the enemy.
pub open spec fn best_position(g: Seq<Seq<char>>, p: Seq<Seq<char>>, e1: char, e2: char) -> Option<(usize, usize)> {
    pick(candidates(g, p, e1, e2), enemy_cells(g, e1, e2))
}

/// The coordinates as they are sent, column first, or `(0, 0)` when there is
/// no legal anchor.
pub open spec fn reply(best: Option<(usize, usize)>) -> (usize, usize) {
    match best {
        Some((x, y)) => (y, x),
        None => (0, 0),
    }
}

/// A squared distance held as a carry bit over 128 bits.
pub open spec fn wide_value(d: (bool, u128)) -> int {
    (if d.0 {
        0x1_0000_0000_0000_0000_0000_0000_0000_0000int
    } else {
        0int
    }) + d.1 as int
}

pub open spec fn wide_opt(d: Option<(bool, u128)>) -> Option<int> {
    match d {
        Some(v) => Some(wide_value(v)),
        None => None,
    }
}

fn abs_diff(a: usize, b: usize) -> (r: u128)
    ensures
        r as int == if a >= b {
            a - b
        } else {
            b - a
        },
        r <= usize::MAX,
{
    if a >= b {
        (a - b) as u128
    } else {
        (b - a) as u128
    }
}

/// The squared distance between two cells, without overflow.
fn squared_distance(a: (usize, usize), b: (usize, usize)) -> (r: (bool, u128))
    ensures
        wide_value(r) == sq_dist(a, b),
{
    let dx = abs_diff(a.0, b.0);
    let dy = abs_diff(a.1, b.1);
    assert(usize::MAX <= u64::MAX);
    proof {
        assert(dx * dx <= u64::MAX * u64::MAX) by (nonlinear_arith)
            requires dx <= u64::MAX;
        assert(dy * dy <= u64::MAX * u64::MAX) by (nonlinear_arith)
            requires dy <= u64::MAX;
        assert(dx * dx == (a.0 - b.0) * (a.0 - b.0)) by (nonlinear_arith)
            requires dx == a.0 - b.0 || dx == b.0 - a.0;
        assert(dy * dy == (a.1 - b.1) * (a.1 - b.1)) by (nonlinear_arith)
            requires dy == a.1 - b.1 || dy == b.1 - a.1;
    }
    let sx = dx * dx;
    let sy = dy * dy;
    if sx > u128::MAX - sy {
        (true, sx - (u128::MAX - sy) - 1)
    } else {
        (false, sx + sy)
    }
}

/// Whether distance `a` is strictly below distance `b`.
fn wide_less(a: (bool, u128), b: (bool, u128)) -> (r: bool)
    ensures
        r == (wide_value(a) < wide_value(b)),
{
    (!a.0 && b.0) || (a.0 == b.0 && a.1 < b.1)
}

/// The squared distance from `a` to the nearest of `es`.
fn nearest_distance(a: (usize, usize), es: &Vec<(usize, usize)>) -> (r: Option<(bool, u128)>)
    ensures
        wide_opt(r) == nearest(a, es@),
{
    let mut cur: Option<(bool, u128)> = None;
    let mut k: usize = 0;
    while k < es.len()
        invariant
            k <= es@.len(),
            wide_opt(cur) == nearest(a, es@.take(k as int)),
        decreases es@.len() - k,
    {
        let d = squared_distance(a, es[k]);
        assert(es@.take(k + 1).drop_last() =~= es@.take(k as int));
        match cur {
            None => {
                cur = Some(d);
            },
            Some(m) => {
                if wide_less(d, m) {
                    cur = Some(d);
                }
            },
        }
        k = k + 1;
    }
    assert(es@.take(k as int) =~= es@);
    cur
}

/// Whether distance `a` is strictly below distance `b`, where `None` is
/// infinite.
fn is_closer(a: Option<(bool, u128)>, b: Option<(bool, u128)>) -> (r: bool)
    ensures
        r == closer(wide_opt(a), wide_opt(b)),
{
    match (a, b) {
        (Some(u), Some(v)) => wide_less(u, v),
        (Some(_), None) => true,
        _ => false,
    }
}

impl Game {
    /// The enemy cells of the board, in row-major order.
    fn collect_enemy_cells(&self, enemy: char, enemy2: char) -> (r: Vec<(usize, usize)>)
        ensures
            r@ == enemy_cells(self.grid_model(), enemy, enemy2),
    {
        let ghost g = self.grid_model();
        let mut cells: Vec<(usize, usize)> = Vec::new();
        let mut i: usize = 0;
        while i < self.grid.len()
            invariant
                g == self.grid_model(),
                i <= g.len(),
                cells@ == enemies_upto(g, enemy, enemy2, i as int),
            decreases g.len() - i,
        {
            let row = &self.grid[i];
            assert(row@ == g[i as int]);
            let ghost before = cells@;
            let mut j: usize = 0;
            while j < row.len()
                invariant
                    g == self.grid_model(),
                    i < g.len(),
                    row@ == g[i as int],
                    j <= row@.len(),
                    cells@ == before + row_enemies(g, enemy, enemy2, i as int, j as int),
                decreases row@.len() - j,
            {
                let cell = row[j];
                if cell == enemy || cell == enemy2 {
                    cells.push((i, j));
                }
                j = j + 1;
            }
            i = i + 1;
        }
        cells
    }

    /// The legal anchor nearest to an enemy cell, the first in row-major order
    /// among equals; `None` when no anchor is legal.
    pub fn get_best_position(&self, enemy: char, enemy2: char) -> (r: Option<(usize, usize)>)
        requires
            self.wf(),
        ensures
            r == best_position(self.grid_model(), self.piece_model(), enemy, enemy2),
    {
        let best_positions = self.find_best_positions(enemy, enemy2);
        let enemy_cells = self.collect_enemy_cells(enemy, enemy2);
        let mut nearest_position: Option<(usize, usize)> = None;
        let mut min_distance: Option<(bool, u128)> = None;
        let mut k: usize = 0;
        while k < best_positions.len()
            invariant
                k <= best_positions@.len(),
                nearest_position == pick(best_positions@.take(k as int), enemy_cells@),
                nearest_position is Some ==> wide_opt(min_distance) == nearest(
                    nearest_position->0,
                    enemy_cells@,
                ),
            decreases best_positions@.len() - k,
        {
            let candidate = best_positions[k];
            let current_distance = nearest_distance(candidate, &enemy_cells);
            assert(best_positions@.take(k + 1).drop_last() =~= best_positions@.take(k as int));
            if nearest_position.is_none() || is_closer(current_distance, min_distance) {
                nearest_position = Some(candidate);
                min_distance = current_distance;
            }
            k = k + 1;
        }
        assert(best_positions@.take(k as int) =~= best_positions@);
        nearest_position
    }

    /// The coordinates to send this turn, column first: those of the best
    /// anchor, or `(0, 0)` when no anchor is legal.
    pub fn find_best_piece_position(&self) -> (r: (usize, usize))
        requires
            self.wf(),
        ensures
            ({
                let (e1, e2) = crate::board::enemy_pair(self.player_id@, self.player_command@);
                r == reply(best_position(self.grid_model(), self.piece_model(), e1, e2))
            }),
    {
        let (enemy, enemy2) = self.get_enemy_chars();
        match self.get_best_position(enemy, enemy2) {
            Some((x, y)) => (y, x),
            None => (0, 0),
        }
    }

    /// Whether the piece anchored at `(x, y)` is a legal placement.
    fn anchor_is_candidate(&self, x: usize, y: usize, e1: char, e2: char) -> (r: bool)
        requires
            self.wf(),
            x < self.grid@.len(),
            y < width(self.grid_model()),
        ensures
            r == is_candidate(self.grid_model(), self.piece_model(), e1, e2, x as int, y as int),
    {
        let ghost g = self.grid_model();
        let ghost p = self.piece_model();
        let h = self.grid.len();
        let w = self.grid[0].len();
        let mut count: usize = 0;
        let mut i: usize = 0;
        while i < self.piece.len()
            invariant
                g == self.grid_model(),
                p == self.piece_model(),
                rectangular(g),
                h == g.len(),
                w == width(g),
                x < h,
                y < w,
                i <= p.len(),
                forall|a: int, b: int|
                    0 <= a < i && 0 <= b < p[a].len() && filled(#[trigger] p[a][b]) ==> x + a < g.len()
                        && y + b < width(g) && g[x + a][y + b] != e1 && g[x + a][y + b] != e2,
                count == if overlap_rows(g, p, x as int, y as int, i as int) < 2 {
                    overlap_rows(g, p, x as int, y as int, i as int)
                } else {
                    2
                },
            decreases p.len() - i,
        {
            let row = &self.piece[i];
            assert(row@ == p[i as int]);
            let mut j: usize = 0;
            while j < row.len()
                invariant
                    g == self.grid_model(),
                    p == self.piece_model(),
                    row@ == p[i as int],
                    rectangular(g),
                    h == g.len(),
                    w == width(g),
                    x < h,
                    y < w,
                    i < p.len(),
                    j <= row@.len(),
                    forall|a: int, b: int|
                        0 <= a < i && 0 <= b < p[a].len() && filled(#[trigger] p[a][b]) ==> x + a < g.len()
                            && y + b < width(g) && g[x + a][y + b] != e1 && g[x + a][y + b] != e2,
                    forall|b: int|
                        0 <= b < j && filled(#[trigger] row@[b]) ==> x + i < g.len() && y + b < width(g)
                            && g[x + i][y + b] != e1 && g[x + i][y + b] != e2,
                    count == if overlap_rows(g, p, x as int, y as int, i as int) + row_overlap(
                        g,
                        row@,
                        x + i,
                        y as int,
                        j as int,
                    ) < 2 {
                        overlap_rows(g, p, x as int, y as int, i as int) + row_overlap(
                            g,
                            row@,
                            x + i,
                            y as int,
                            j as int,
                        )
                    } else {
                        2
                    },
                decreases row@.len() - j,
            {
                if row[j] != '.' {
                    if i >= h - x || j >= w - y {
                        assert(filled(p[i as int][j as int]));
                        return false;
                    }
                    assert(g[x + i].len() == g[0].len());
                    assert(g[x + i] == self.grid@[x + i]@);
                    let c = self.grid[x + i][y + j];
                    assert(c == g[x + i][y + j]);
                    if c == e1 || c == e2 {
                        assert(filled(p[i as int][j as int]));
                        return false;
                    }
                    if c != '.' && count < 2 {
                        count = count + 1;
                    }
                }
                j = j + 1;
            }
            i = i + 1;
        }
        assert(fits(g, p, e1, e2, x as int, y as int));
        count == 1
    }

    /// The legal anchors of the current board and piece, in row-major order.
    pub fn find_best_positions(&self, enemy: char, enemy2: char) -> (r: Vec<(usize, usize)>)
        requires
            self.wf(),
        ensures
            r@ == candidates(self.grid_model(), self.piece_model(), enemy, enemy2),
    {
        let ghost g = self.grid_model();
        let ghost p = self.piece_model();
        let mut best_positions: Vec<(usize, usize)> = Vec::new();
        let h = self.grid.len();
        let mut x: usize = 0;
        while x < h
            invariant
                g == self.grid_model(),
                p == self.piece_model(),
                self.wf(),
                h == g.len(),
                x <= h,
                best_positions@ == candidates_upto(g, p, enemy, enemy2, x as int),
            decreases h - x,
        {
            let w = self.grid[0].len();
            let ghost before = best_positions@;
            let mut y: usize = 0;
            while y < w
                invariant
                    g == self.grid_model(),
                    p == self.piece_model(),
                    self.wf(),
                    h == g.len(),
                    x < h,
                    w == width(g),
                    y <= w,
                    best_positions@ == before + row_candidates(g, p, enemy, enemy2, x as int, y as int),
                decreases w - y,
            {
                if self.anchor_is_candidate(x, y, enemy, enemy2) {
                    best_positions.push((x, y));
                }
                y = y + 1;
            }
            x = x + 1;
        }
        best_positions
    }
}

} // verus!
