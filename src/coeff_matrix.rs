use vstd::prelude::*;
use rand::Rng;
use crate::coord::CoOrd;
use crate::errors::MatrixError;

verus! {

/// A sample grid of tiles, one row after another.
pub struct Matrix(pub Vec<Vec<char>>);

/// No tile occurs twice in `s`.
pub open spec fn no_dup(s: Seq<char>) -> bool {
    forall|i: int, j: int| 0 <= i < j < s.len() ==> s[i] != s[j]
}

/// The tiles of a weight table, in table order.
pub open spec fn tiles_of(ws: Seq<(char, u64)>) -> Seq<char> {
    ws.map_values(|p: (char, u64)| p.0)
}

/// The sum of all weights of a table.
pub open spec fn weight_sum(ws: Seq<(char, u64)>) -> nat
    decreases ws.len(),
{
    if ws.len() == 0 {
        0
    } else {
        weight_sum(ws.drop_last()) + ws.last().1 as nat
    }
}

/// A weight table: each tile once, each weight positive, and the total within `u64`.
pub open spec fn weights_wf(ws: Seq<(char, u64)>) -> bool {
    &&& no_dup(tiles_of(ws))
    &&& forall|i: int| 0 <= i < ws.len() ==> ws[i].1 > 0
    &&& weight_sum(ws) <= u64::MAX
}

/// The summed weight of those of the first `n` table entries whose tile is in `cell`.
pub open spec fn cum(ws: Seq<(char, u64)>, cell: Seq<char>, n: int) -> nat
    decreases n,
{
    if n <= 0 {
        0
    } else {
        cum(ws, cell, n - 1) + if cell.contains(ws[n - 1].0) {
            ws[n - 1].1 as nat
        } else {
            0
        }
    }
}

/// The summed weight of the tiles in `cell`.
pub open spec fn cell_weight(ws: Seq<(char, u64)>, cell: Seq<char>) -> nat {
    cum(ws, cell, ws.len() as int)
}

/// Position of the cell `(x, y)` in a row-major grid of width `w`.
pub open spec fn idx(w: int, x: int, y: int) -> int {
    y * w + x
}

/// The tile of every collapsed cell, in grid order.
pub open spec fn collapsed_values(cells: Seq<Seq<char>>) -> Seq<char>
    decreases cells.len(),
{
    if cells.len() == 0 {
        seq![]
    } else if cells.last().len() == 1 {
        collapsed_values(cells.drop_last()).push(cells.last()[0])
    } else {
        collapsed_values(cells.drop_last())
    }
}

/// Every cell of `new` holds no more candidates than the same cell of `old`,
/// and only candidates that `old` held there.
pub open spec fn shrinks(old: Seq<Seq<char>>, new: Seq<Seq<char>>) -> bool {
    &&& new.len() == old.len()
    &&& forall|i: int| 0 <= i < old.len() ==> #[trigger] new[i].len() <= old[i].len()
    &&& forall|i: int, c: char| 0 <= i < old.len() && #[trigger] new[i].contains(c) ==> old[i].contains(c)
}

/// A cell inside the grid has its position inside the flat cell list.
pub proof fn lemma_idx_bounds(w: int, h: int, x: int, y: int)
    requires
        in_bounds(w, h, x, y),
    ensures
        0 <= idx(w, x, y) < w * h,
{
    assert(0 <= y * w) by (nonlinear_arith)
        requires
            0 <= y,
            0 <= w,
    ;
    assert(y * w + x < w * h) by (nonlinear_arith)
        requires
            0 <= x < w,
            0 <= y < h,
    ;
}

/// Two cells inside the grid with one flat position are the same cell.
pub proof fn lemma_idx_inj(w: int, h: int, x1: int, y1: int, x2: int, y2: int)
    requires
        in_bounds(w, h, x1, y1),
        in_bounds(w, h, x2, y2),
        idx(w, x1, y1) == idx(w, x2, y2),
    ensures
        x1 == x2 && y1 == y2,
{
    if y1 < y2 {
        assert(y1 * w + x1 < y2 * w + x2) by (nonlinear_arith)
            requires
                y1 < y2,
                0 <= x1 < w,
                0 <= x2,
        ;
    } else if y2 < y1 {
        assert(y2 * w + x2 < y1 * w + x1) by (nonlinear_arith)
            requires
                y2 < y1,
                0 <= x2 < w,
                0 <= x1,
        ;
    }
}

/// `(x, y)` lies inside a `w` by `h` grid.
pub open spec fn in_bounds(w: int, h: int, x: int, y: int) -> bool {
    0 <= x < w && 0 <= y < h
}

/// Cumulative candidate weights never decrease along the table.
pub proof fn lemma_cum_mono(ws: Seq<(char, u64)>, cell: Seq<char>, i: int, j: int)
    requires
        0 <= i <= j,
    ensures
        cum(ws, cell, i) <= cum(ws, cell, j),
    decreases j - i,
{
    if i < j {
        lemma_cum_mono(ws, cell, i, j - 1);
    }
}

/// The candidates among a prefix weigh no more than the whole prefix.
pub proof fn lemma_cum_le_sum(ws: Seq<(char, u64)>, cell: Seq<char>, n: int)
    requires
        0 <= n <= ws.len(),
    ensures
        cum(ws, cell, n) <= weight_sum(ws.subrange(0, n)),
    decreases n,
{
    if n > 0 {
        lemma_cum_le_sum(ws, cell, n - 1);
        assert(ws.subrange(0, n).drop_last() =~= ws.subrange(0, n - 1));
    }
}

/// The weight of any cell fits in `u64` when the table does.
pub proof fn lemma_cell_weight_bounded(ws: Seq<(char, u64)>, cell: Seq<char>)
    requires
        weights_wf(ws),
    ensures
        cell_weight(ws, cell) <= u64::MAX,
{
    lemma_cum_le_sum(ws, cell, ws.len() as int);
    assert(ws.subrange(0, ws.len() as int) =~= ws);
}

/// A cell that holds a tile of the table has a positive weight.
pub proof fn lemma_cell_weight_positive(ws: Seq<(char, u64)>, cell: Seq<char>, k: int)
    requires
        weights_wf(ws),
        0 <= k < ws.len(),
        cell.contains(ws[k].0),
    ensures
        cell_weight(ws, cell) > 0,
{
    lemma_cum_mono(ws, cell, k + 1, ws.len() as int);
}

/// The table entry whose slice `[cum(k), cum(k + 1))` of the cumulative
/// weights holds `r` has its tile in `cell`, and its slice is as wide as its weight.
pub proof fn lemma_roulette_slot(ws: Seq<(char, u64)>, cell: Seq<char>, k: int, r: int)
    requires
        0 <= k < ws.len(),
        cum(ws, cell, k) <= r < cum(ws, cell, k + 1),
    ensures
        cell.contains(ws[k].0),
        cum(ws, cell, k + 1) - cum(ws, cell, k) == ws[k].1,
{
}

/// The grid of candidate sets, with the weight table that it was built from.
pub struct CoEffMatrix {
    pub width: usize,
    pub height: usize,
    pub coeff_matrix: Vec<Vec<char>>,
    pub weights: Vec<(char, u64)>,
}

impl CoEffMatrix {
    /// The candidate sets, in row-major order.
    pub open spec fn cells(&self) -> Seq<Seq<char>> {
        self.coeff_matrix@.map_values(|c: Vec<char>| c@)
    }

    /// The candidate set of the cell `(x, y)`.
    pub open spec fn cell(&self, x: int, y: int) -> Seq<char> {
        self.cells()[idx(self.width as int, x, y)]
    }

    /// Each cell's tiles are distinct and come from the weight table.
    pub open spec fn cells_wf(&self) -> bool {
        forall|i: int|
            0 <= i < self.coeff_matrix.len() ==> {
                &&& no_dup(#[trigger] self.coeff_matrix@[i]@)
                &&& forall|c: char|
                    self.coeff_matrix@[i]@.contains(c) ==> tiles_of(self.weights@).contains(c)
            }
    }

    /// The grid has `width * height` cells, coordinates fit in `i32`, the
    /// weight table is valid and every cell is well formed.
    pub open spec fn wf(&self) -> bool {
        &&& self.width * self.height == self.coeff_matrix.len()
        &&& self.width <= i32::MAX
        &&& self.height <= i32::MAX
        &&& weights_wf(self.weights@)
        &&& self.cells_wf()
    }

    /// Fills a `size.0` by `size.1` grid in which every cell holds every tile
    /// of the weight table, in table order.
    pub fn new(size: (usize, usize), weights: Vec<(char, u64)>) -> (r: Self)
        requires
            size.0 * size.1 <= usize::MAX,
            size.0 <= i32::MAX,
            size.1 <= i32::MAX,
            weights_wf(weights@),
        ensures
            r.wf(),
            r.width == size.0,
            r.height == size.1,
            r.weights@ == weights@,
            r.coeff_matrix.len() == size.0 * size.1,
            forall|i: int| 0 <= i < r.coeff_matrix.len() ==> #[trigger] r.coeff_matrix@[i]@ == tiles_of(weights@),
    {
        let mut all: Vec<char> = Vec::new();
        let mut k: usize = 0;
        while k < weights.len()
            invariant
                k <= weights.len(),
                all@ == tiles_of(weights@).subrange(0, k as int),
            decreases weights.len() - k,
        {
            all.push(weights[k].0);
            k += 1;
            assert(all@ =~= tiles_of(weights@).subrange(0, k as int));
        }
        assert(all@ =~= tiles_of(weights@));
        let n: usize = size.0 * size.1;
        let mut cells: Vec<Vec<char>> = Vec::new();
        let mut i: usize = 0;
        while i < n
            invariant
                i <= n,
                cells.len() == i,
                all@ == tiles_of(weights@),
                forall|j: int| 0 <= j < i ==> #[trigger] cells@[j]@ == tiles_of(weights@),
            decreases n - i,
        {
            cells.push(copy_tiles(&all));
            i += 1;
        }
        CoEffMatrix { width: size.0, height: size.1, coeff_matrix: cells, weights }
    }

    /// The candidate set of the cell `(x, y)`, to change in place.
    pub fn get_mut(&mut self, x: usize, y: usize) -> (r: &mut Vec<char>)
        requires
            x < old(self).width,
            y < old(self).height,
            old(self).width * old(self).height == old(self).coeff_matrix.len(),
        ensures
            *r == old(self).coeff_matrix@[idx(old(self).width as int, x as int, y as int)],
            final(self).coeff_matrix@ == old(self).coeff_matrix@.update(
                idx(old(self).width as int, x as int, y as int),
                *final(r),
            ),
            final(self).width == old(self).width,
            final(self).height == old(self).height,
            final(self).weights == old(self).weights,
    {
        proof {
            lemma_idx_bounds(self.width as int, self.height as int, x as int, y as int);
        }
        &mut self.coeff_matrix[y * self.width + x]
    }

    /// The candidate set of the cell `(x, y)`.
    pub fn get(&self, x: usize, y: usize) -> (r: &Vec<char>)
        requires
            x < self.width,
            y < self.height,
            self.width * self.height == self.coeff_matrix.len(),
        ensures
            r@ == self.cell(x as int, y as int),
    {
        proof {
            lemma_idx_bounds(self.width as int, self.height as int, x as int, y as int);
        }
        &self.coeff_matrix[y * self.width + x]
    }

    /// Replaces the candidate set of the cell `(x, y)`.
    pub fn set(&mut self, x: usize, y: usize, value: Vec<char>)
        requires
            x < old(self).width,
            y < old(self).height,
            old(self).width * old(self).height == old(self).coeff_matrix.len(),
        ensures
            final(self).coeff_matrix@ == old(self).coeff_matrix@.update(
                idx(old(self).width as int, x as int, y as int),
                value,
            ),
            final(self).width == old(self).width,
            final(self).height == old(self).height,
            final(self).weights == old(self).weights,
    {
        proof {
            lemma_idx_bounds(self.width as int, self.height as int, x as int, y as int);
        }
        let i = y * self.width + x;
        self.coeff_matrix[i] = value;
    }

    /// The tile of every collapsed cell, in grid order.
    pub fn get_all_collapsed(&self) -> (r: Vec<char>)
        ensures
            r@ == collapsed_values(self.cells()),
    {
        let mut out: Vec<char> = Vec::new();
        let mut i: usize = 0;
        while i < self.coeff_matrix.len()
            invariant
                i <= self.coeff_matrix.len(),
                out@ == collapsed_values(self.cells().subrange(0, i as int)),
            decreases self.coeff_matrix.len() - i,
        {
            let ghost pre = self.cells().subrange(0, i as int + 1);
            assert(pre.drop_last() =~= self.cells().subrange(0, i as int));
            if self.coeff_matrix[i].len() == 1 {
                out.push(self.coeff_matrix[i][0]);
            }
            i += 1;
        }
        assert(self.cells().subrange(0, i as int) =~= self.cells());
        out
    }

    /// The summed weight of the candidates of the cell `(x, y)`.
    pub fn cell_total(&self, x: usize, y: usize) -> (r: u64)
        requires
            self.wf(),
            x < self.width,
            y < self.height,
        ensures
            r == cell_weight(self.weights@, self.cell(x as int, y as int)),
    {
        let cell = self.get(x, y);
        let ghost ws = self.weights@;
        proof {
            lemma_cell_weight_bounded(ws, cell@);
        }
        let mut total: u64 = 0;
        let mut i: usize = 0;
        while i < self.weights.len()
            invariant
                self.wf(),
                ws == self.weights@,
                i <= ws.len(),
                total == cum(ws, cell@, i as int),
                cell_weight(ws, cell@) <= u64::MAX,
            decreases ws.len() - i,
        {
            proof {
                lemma_cum_mono(ws, cell@, i as int + 1, ws.len() as int);
            }
            let (t, w) = self.weights[i];
            if has_tile(cell, t) {
                total = total + w;
            }
            i += 1;
        }
        total
    }

    /// Narrows the cell `coords` to the one table tile whose slice of the
    /// cumulative candidate weights holds `r` (a roulette-wheel choice).
    pub fn collapse_with(&mut self, coords: CoOrd, r: u64)
        requires
            old(self).wf(),
            in_bounds(old(self).width as int, old(self).height as int, coords.x as int, coords.y as int),
            r < cell_weight(old(self).weights@, old(self).cell(coords.x as int, coords.y as int)),
        ensures
            final(self).wf(),
            final(self).width == old(self).width,
            final(self).height == old(self).height,
            final(self).weights == old(self).weights,
            shrinks(old(self).cells(), final(self).cells()),
            exists|k: int|
                0 <= k < old(self).weights.len() && cum(
                    old(self).weights@,
                    old(self).cell(coords.x as int, coords.y as int),
                    k,
                ) <= r < cum(
                    old(self).weights@,
                    old(self).cell(coords.x as int, coords.y as int),
                    k + 1,
                ) && final(self).cells() == old(self).cells().update(
                    idx(old(self).width as int, coords.x as int, coords.y as int),
                    seq![old(self).weights@[k].0],
                ),
    {
        let x = coords.x as usize;
        let y = coords.y as usize;
        let ghost ws = self.weights@;
        let ghost cell = self.cell(x as int, y as int);
        let ghost at = idx(self.width as int, x as int, y as int);
        proof {
            lemma_idx_bounds(self.width as int, self.height as int, x as int, y as int);
            lemma_cell_weight_bounded(ws, cell);
        }
        let mut acc: u64 = 0;
        let mut i: usize = 0;
        let mut chosen: char = ' ';
        loop
            invariant
                self.wf(),
                ws == self.weights@,
                cell == self.cell(x as int, y as int),
                x < self.width,
                y < self.height,
                i <= ws.len(),
                acc == cum(ws, cell, i as int),
                acc <= r,
                r < cell_weight(ws, cell),
                cell_weight(ws, cell) <= u64::MAX,
            ensures
                i < ws.len(),
                chosen == ws[i as int].0,
                cum(ws, cell, i as int) <= r < cum(ws, cell, i as int + 1),
            decreases ws.len() - i,
        {
            assert(i < ws.len());
            proof {
                lemma_cum_mono(ws, cell, i as int + 1, ws.len() as int);
            }
            let (t, w) = self.weights[i];
            if has_tile(self.get(x, y), t) {
                if r < acc + w {
                    chosen = t;
                    assert(cum(ws, cell, i as int) <= r < cum(ws, cell, i as int + 1));
                    break;
                }
                acc = acc + w;
            }
            assert(i < self.weights.len());
            i += 1;
        }
        let ghost k = i as int;
        let mut one: Vec<char> = Vec::new();
        one.push(chosen);
        let ghost before = self.cells();
        proof {
            assert(tiles_of(ws)[k] == chosen);
            lemma_roulette_slot(ws, cell, k, r as int);
            assert(cell.contains(chosen));
            assert(cell.len() >= 1);
        }
        self.set(x, y, one);
        proof {
            assert(self.cells() =~= before.update(at, seq![ws[k].0]));
            assert forall|j: int| 0 <= j < self.coeff_matrix.len() implies {
                &&& no_dup(#[trigger] self.coeff_matrix@[j]@)
                &&& forall|c: char|
                    self.coeff_matrix@[j]@.contains(c) ==> tiles_of(self.weights@).contains(c)
            } by {
                if j == at {
                    assert forall|c: char| self.coeff_matrix@[j]@.contains(c) implies tiles_of(
                        self.weights@,
                    ).contains(c) by {
                        assert(self.coeff_matrix@[j]@[0] == c);
                    }
                }
            }
            assert forall|j: int, c: char|
                0 <= j < before.len() && #[trigger] self.cells()[j].contains(c) implies before[j].contains(c) by {
                if j == at {
                    assert(self.cells()[j][0] == c);
                }
            }
        }
    }

    /// Narrows the cell `coords` to one of its candidates, drawn at random with
    /// chances proportional to the tiles' weights.
    pub fn collapse(&mut self, coords: CoOrd)
        requires
            old(self).wf(),
            in_bounds(old(self).width as int, old(self).height as int, coords.x as int, coords.y as int),
            old(self).cell(coords.x as int, coords.y as int).len() > 0,
        ensures
            final(self).wf(),
            final(self).width == old(self).width,
            final(self).height == old(self).height,
            final(self).weights == old(self).weights,
            shrinks(old(self).cells(), final(self).cells()),
            exists|k: int|
                0 <= k < old(self).weights.len() && old(self).cell(coords.x as int, coords.y as int).contains(
                    old(self).weights@[k].0,
                ) && final(self).cells() == old(self).cells().update(
                    idx(old(self).width as int, coords.x as int, coords.y as int),
                    seq![old(self).weights@[k].0],
                ),
    {
        let x = coords.x as usize;
        let y = coords.y as usize;
        proof {
            let ws = self.weights@;
            let cell = self.cell(x as int, y as int);
            lemma_idx_bounds(self.width as int, self.height as int, x as int, y as int);
            let at = idx(self.width as int, x as int, y as int);
            assert(self.coeff_matrix@[at]@ == cell);
            assert(cell.contains(cell[0]));
            assert(tiles_of(ws).contains(cell[0]));
            let k = choose|k: int| 0 <= k < tiles_of(ws).len() && tiles_of(ws)[k] == cell[0];
            lemma_cell_weight_positive(ws, cell, k);
        }
        let total = self.cell_total(x, y);
        let r = draw_below(total);
        self.collapse_with(coords, r);
        proof {
            let ws = old(self).weights@;
            let cell = old(self).cell(x as int, y as int);
            let k = choose|k: int|
                0 <= k < ws.len() && cum(ws, cell, k) <= r < cum(ws, cell, k + 1) && self.cells()
                    == old(self).cells().update(idx(old(self).width as int, x as int, y as int), seq![ws[k].0]);
            lemma_roulette_slot(ws, cell, k, r as int);
        }
    }

    /// Removes `tile` from the candidates of the cell `coord`; fails, changing
    /// nothing, when the cell does not hold it.
    pub fn constrain(&mut self, coord: CoOrd, tile: &char) -> (res: Result<(), MatrixError>)
        requires
            old(self).wf(),
            in_bounds(old(self).width as int, old(self).height as int, coord.x as int, coord.y as int),
        ensures
            final(self).wf(),
            final(self).width == old(self).width,
            final(self).height == old(self).height,
            final(self).weights == old(self).weights,
            shrinks(old(self).cells(), final(self).cells()),
            old(self).cell(coord.x as int, coord.y as int).contains(*tile) ==> res is Ok,
            !old(self).cell(coord.x as int, coord.y as int).contains(*tile) ==> res == Err::<(), MatrixError>(MatrixError::MissingTile),
            res is Err ==> final(self).cells() == old(self).cells(),
            res is Ok ==> exists|k: int|
                0 <= k < old(self).cell(coord.x as int, coord.y as int).len()
                    && old(self).cell(coord.x as int, coord.y as int)[k] == *tile
                    && final(self).cells() == old(self).cells().update(
                    idx(old(self).width as int, coord.x as int, coord.y as int),
                    old(self).cell(coord.x as int, coord.y as int).remove(k),
                ),
    {
        let x = coord.x as usize;
        let y = coord.y as usize;
        let ghost at = idx(self.width as int, x as int, y as int);
        proof {
            lemma_idx_bounds(self.width as int, self.height as int, x as int, y as int);
        }
        let mut cell = copy_tiles(self.get(x, y));
        let ghost orig = cell@;
        let mut k: usize = 0;
        while k < cell.len() && cell[k] != *tile
            invariant
                cell@ == orig,
                k <= cell.len(),
                forall|j: int| 0 <= j < k ==> orig[j] != *tile,
            decreases cell.len() - k,
        {
            k += 1;
        }
        if k == cell.len() {
            return Err(MatrixError::MissingTile);
        }
        cell.remove(k);
        let ghost before = self.cells();
        proof {
            assert(self.coeff_matrix@[at]@ == orig);
            lemma_remove_tile(orig, k as int);
        }
        self.set(x, y, cell);
        proof {
            assert(self.cells() =~= before.update(at, orig.remove(k as int)));
            assert forall|j: int| 0 <= j < self.coeff_matrix.len() implies {
                &&& no_dup(#[trigger] self.coeff_matrix@[j]@)
                &&& forall|c: char|
                    self.coeff_matrix@[j]@.contains(c) ==> tiles_of(self.weights@).contains(c)
            } by {
                if j == at {
                    assert forall|c: char| self.coeff_matrix@[j]@.contains(c) implies tiles_of(
                        self.weights@,
                    ).contains(c) by {
                        assert(orig.remove(k as int).contains(c));
                        assert(before[at].contains(c));
                    }
                }
            }
            assert forall|j: int, c: char|
                0 <= j < before.len() && #[trigger] self.cells()[j].contains(c) implies before[j].contains(c) by {
                if j == at {
                    assert(orig.remove(k as int).contains(c));
                }
            }
        }
        Ok(())
    }

    /// Whether every cell holds exactly one tile.
    pub fn all_collapsed(&self) -> (r: bool)
        ensures
            r == forall|i: int| 0 <= i < self.coeff_matrix.len() ==> #[trigger] self.coeff_matrix@[i]@.len() == 1,
    {
        let mut i: usize = 0;
        while i < self.coeff_matrix.len()
            invariant
                i <= self.coeff_matrix.len(),
                forall|j: int| 0 <= j < i ==> #[trigger] self.coeff_matrix@[j]@.len() == 1,
            decreases self.coeff_matrix.len() - i,
        {
            if self.coeff_matrix[i].len() != 1 {
                return false;
            }
            i += 1;
        }
        true
    }
}

/// Relies on `rand::thread_rng` and `rand::Rng::gen_range`: a value drawn from
/// `0..bound`, which panics only when that range is empty.
#[verifier::external_body]
fn draw_below(bound: u64) -> (r: u64)
    requires
        bound > 0,
    ensures
        r < bound,
{
    rand::thread_rng().gen_range(0..bound)
}

/// Removing the entry at `k` from a list without repeats keeps it without
/// repeats and drops exactly the tile `s[k]`.
pub proof fn lemma_remove_tile(s: Seq<char>, k: int)
    requires
        no_dup(s),
        0 <= k < s.len(),
    ensures
        no_dup(s.remove(k)),
        s.remove(k).len() == s.len() - 1,
        forall|c: char| #[trigger] s.remove(k).contains(c) <==> (s.contains(c) && c != s[k]),
{
    let t = s.remove(k);
    assert forall|i: int, j: int| 0 <= i < j < t.len() implies t[i] != t[j] by {
        let a = if i < k { i } else { i + 1 };
        let b = if j < k { j } else { j + 1 };
        assert(t[i] == s[a] && t[j] == s[b] && a < b);
    }
    assert forall|c: char| #[trigger] t.contains(c) <==> (s.contains(c) && c != s[k]) by {
        if t.contains(c) {
            let i = choose|i: int| 0 <= i < t.len() && t[i] == c;
            let a = if i < k { i } else { i + 1 };
            assert(s[a] == c && a != k);
        }
        if s.contains(c) && c != s[k] {
            let a = choose|a: int| 0 <= a < s.len() && s[a] == c;
            let i = if a < k { a } else { a - 1 };
            assert(t[i] == c);
        }
    }
}

/// A copy of a candidate set.
pub fn copy_tiles(v: &Vec<char>) -> (r: Vec<char>)
    ensures
        r@ == v@,
{
    let mut out: Vec<char> = Vec::new();
    let mut i: usize = 0;
    while i < v.len()
        invariant
            i <= v.len(),
            out@ == v@.subrange(0, i as int),
        decreases v.len() - i,
    {
        out.push(v[i]);
        i += 1;
        assert(out@ =~= v@.subrange(0, i as int));
    }
    assert(out@ =~= v@);
    out
}

/// Whether `v` holds `t`.
pub fn has_tile(v: &Vec<char>, t: char) -> (r: bool)
    ensures
        r == v@.contains(t),
{
    let mut i: usize = 0;
    while i < v.len()
        invariant
            i <= v.len(),
            forall|j: int| 0 <= j < i ==> v@[j] != t,
        decreases v.len() - i,
    {
        if v[i] == t {
            return true;
        }
        i += 1;
    }
    false
}

} // verus!
