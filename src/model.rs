use vstd::prelude::*;
use crate::coeff_matrix::{
    CoEffMatrix, collapsed_values, copy_tiles, idx, in_bounds, lemma_idx_bounds, lemma_idx_inj, lemma_remove_tile, no_dup, shrinks,
};
use crate::compat::{Compat, has_rule};
use crate::coord::{CoOrd, is_step, lemma_steps_from, steps_from, valid_dirs};
use crate::errors::MatrixError;

verus! {

/// Some candidate of `src` has the rule `(c, t, d)`: `t` may stand one step `d` away from it.
pub open spec fn supported(rules: Seq<Compat>, src: Seq<char>, t: char, d: CoOrd) -> bool {
    exists|i: int| 0 <= i < src.len() && rules.contains((Compat { tile1: src[i], tile2: t, direction: d }))
}

/// The cell reached from `p` by the step `d`.
pub open spec fn step(p: CoOrd, d: CoOrd) -> (int, int) {
    (p.x + d.x, p.y + d.y)
}

/// Where `p` and its neighbour by the step `d` both lie in the grid, every
/// candidate of the neighbour is supported by a candidate of `p`.
pub open spec fn arc_ok(cells: Seq<Seq<char>>, w: int, h: int, rules: Seq<Compat>, p: CoOrd, d: CoOrd) -> bool {
    (in_bounds(w, h, p.x as int, p.y as int) && is_step(d) && in_bounds(w, h, step(p, d).0, step(p, d).1))
        ==> forall|t: char|
        #[trigger] cells[idx(w, step(p, d).0, step(p, d).1)].contains(t) ==> supported(
            rules,
            cells[idx(w, p.x as int, p.y as int)],
            t,
            d,
        )
}

/// Every pair of adjacent cells is arc consistent.
pub open spec fn consistent(cells: Seq<Seq<char>>, w: int, h: int, rules: Seq<Compat>) -> bool {
    forall|p: CoOrd, d: CoOrd| #[trigger] arc_ok(cells, w, h, rules, p, d)
}

/// Every pair of adjacent cells whose first cell is not `origin` is arc consistent.
pub open spec fn consistent_except(cells: Seq<Seq<char>>, w: int, h: int, rules: Seq<Compat>, origin: CoOrd) -> bool {
    forall|p: CoOrd, d: CoOrd| p != origin ==> #[trigger] arc_ok(cells, w, h, rules, p, d)
}

/// Every arc that starts at `p` is consistent.
pub open spec fn settled(cells: Seq<Seq<char>>, w: int, h: int, rules: Seq<Compat>, p: CoOrd) -> bool {
    forall|d: CoOrd| #[trigger] arc_ok(cells, w, h, rules, p, d)
}

/// The cells that propagation from `origin` leaves settled: the origin, those
/// settled before, and those whose candidates changed.
pub open spec fn marked(
    before: Seq<Seq<char>>,
    after: Seq<Seq<char>>,
    w: int,
    h: int,
    rules: Seq<Compat>,
    origin: CoOrd,
    p: CoOrd,
) -> bool {
    ||| p == origin
    ||| settled(before, w, h, rules, p)
    ||| after[idx(w, p.x as int, p.y as int)] != before[idx(w, p.x as int, p.y as int)]
}

/// Every cell that was settled in `before`, or whose candidates changed since,
/// is settled.
pub open spec fn touched_settled(before: Seq<Seq<char>>, after: Seq<Seq<char>>, w: int, h: int, rules: Seq<Compat>) -> bool {
    forall|p: CoOrd|
        #[trigger] settled(before, w, h, rules, p) || after[idx(w, p.x as int, p.y as int)] != before[idx(
            w,
            p.x as int,
            p.y as int,
        )] ==> settled(after, w, h, rules, p)
}

/// A grid that went from all cells open to all cells collapsed, leaving every
/// changed cell settled, obeys the rules between every pair of adjacent cells.
pub proof fn lemma_solved_is_consistent(before: Seq<Seq<char>>, after: Seq<Seq<char>>, w: int, h: int, rules: Seq<Compat>)
    requires
        before.len() == w * h,
        after.len() == w * h,
        forall|i: int| 0 <= i < before.len() ==> #[trigger] before[i].len() > 1,
        forall|i: int| 0 <= i < after.len() ==> #[trigger] after[i].len() == 1,
        touched_settled(before, after, w, h, rules),
    ensures
        consistent(after, w, h, rules),
{
    assert forall|p: CoOrd, d: CoOrd| #[trigger] arc_ok(after, w, h, rules, p, d) by {
        if in_bounds(w, h, p.x as int, p.y as int) {
            let ip = idx(w, p.x as int, p.y as int);
            lemma_idx_bounds(w, h, p.x as int, p.y as int);
            assert(before[ip].len() > 1 && after[ip].len() == 1);
            let was = settled(before, w, h, rules, p);
            assert(settled(after, w, h, rules, p));
        }
    }
}

/// The number of cells that still hold more than one candidate.
pub open spec fn open_count(cells: Seq<Seq<char>>) -> nat
    decreases cells.len(),
{
    if cells.len() == 0 {
        0
    } else {
        open_count(cells.drop_last()) + if cells.last().len() > 1 {
            1nat
        } else {
            0
        }
    }
}

/// No more cells than the grid has are open, so a run makes at most
/// width times height collapse steps.
pub proof fn lemma_open_count_bound(cells: Seq<Seq<char>>)
    ensures
        open_count(cells) <= cells.len(),
    decreases cells.len(),
{
    if cells.len() > 0 {
        lemma_open_count_bound(cells.drop_last());
    }
}

/// A chain of grids in which each step closes at least one open cell has at
/// most as many steps as the first grid has cells: a run collapses at most
/// width times height times.
pub proof fn lemma_steps_bounded(states: Seq<Seq<Seq<char>>>)
    requires
        states.len() > 0,
        forall|i: int| 0 <= i < states.len() - 1 ==> open_count(#[trigger] states[i + 1]) < open_count(states[i]),
    ensures
        states.len() - 1 <= states[0].len(),
{
    assert forall|n: int| 0 <= n < states.len() implies open_count(#[trigger] states[n]) + n <= open_count(states[0]) by {
        lemma_chain_descends(states, n);
    }
    lemma_open_count_bound(states[0]);
    assert(open_count(states[states.len() - 1]) + (states.len() - 1) <= open_count(states[0]));
}

proof fn lemma_chain_descends(states: Seq<Seq<Seq<char>>>, n: int)
    requires
        0 <= n < states.len(),
        forall|i: int| 0 <= i < states.len() - 1 ==> open_count(#[trigger] states[i + 1]) < open_count(states[i]),
    ensures
        open_count(states[n]) + n <= open_count(states[0]),
    decreases n,
{
    if n > 0 {
        lemma_chain_descends(states, n - 1);
        assert(open_count(states[(n - 1) + 1]) < open_count(states[n - 1]));
    }
}

/// Shrinking never opens a cell, and closing an open cell lowers the count.
pub proof fn lemma_open_count(a: Seq<Seq<char>>, b: Seq<Seq<char>>, i: int)
    requires
        shrinks(a, b),
    ensures
        open_count(b) <= open_count(a),
        0 <= i < a.len() && a[i].len() > 1 && b[i].len() <= 1 ==> open_count(b) < open_count(a),
    decreases a.len(),
{
    if a.len() > 0 {
        let a2 = a.drop_last();
        let b2 = b.drop_last();
        assert(b2.len() == a2.len());
        assert forall|j: int| 0 <= j < a2.len() implies #[trigger] b2[j].len() <= a2[j].len() by {
            assert(b[j].len() <= a[j].len());
        }
        assert forall|j: int, c: char| 0 <= j < a2.len() && #[trigger] b2[j].contains(c) implies a2[j].contains(c) by {
            assert(b[j].contains(c));
        }
        lemma_open_count(a2, b2, i);
        assert(b.last().len() <= a.last().len());
    }
}

/// Each cell of `g` holds only candidates that the same cell of `cells` holds.
pub open spec fn within(g: Seq<Seq<char>>, cells: Seq<Seq<char>>) -> bool {
    &&& g.len() == cells.len()
    &&& forall|i: int, t: char| 0 <= i < g.len() && #[trigger] g[i].contains(t) ==> cells[i].contains(t)
}

/// No arc-consistent choice of candidates within `cells` leaves every cell
/// with a candidate.
pub open spec fn dead_end(cells: Seq<Seq<char>>, w: int, h: int, rules: Seq<Compat>) -> bool {
    forall|g: Seq<Seq<char>>|
        within(g, cells) && #[trigger] consistent(g, w, h, rules) ==> exists|i: int|
            0 <= i < g.len() && #[trigger] g[i].len() == 0
}

/// The number of candidates over all cells.
pub open spec fn size_sum(cells: Seq<Seq<char>>) -> nat
    decreases cells.len(),
{
    if cells.len() == 0 {
        0
    } else {
        size_sum(cells.drop_last()) + cells.last().len()
    }
}

/// Replacing one cell changes the candidate total by the difference in size.
pub proof fn lemma_size_sum_update(cells: Seq<Seq<char>>, i: int, v: Seq<char>)
    requires
        0 <= i < cells.len(),
    ensures
        size_sum(cells.update(i, v)) + cells[i].len() == size_sum(cells) + v.len(),
    decreases cells.len(),
{
    let u = cells.update(i, v);
    if i == cells.len() - 1 {
        assert(u.drop_last() =~= cells.drop_last());
    } else {
        lemma_size_sum_update(cells.drop_last(), i, v);
        assert(u.drop_last() =~= cells.drop_last().update(i, v));
    }
}

/// A cell that changed only where `at` lies, and only by losing candidates,
/// leaves every arc that does not start at `at` as consistent as it was.
pub proof fn lemma_arc_kept(
    c0: Seq<Seq<char>>,
    c1: Seq<Seq<char>>,
    w: int,
    h: int,
    rules: Seq<Compat>,
    at: CoOrd,
    p: CoOrd,
    d: CoOrd,
)
    requires
        c0.len() == c1.len(),
        c0.len() == w * h,
        in_bounds(w, h, at.x as int, at.y as int),
        forall|j: int| 0 <= j < c0.len() && j != idx(w, at.x as int, at.y as int) ==> c1[j] == c0[j],
        forall|t: char| #[trigger] c1[idx(w, at.x as int, at.y as int)].contains(t) ==> c0[idx(w, at.x as int, at.y as int)].contains(t),
        p != at,
        arc_ok(c0, w, h, rules, p, d),
    ensures
        arc_ok(c1, w, h, rules, p, d),
{
    if in_bounds(w, h, p.x as int, p.y as int) && is_step(d) && in_bounds(w, h, step(p, d).0, step(p, d).1) {
        let ip = idx(w, p.x as int, p.y as int);
        let iq = idx(w, step(p, d).0, step(p, d).1);
        let ia = idx(w, at.x as int, at.y as int);
        crate::coeff_matrix::lemma_idx_bounds(w, h, p.x as int, p.y as int);
        crate::coeff_matrix::lemma_idx_bounds(w, h, step(p, d).0, step(p, d).1);
        if ip == ia {
            crate::coeff_matrix::lemma_idx_inj(w, h, p.x as int, p.y as int, at.x as int, at.y as int);
        }
        assert(c1[ip] == c0[ip]);
        assert forall|t: char| #[trigger] c1[iq].contains(t) implies supported(rules, c1[ip], t, d) by {
            assert(c0[iq].contains(t));
        }
    }
}

/// The solver: a grid of candidate sets and the adjacency rules it must obey.
pub struct Model {
    pub coeff: CoEffMatrix,
    pub compats: Vec<Compat>,
}

impl Model {
    /// The grid is well formed.
    pub open spec fn wf(&self) -> bool {
        self.coeff.wf()
    }

    /// The candidate sets, in row-major order.
    pub open spec fn cells(&self) -> Seq<Seq<char>> {
        self.coeff.cells()
    }

    /// The grid width.
    pub open spec fn width(&self) -> int {
        self.coeff.width as int
    }

    /// The grid height.
    pub open spec fn height(&self) -> int {
        self.coeff.height as int
    }

    /// A solver over the grid `coeff_matrix` with the rules `compats`.
    pub fn new(coeff_matrix: CoEffMatrix, compats: Vec<Compat>) -> (r: Model)
        ensures
            r.coeff == coeff_matrix,
            r.compats == compats,
    {
        Model { coeff: coeff_matrix, compats }
    }

    /// Removes, cell by cell outward from `coord`, every candidate that no
    /// candidate of an adjacent cell supports, until nothing more can be removed.
    /// Fails as soon as a cell is left with no candidate.
    pub fn propagate(&mut self, coord: CoOrd) -> (res: Result<(), MatrixError>)
        requires
            old(self).wf(),
            in_bounds(old(self).width(), old(self).height(), coord.x as int, coord.y as int),
        ensures
            final(self).wf(),
            final(self).compats == old(self).compats,
            final(self).coeff.width == old(self).coeff.width,
            final(self).coeff.height == old(self).coeff.height,
            final(self).coeff.weights == old(self).coeff.weights,
            shrinks(old(self).cells(), final(self).cells()),
            res is Ok ==> forall|p: CoOrd|
                #[trigger] marked(
                    old(self).cells(),
                    final(self).cells(),
                    old(self).width(),
                    old(self).height(),
                    old(self).compats@,
                    coord,
                    p,
                ) ==> settled(final(self).cells(), final(self).width(), final(self).height(), final(self).compats@, p),
            res is Ok && consistent_except(
                old(self).cells(),
                old(self).width(),
                old(self).height(),
                old(self).compats@,
                coord,
            ) ==> consistent(final(self).cells(), final(self).width(), final(self).height(), final(self).compats@),
            res is Ok ==> settled(final(self).cells(), final(self).width(), final(self).height(), final(self).compats@, coord),
            settled(old(self).cells(), old(self).width(), old(self).height(), old(self).compats@, coord) ==> res is Ok
                && final(self).cells() == old(self).cells(),
            consistent(old(self).cells(), old(self).width(), old(self).height(), old(self).compats@) ==> res is Ok
                && final(self).cells() == old(self).cells(),
            res is Err ==> res == Err::<(), MatrixError>(MatrixError::Contradiction) && exists|i: int|
                0 <= i < final(self).cells().len() && #[trigger] final(self).cells()[i].len() == 0
                    && old(self).cells()[i].len() > 0,
            res is Ok ==> forall|i: int|
                0 <= i < old(self).cells().len() && #[trigger] final(self).cells()[i].len() == 0 ==> old(self).cells()[i].len() == 0,
            forall|g: Seq<Seq<char>>|
                within(g, old(self).cells()) && #[trigger] consistent(g, old(self).width(), old(self).height(), old(self).compats@)
                    ==> within(g, final(self).cells()),
            res is Err ==> dead_end(old(self).cells(), old(self).width(), old(self).height(), old(self).compats@),
    {
        let ghost w = self.width();
        let ghost h = self.height();
        let ghost rules = self.compats@;
        let ghost c_old = self.cells();
        let ghost pre_ok = consistent_except(c_old, w, h, rules, coord);
        let ghost all_ok = settled(c_old, w, h, rules, coord);
        let mut stack: Vec<CoOrd> = Vec::new();
        stack.push(coord);
        proof {
            if consistent(c_old, w, h, rules) {
                assert forall|d: CoOrd| #[trigger] arc_ok(c_old, w, h, rules, coord, d) by {}
            }
            assert(stack@ =~= seq![coord]);
            assert forall|p: CoOrd, d: CoOrd|
                !stack@.contains(p) && marked(c_old, c_old, w, h, rules, coord, p) implies #[trigger] arc_ok(
                c_old,
                w,
                h,
                rules,
                p,
                d,
            ) by {
                assert(stack@[0] == coord);
            }
        }
        while stack.len() > 0
            invariant
                self.wf(),
                self.compats == old(self).compats,
                self.compats@ == rules,
                self.coeff.width == old(self).coeff.width,
                self.coeff.height == old(self).coeff.height,
                self.coeff.weights == old(self).coeff.weights,
                w == self.width(),
                h == self.height(),
                c_old == old(self).cells(),
                pre_ok == consistent_except(c_old, w, h, rules, coord),
                all_ok == settled(c_old, w, h, rules, coord),
                consistent(c_old, w, h, rules) ==> all_ok,
                shrinks(c_old, self.cells()),
                forall|j: int| 0 <= j < stack.len() ==> in_bounds(w, h, #[trigger] stack@[j].x as int, stack@[j].y as int),
                forall|p: CoOrd, d: CoOrd|
                    !stack@.contains(p) && marked(c_old, self.cells(), w, h, rules, coord, p) ==> #[trigger] arc_ok(
                        self.cells(),
                        w,
                        h,
                        rules,
                        p,
                        d,
                    ),
                all_ok ==> self.cells() == c_old,
                all_ok ==> stack.len() == 0 || stack@ == seq![coord],
                forall|g: Seq<Seq<char>>| within(g, c_old) && #[trigger] consistent(g, w, h, rules) ==> within(g, self.cells()),
                forall|i: int| 0 <= i < c_old.len() && #[trigger] self.cells()[i].len() == 0 ==> c_old[i].len() == 0,
            decreases size_sum(self.cells()), stack.len(),
        {
            let ghost c_pop = self.cells();
            let ghost s_full = stack@;
            let cur = stack.pop().unwrap();
            let ghost s_rest = stack@;
            proof {
                assert(s_full == s_rest.push(cur));
                if all_ok {
                    assert(s_full == seq![coord]);
                }
                assert(in_bounds(w, h, s_full[s_full.len() - 1].x as int, s_full[s_full.len() - 1].y as int));
                assert forall|p: CoOrd, d: CoOrd|
                    p != cur && !s_rest.contains(p) && marked(c_old, c_pop, w, h, rules, coord, p) implies #[trigger] arc_ok(
                    c_pop,
                    w,
                    h,
                    rules,
                    p,
                    d,
                ) by {
                    if s_full.contains(p) {
                        let j = choose|j: int| 0 <= j < s_full.len() && s_full[j] == p;
                        if j < s_rest.len() {
                            assert(s_rest[j] == p);
                        }
                    }
                }
            }
            let dirs = valid_dirs(&cur, (self.coeff.width as i32, self.coeff.height as i32));
            let mut di: usize = 0;
            while di < dirs.len()
                invariant
                    self.wf(),
                    self.compats == old(self).compats,
                    self.compats@ == rules,
                    self.coeff.width == old(self).coeff.width,
                    self.coeff.height == old(self).coeff.height,
                    self.coeff.weights == old(self).coeff.weights,
                    w == self.width(),
                    h == self.height(),
                    c_old == old(self).cells(),
                    pre_ok == consistent_except(c_old, w, h, rules, coord),
                    all_ok == settled(c_old, w, h, rules, coord),
                    consistent(c_old, w, h, rules) ==> all_ok,
                    shrinks(c_old, self.cells()),
                    dirs@ == steps_from(cur, w, h),
                    in_bounds(w, h, cur.x as int, cur.y as int),
                    di <= dirs.len(),
                    stack.len() >= s_rest.len(),
                    stack@.subrange(0, s_rest.len() as int) == s_rest,
                    forall|j: int| 0 <= j < stack.len() ==> in_bounds(w, h, #[trigger] stack@[j].x as int, stack@[j].y as int),
                    stack.len() == s_rest.len() ==> self.cells() == c_pop,
                    size_sum(self.cells()) + (stack.len() - s_rest.len()) == size_sum(c_pop),
                    forall|p: CoOrd, d: CoOrd|
                        p != cur && !stack@.contains(p) && marked(c_old, self.cells(), w, h, rules, coord, p)
                            ==> #[trigger] arc_ok(self.cells(), w, h, rules, p, d),
                    forall|j: int| 0 <= j < di ==> arc_ok(self.cells(), w, h, rules, cur, #[trigger] dirs@[j]),
                    all_ok ==> self.cells() == c_old,
                    all_ok ==> cur == coord && stack.len() == 0,
                    forall|g: Seq<Seq<char>>| within(g, c_old) && #[trigger] consistent(g, w, h, rules) ==> within(g, self.cells()),
                    forall|i: int| 0 <= i < c_old.len() && #[trigger] self.cells()[i].len() == 0 ==> c_old[i].len() == 0,
                decreases dirs.len() - di,
            {
                let dir = dirs[di];
                proof {
                    assert(dirs@.contains(dir));
                    lemma_steps_from(cur, w, h, dir);
                }
                let other = CoOrd { x: cur.x + dir.x, y: cur.y + dir.y };
                let ghost c_dir = self.cells();
                let ghost s_dir = stack@;
                let ghost ip = idx(w, cur.x as int, cur.y as int);
                let ghost iq = idx(w, other.x as int, other.y as int);
                proof {
                    lemma_idx_bounds(w, h, cur.x as int, cur.y as int);
                    lemma_idx_bounds(w, h, other.x as int, other.y as int);
                    if ip == iq {
                        lemma_idx_inj(w, h, cur.x as int, cur.y as int, other.x as int, other.y as int);
                    }
                    assert(self.coeff.coeff_matrix@[iq]@ == c_dir[iq]);
                }
                let cur_tiles = copy_tiles(self.coeff.get(cur.x as usize, cur.y as usize));
                let nb = copy_tiles(self.coeff.get(other.x as usize, other.y as usize));
                let mut ti: usize = 0;
                while ti < nb.len()
                    invariant
                        self.wf(),
                        self.compats == old(self).compats,
                        self.compats@ == rules,
                        self.coeff.width == old(self).coeff.width,
                        self.coeff.height == old(self).coeff.height,
                        self.coeff.weights == old(self).coeff.weights,
                        w == self.width(),
                        h == self.height(),
                        c_old == old(self).cells(),
                        all_ok == settled(c_old, w, h, rules, coord),
                        consistent(c_old, w, h, rules) ==> all_ok,
                        shrinks(c_old, self.cells()),
                        in_bounds(w, h, cur.x as int, cur.y as int),
                        in_bounds(w, h, other.x as int, other.y as int),
                        is_step(dir),
                        other.x == cur.x + dir.x,
                        other.y == cur.y + dir.y,
                        ip == idx(w, cur.x as int, cur.y as int),
                        iq == idx(w, other.x as int, other.y as int),
                        0 <= ip < c_dir.len(),
                        0 <= iq < c_dir.len(),
                        ip != iq,
                        nb@ == c_dir[iq],
                        no_dup(nb@),
                        cur_tiles@ == c_dir[ip],
                        ti <= nb.len(),
                        self.cells().len() == c_dir.len(),
                        forall|j: int| 0 <= j < c_dir.len() && j != iq ==> self.cells()[j] == c_dir[j],
                        forall|t: char| #[trigger] self.cells()[iq].contains(t) ==> nb@.contains(t),
                        forall|j: int| ti <= j < nb.len() ==> self.cells()[iq].contains(#[trigger] nb@[j]),
                        forall|j: int|
                            0 <= j < ti && self.cells()[iq].contains(#[trigger] nb@[j]) ==> supported(
                                rules,
                                cur_tiles@,
                                nb@[j],
                                dir,
                            ),
                        stack.len() >= s_dir.len(),
                        stack@.subrange(0, s_dir.len() as int) == s_dir,
                        forall|j: int| s_dir.len() <= j < stack.len() ==> #[trigger] stack@[j] == other,
                        stack.len() == s_dir.len() ==> self.cells() == c_dir,
                        size_sum(self.cells()) + (stack.len() - s_dir.len()) == size_sum(c_dir),
                        all_ok ==> self.cells() == c_old,
                        all_ok ==> cur == coord && stack.len() == 0,
                        forall|g: Seq<Seq<char>>| within(g, c_old) && #[trigger] consistent(g, w, h, rules) ==> within(g, self.cells()),
                        forall|i: int| 0 <= i < c_old.len() && #[trigger] self.cells()[i].len() == 0 ==> c_old[i].len() == 0,
                        all_ok ==> c_dir == c_old,
                    decreases nb.len() - ti,
                {
                    let t = nb[ti];
                    if !self.any_support(&cur_tiles, t, dir) {
                        proof {
                            if all_ok {
                                assert(arc_ok(c_old, w, h, rules, coord, dir));
                                assert(c_old[iq].contains(t));
                                assert(iq == idx(w, step(cur, dir).0, step(cur, dir).1));
                                assert(supported(rules, c_old[ip], t, dir));
                                assert(cur_tiles@ == c_old[ip]);
                                assert(false);
                            }
                        }
                        let ghost c_before = self.cells();
                        assert(c_before[iq].contains(t));
                        assert forall|g: Seq<Seq<char>>| within(g, c_old) && #[trigger] consistent(g, w, h, rules) implies !g[iq].contains(t) by {
                            if g[iq].contains(t) {
                                assert(arc_ok(g, w, h, rules, cur, dir));
                                assert(iq == idx(w, step(cur, dir).0, step(cur, dir).1));
                                let i = choose|i: int|
                                    0 <= i < g[ip].len() && rules.contains((Compat { tile1: g[ip][i], tile2: t, direction: dir }));
                                assert(g[ip].contains(g[ip][i]));
                                assert(c_before[ip].contains(g[ip][i]));
                                let j = choose|j: int| 0 <= j < c_before[ip].len() && c_before[ip][j] == g[ip][i];
                                assert(cur_tiles@[j] == g[ip][i]);
                            }
                        }
                        let _ = self.coeff.constrain(other, &t);
                        proof {
                            let k = choose|k: int|
                                0 <= k < c_before[iq].len() && c_before[iq][k] == t && self.cells() == c_before.update(
                                    iq,
                                    c_before[iq].remove(k),
                                );
                            lemma_remove_tile(c_before[iq], k);
                            lemma_size_sum_update(c_before, iq, c_before[iq].remove(k));
                            assert forall|g: Seq<Seq<char>>| within(g, c_old) && #[trigger] consistent(g, w, h, rules) implies within(g, self.cells()) by {
                                assert forall|i: int, u: char| 0 <= i < g.len() && #[trigger] g[i].contains(u) implies self.cells()[i].contains(u) by {
                                    assert(c_before[i].contains(u));
                                }
                            }
                            assert forall|j: int| ti < j < nb.len() implies self.cells()[iq].contains(#[trigger] nb@[j]) by {
                                assert(nb@[j] != nb@[ti as int]);
                            }
                        }
                        stack.push(other);
                        if self.coeff.get(other.x as usize, other.y as usize).len() == 0 {
                            proof {
                                assert forall|g: Seq<Seq<char>>|
                                    within(g, c_old) && #[trigger] consistent(g, w, h, rules) implies exists|i: int|
                                    0 <= i < g.len() && #[trigger] g[i].len() == 0 by {
                                    assert(self.cells()[iq].len() == 0);
                                    if g[iq].len() > 0 {
                                        assert(g[iq].contains(g[iq][0]));
                                        assert(self.cells()[iq].contains(g[iq][0]));
                                    }
                                    assert(g[iq].len() == 0);
                                }
                                assert(dead_end(c_old, w, h, rules));
                                assert(c_old[iq].contains(t));
                                assert(self.cells()[iq].len() == 0 && c_old[iq].len() > 0);
                            }
                            return Err(MatrixError::Contradiction);
                        }
                    }
                    ti += 1;
                }
                proof {
                    let c_now = self.cells();
                    assert forall|t: char| #[trigger] c_now[iq].contains(t) implies supported(rules, c_now[ip], t, dir) by {
                        let j = choose|j: int| 0 <= j < nb@.len() && nb@[j] == t;
                    }
                    assert(arc_ok(c_now, w, h, rules, cur, dir));
                    assert forall|t: char| #[trigger] c_now[idx(w, other.x as int, other.y as int)].contains(t) implies c_dir[idx(w, other.x as int, other.y as int)].contains(t) by {
                        let j = choose|j: int| 0 <= j < nb@.len() && nb@[j] == t;
                    }
                    assert forall|p: CoOrd, d: CoOrd|
                        p != cur && !stack@.contains(p) && marked(c_old, c_now, w, h, rules, coord, p) implies #[trigger] arc_ok(
                        c_now,
                        w,
                        h,
                        rules,
                        p,
                        d,
                    ) by {
                        if s_dir.contains(p) {
                            let j = choose|j: int| 0 <= j < s_dir.len() && s_dir[j] == p;
                            assert(stack@[j] == p);
                        }
                        if p == other {
                            if stack.len() > s_dir.len() {
                                assert(stack@[s_dir.len() as int] == p);
                            }
                        } else if in_bounds(w, h, p.x as int, p.y as int) {
                            let i_p = idx(w, p.x as int, p.y as int);
                            lemma_idx_bounds(w, h, p.x as int, p.y as int);
                            if i_p == iq {
                                lemma_idx_inj(w, h, p.x as int, p.y as int, other.x as int, other.y as int);
                            }
                            assert(c_now[i_p] == c_dir[i_p]);
                            assert(marked(c_old, c_dir, w, h, rules, coord, p));
                            lemma_arc_kept(c_dir, c_now, w, h, rules, other, p, d);
                        }
                    }
                    assert forall|j: int| 0 <= j <= di implies arc_ok(c_now, w, h, rules, cur, #[trigger] dirs@[j]) by {
                        if j < di {
                            lemma_arc_kept(c_dir, c_now, w, h, rules, other, cur, dirs@[j]);
                        }
                    }
                    assert(stack@.subrange(0, s_rest.len() as int) == s_rest) by {
                        assert(stack@.subrange(0, s_rest.len() as int) =~= s_dir.subrange(0, s_rest.len() as int));
                    }
                    assert forall|j: int| 0 <= j < stack.len() implies in_bounds(w, h, #[trigger] stack@[j].x as int, stack@[j].y as int) by {
                        if j < s_dir.len() {
                            assert(stack@[j] == s_dir[j]);
                        }
                    }
                }
                di += 1;
            }
            proof {
                let c_now = self.cells();
                assert forall|p: CoOrd, d: CoOrd|
                    !stack@.contains(p) && marked(c_old, c_now, w, h, rules, coord, p) implies #[trigger] arc_ok(
                    c_now,
                    w,
                    h,
                    rules,
                    p,
                    d,
                ) by {
                    if p == cur {
                        lemma_steps_from(cur, w, h, d);
                        if dirs@.contains(d) {
                            let j = choose|j: int| 0 <= j < dirs@.len() && dirs@[j] == d;
                            assert(arc_ok(c_now, w, h, rules, cur, dirs@[j]));
                        }
                    }
                }
            }
        }
        proof {
            let c_end = self.cells();
            assert forall|p: CoOrd| #[trigger] marked(c_old, c_end, w, h, rules, coord, p) implies settled(
                c_end,
                w,
                h,
                rules,
                p,
            ) by {
                assert forall|d: CoOrd| #[trigger] arc_ok(c_end, w, h, rules, p, d) by {
                    assert(!stack@.contains(p));
                }
            }
            assert(marked(c_old, c_end, w, h, rules, coord, coord));
            if pre_ok {
                assert forall|p: CoOrd, d: CoOrd| #[trigger] arc_ok(c_end, w, h, rules, p, d) by {
                    if p != coord {
                        assert forall|e: CoOrd| #[trigger] arc_ok(c_old, w, h, rules, p, e) by {
                            assert(arc_ok(c_old, w, h, rules, p, e));
                        }
                    }
                    assert(marked(c_old, c_end, w, h, rules, coord, p));
                }
            }
        }
        Ok(())
    }

    /// Collapses the cell `coords` and propagates the consequences. A cell with
    /// no candidate left is a contradiction.
    pub fn iterate(&mut self, coords: CoOrd) -> (res: Result<(), MatrixError>)
        requires
            old(self).wf(),
            in_bounds(old(self).width(), old(self).height(), coords.x as int, coords.y as int),
        ensures
            final(self).wf(),
            final(self).compats == old(self).compats,
            final(self).coeff.width == old(self).coeff.width,
            final(self).coeff.height == old(self).coeff.height,
            final(self).coeff.weights == old(self).coeff.weights,
            shrinks(old(self).cells(), final(self).cells()),
            old(self).cells()[idx(old(self).width(), coords.x as int, coords.y as int)].len() > 1 ==> open_count(
                final(self).cells(),
            ) < open_count(old(self).cells()),
            old(self).cells()[idx(old(self).width(), coords.x as int, coords.y as int)].len() == 0 ==> res
                == Err::<(), MatrixError>(MatrixError::Contradiction) && final(self).cells() == old(self).cells(),
            res is Ok ==> final(self).cells()[idx(old(self).width(), coords.x as int, coords.y as int)].len() == 1,
            res is Ok ==> forall|i: int|
                0 <= i < old(self).cells().len() && #[trigger] final(self).cells()[i].len() == 0 ==> old(self).cells()[i].len() == 0,
            res is Ok ==> touched_settled(
                old(self).cells(),
                final(self).cells(),
                old(self).width(),
                old(self).height(),
                old(self).compats@,
            ),
            res is Ok ==> settled(final(self).cells(), old(self).width(), old(self).height(), old(self).compats@, coords),
            res is Err ==> old(self).cells()[idx(old(self).width(), coords.x as int, coords.y as int)].len() == 0
                || exists|t: char|
                old(self).cells()[idx(old(self).width(), coords.x as int, coords.y as int)].contains(t) && #[trigger] dead_end(
                    old(self).cells().update(idx(old(self).width(), coords.x as int, coords.y as int), seq![t]),
                    old(self).width(),
                    old(self).height(),
                    old(self).compats@,
                ),
            res is Err ==> res == Err::<(), MatrixError>(MatrixError::Contradiction) && exists|i: int|
                0 <= i < final(self).cells().len() && #[trigger] final(self).cells()[i].len() == 0,
    {
        let ghost w = self.width();
        let ghost h = self.height();
        let ghost rules = self.compats@;
        let ghost c_old = self.cells();
        let ghost at = idx(w, coords.x as int, coords.y as int);
        proof {
            lemma_idx_bounds(w, h, coords.x as int, coords.y as int);
        }
        if self.coeff.get(coords.x as usize, coords.y as usize).len() == 0 {
            return Err(MatrixError::Contradiction);
        }
        self.coeff.collapse(coords);
        let ghost c_mid = self.cells();
        let res = self.propagate(coords);
        proof {
            let ws = old(self).coeff.weights@;
            let k = choose|k: int|
                0 <= k < ws.len() && c_old[at].contains(ws[k].0) && c_mid == c_old.update(at, seq![ws[k].0]);
            if res is Err {
                assert(dead_end(c_old.update(at, seq![ws[k].0]), w, h, rules));
            }
            let c_end = self.cells();
            lemma_open_count(c_old, c_end, at);
            assert(c_mid[at].len() == 1);
            if res is Ok {
                assert(c_end[at].len() != 0);
                assert forall|p: CoOrd|
                    #[trigger] settled(c_old, w, h, rules, p) || c_end[idx(w, p.x as int, p.y as int)] != c_old[idx(
                        w,
                        p.x as int,
                        p.y as int,
                    )] implies settled(c_end, w, h, rules, p) by {
                    if in_bounds(w, h, p.x as int, p.y as int) {
                        let ip = idx(w, p.x as int, p.y as int);
                        lemma_idx_bounds(w, h, p.x as int, p.y as int);
                        if p != coords {
                            if ip == at {
                                lemma_idx_inj(w, h, p.x as int, p.y as int, coords.x as int, coords.y as int);
                            }
                            assert(c_mid[ip] == c_old[ip]);
                            if settled(c_old, w, h, rules, p) {
                                assert forall|d: CoOrd| #[trigger] arc_ok(c_mid, w, h, rules, p, d) by {
                                    assert(arc_ok(c_old, w, h, rules, p, d));
                                    assert forall|t: char| #[trigger] c_mid[at].contains(t) implies c_old[at].contains(t) by {
                                        assert(c_mid[at][0] == t);
                                    }
                                    lemma_arc_kept(c_old, c_mid, w, h, rules, coords, p, d);
                                }
                            }
                        }
                        assert(marked(c_mid, c_end, w, h, rules, coords, p));
                    }
                }
                assert(marked(c_mid, c_end, w, h, rules, coords, coords));
            }
        }
        res
    }

    /// The first cell, in grid order, that holds more than one candidate.
    pub fn first_open_cell(&self) -> (r: Option<CoOrd>)
        requires
            self.wf(),
        ensures
            r is None ==> forall|i: int| 0 <= i < self.cells().len() ==> #[trigger] self.cells()[i].len() <= 1,
            r matches Some(c) ==> in_bounds(self.width(), self.height(), c.x as int, c.y as int)
                && self.cells()[idx(self.width(), c.x as int, c.y as int)].len() > 1,
    {
        let n = self.coeff.coeff_matrix.len();
        let mut i: usize = 0;
        while i < n
            invariant
                self.wf(),
                n == self.cells().len(),
                i <= n,
                forall|j: int| 0 <= j < i ==> #[trigger] self.cells()[j].len() <= 1,
            decreases n - i,
        {
            if self.coeff.coeff_matrix[i].len() > 1 {
                let w = self.coeff.width;
                let h = self.coeff.height;
                proof {
                    assert(w > 0) by (nonlinear_arith)
                        requires
                            w * h == n,
                            i < n,
                    ;
                    vstd::arithmetic::div_mod::lemma_fundamental_div_mod(i as int, w as int);
                    let q = i as int / w as int;
                    let m = i as int % w as int;
                    assert(0 <= m < w);
                    assert(q >= 0);
                    assert(q < h) by (nonlinear_arith)
                        requires
                            w * q + m == i,
                            0 <= m,
                            i < w * h,
                            w > 0,
                    ;
                    assert(q * w + m == i) by (nonlinear_arith)
                        requires
                            w * q + m == i,
                    ;
                    assert(idx(w as int, m, q) == i);
                }
                return Some(CoOrd { x: (i % w) as i32, y: (i / w) as i32 });
            }
            i += 1;
        }
        None
    }

    /// Collapses cells until every cell holds one tile, and returns the tiles
    /// in grid order. `pick` names the next cell to collapse; where it names
    /// none that is still open, the first open cell is taken.
    pub fn run<F: Fn(&CoEffMatrix) -> CoOrd>(&mut self, pick: F) -> (res: Result<Vec<char>, MatrixError>)
        requires
            old(self).wf(),
            forall|m: &CoEffMatrix| #[trigger] pick.requires((m,)),
        ensures
            final(self).wf(),
            final(self).compats == old(self).compats,
            final(self).coeff.width == old(self).coeff.width,
            final(self).coeff.height == old(self).coeff.height,
            final(self).coeff.weights == old(self).coeff.weights,
            shrinks(old(self).cells(), final(self).cells()),
            res is Ok ==> forall|i: int| 0 <= i < final(self).cells().len() ==> #[trigger] final(self).cells()[i].len() == 1,
            res matches Ok(v) ==> v@ == collapsed_values(final(self).cells()),
            res is Ok && (forall|i: int| 0 <= i < old(self).cells().len() ==> #[trigger] old(self).cells()[i].len() > 1)
                ==> consistent(final(self).cells(), old(self).width(), old(self).height(), old(self).compats@),
            res is Ok ==> touched_settled(
                old(self).cells(),
                final(self).cells(),
                old(self).width(),
                old(self).height(),
                old(self).compats@,
            ),
            res is Err ==> res == Err::<Vec<char>, MatrixError>(MatrixError::Contradiction) && exists|i: int|
                0 <= i < final(self).cells().len() && #[trigger] final(self).cells()[i].len() == 0,
            res is Err && (forall|i: int| 0 <= i < old(self).cells().len() ==> #[trigger] old(self).cells()[i].len() > 0)
                ==> exists|s: Seq<Seq<char>>|
                shrinks(old(self).cells(), s) && (forall|i: int| 0 <= i < s.len() ==> #[trigger] s[i].len() > 0)
                    && #[trigger] dead_end(s, old(self).width(), old(self).height(), old(self).compats@),
    {
        let ghost w = self.width();
        let ghost h = self.height();
        let ghost rules = self.compats@;
        let ghost c_old = self.cells();
        let ghost filled = forall|i: int| 0 <= i < c_old.len() ==> #[trigger] c_old[i].len() > 0;
        loop
            invariant
                filled == forall|i: int| 0 <= i < c_old.len() ==> #[trigger] c_old[i].len() > 0,
                filled ==> forall|i: int| 0 <= i < self.cells().len() ==> #[trigger] self.cells()[i].len() > 0,
                self.wf(),
                self.compats == old(self).compats,
                self.compats@ == rules,
                self.coeff.width == old(self).coeff.width,
                self.coeff.height == old(self).coeff.height,
                self.coeff.weights == old(self).coeff.weights,
                w == self.width(),
                h == self.height(),
                c_old == old(self).cells(),
                forall|m: &CoEffMatrix| #[trigger] pick.requires((m,)),
                shrinks(c_old, self.cells()),
                touched_settled(c_old, self.cells(), w, h, rules),
            decreases open_count(self.cells()),
        {
            if self.coeff.all_collapsed() {
                proof {
                    let c_end = self.cells();
                    assert forall|i: int| 0 <= i < c_end.len() implies #[trigger] c_end[i].len() == 1 by {
                        assert(c_end[i] == self.coeff.coeff_matrix@[i]@);
                    }
                    if forall|i: int| 0 <= i < c_old.len() ==> #[trigger] c_old[i].len() > 1 {
                        lemma_solved_is_consistent(c_old, c_end, w, h, rules);
                    }
                }
                let out = self.coeff.get_all_collapsed();
                return Ok(out);
            }
            let ghost c_cur = self.cells();
            let picked = pick(&self.coeff);
            let target = if 0 <= picked.x && (picked.x as usize) < self.coeff.width && 0 <= picked.y
                && (picked.y as usize) < self.coeff.height && self.coeff.get(
                picked.x as usize,
                picked.y as usize,
            ).len() > 1 {
                picked
            } else {
                match self.first_open_cell() {
                    Some(c) => c,
                    None => {
                        proof {
                            let i = choose|i: int|
                                0 <= i < self.coeff.coeff_matrix.len() && self.coeff.coeff_matrix@[i]@.len() != 1;
                            assert(c_cur[i] == self.coeff.coeff_matrix@[i]@);
                            assert(c_cur[i].len() <= 1);
                            if filled {
                                assert(c_cur[i].len() > 0);
                            }
                        }
                        return Err(MatrixError::Contradiction);
                    },
                }
            };
            proof {
                lemma_idx_bounds(w, h, target.x as int, target.y as int);
            }
            let ghost at = idx(w, target.x as int, target.y as int);
            match self.iterate(target) {
                Ok(()) => {},
                Err(e) => {
                    proof {
                        if filled {
                            assert(c_cur[at].len() > 0);
                            let t = choose|t: char| c_cur[at].contains(t) && #[trigger] dead_end(c_cur.update(at, seq![t]), w, h, rules);
                            let s = c_cur.update(at, seq![t]);
                            assert forall|i: int| 0 <= i < c_old.len() implies #[trigger] s[i].len() <= c_old[i].len() by {
                                assert(c_cur[i].len() <= c_old[i].len());
                                if i == at {
                                    assert(c_cur[at].len() > 0);
                                }
                            }
                            assert forall|i: int, c: char| 0 <= i < c_old.len() && #[trigger] s[i].contains(c) implies c_old[i].contains(c) by {
                                if i == at {
                                    assert(s[i][0] == c);
                                }
                                assert(c_cur[i].contains(c));
                            }
                            assert forall|i: int| 0 <= i < s.len() implies #[trigger] s[i].len() > 0 by {
                                if i != at {
                                    assert(c_cur[i].len() > 0);
                                }
                            }
                            assert(shrinks(c_old, s));
                            assert(shrinks(old(self).cells(), s) && (forall|i: int| 0 <= i < s.len() ==> #[trigger] s[i].len() > 0)
                                && dead_end(s, old(self).width(), old(self).height(), old(self).compats@));
                        }
                    }
                    return Err(e);
                },
            }
            proof {
                let c_next = self.cells();
                assert forall|p: CoOrd|
                    #[trigger] settled(c_old, w, h, rules, p) || c_next[idx(w, p.x as int, p.y as int)] != c_old[idx(
                        w,
                        p.x as int,
                        p.y as int,
                    )] implies settled(c_next, w, h, rules, p) by {
                    let ip = idx(w, p.x as int, p.y as int);
                    assert(settled(c_cur, w, h, rules, p) ==> settled(c_next, w, h, rules, p));
                    if c_next[ip] == c_cur[ip] {
                        let was = settled(c_old, w, h, rules, p);
                        assert(was || c_cur[ip] != c_old[ip]);
                        assert(settled(c_cur, w, h, rules, p));
                    }
                }
            }
        }
    }

    /// Whether some tile of `src` has the rule `(tile, t, dir)`.
    fn any_support(&self, src: &Vec<char>, t: char, dir: CoOrd) -> (r: bool)
        ensures
            r == supported(self.compats@, src@, t, dir),
    {
        let mut i: usize = 0;
        while i < src.len()
            invariant
                i <= src.len(),
                forall|j: int|
                    0 <= j < i ==> !self.compats@.contains(
                        (Compat { tile1: #[trigger] src@[j], tile2: t, direction: dir }),
                    ),
            decreases src.len() - i,
        {
            if has_rule(&self.compats, src[i], t, dir) {
                return true;
            }
            i += 1;
        }
        false
    }
}

} // verus!
