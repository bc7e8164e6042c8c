use vstd::prelude::*;
use crate::coeff_matrix::in_bounds;

verus! {

/// A grid position, or a unit step between two positions.
#[derive(PartialEq, Eq, Structural, Debug, Clone, Copy, Hash)]
pub struct CoOrd {
    pub x: i32,
    pub y: i32,
}

impl CoOrd {
    /// One step towards larger `y`.
    pub open spec fn up() -> CoOrd {
        CoOrd { x: 0, y: 1 }
    }

    /// One step towards smaller `y`.
    pub open spec fn down() -> CoOrd {
        CoOrd { x: 0, y: -1i32 }
    }

    /// One step towards smaller `x`.
    pub open spec fn left() -> CoOrd {
        CoOrd { x: -1i32, y: 0 }
    }

    /// One step towards larger `x`.
    pub open spec fn right() -> CoOrd {
        CoOrd { x: 1, y: 0 }
    }
}

/// True when `d` is one of the four unit steps.
pub open spec fn is_step(d: CoOrd) -> bool {
    d == CoOrd::up() || d == CoOrd::down() || d == CoOrd::left() || d == CoOrd::right()
}

/// The steps that lead from `p` to another cell of a `w` by `h` grid, in the
/// order up, down, left, right.
pub open spec fn steps_from(p: CoOrd, w: int, h: int) -> Seq<CoOrd> {
    (if p.y < h - 1 { seq![CoOrd::up()] } else { seq![] })
        + (if p.y > 0 { seq![CoOrd::down()] } else { seq![] })
        + (if p.x > 0 { seq![CoOrd::left()] } else { seq![] })
        + (if p.x < w - 1 { seq![CoOrd::right()] } else { seq![] })
}

/// For a cell inside the grid, a step is listed exactly when it is a unit step
/// that stays inside the grid.
pub proof fn lemma_steps_from(p: CoOrd, w: int, h: int, d: CoOrd)
    requires
        in_bounds(w, h, p.x as int, p.y as int),
    ensures
        steps_from(p, w, h).contains(d) <==> (is_step(d) && in_bounds(w, h, p.x + d.x, p.y + d.y)),
{
    let s = steps_from(p, w, h);
    if is_step(d) && in_bounds(w, h, p.x + d.x, p.y + d.y) {
        if d == CoOrd::up() {
            assert(s[0] == d);
        } else if d == CoOrd::down() {
            let k: int = if p.y < h - 1 { 1 } else { 0 };
            assert(s[k] == d);
        } else if d == CoOrd::left() {
            let k: int = (if p.y < h - 1 { 1int } else { 0 }) + (if p.y > 0 { 1int } else { 0 });
            assert(s[k] == d);
        } else {
            let k: int = (if p.y < h - 1 { 1int } else { 0 }) + (if p.y > 0 { 1int } else { 0 }) + (
            if p.x > 0 { 1int } else { 0 });
            assert(s[k] == d);
        }
    }
    if s.contains(d) {
        let i = choose|i: int| 0 <= i < s.len() && s[i] == d;
        assert(is_step(s[i]) && in_bounds(w, h, p.x + s[i].x, p.y + s[i].y));
    }
}

/// The unit steps that lead from `cur` to another cell of a grid of the given
/// width and height, in the order up, down, left, right.
pub fn valid_dirs(cur: &CoOrd, size: (i32, i32)) -> (r: Vec<CoOrd>)
    ensures
        r@ == steps_from(*cur, size.0 as int, size.1 as int),
{
    let mut dirs: Vec<CoOrd> = Vec::new();
    if (cur.y as i64) < (size.1 as i64) - 1 {
        dirs.push(CoOrd { x: 0, y: 1 });
    }
    if cur.y > 0 {
        dirs.push(CoOrd { x: 0, y: -1 });
    }
    if cur.x > 0 {
        dirs.push(CoOrd { x: -1, y: 0 });
    }
    if (cur.x as i64) < (size.0 as i64) - 1 {
        dirs.push(CoOrd { x: 1, y: 0 });
    }
    proof {
        let w = size.0 as int;
        let h = size.1 as int;
        assert(dirs@ =~= steps_from(*cur, w, h));
    }
    dirs
}

} // verus!
