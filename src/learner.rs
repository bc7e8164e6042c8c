use vstd::prelude::*;
use crate::coeff_matrix::{Matrix, in_bounds, no_dup, tiles_of, weight_sum, weights_wf};
use crate::compat::{Compat, has_rule};
use crate::coord::{CoOrd, is_step, lemma_steps_from, valid_dirs};
use crate::errors::MatrixError;

verus! {

/// All rows have the length of the first.
pub open spec fn rectangular(m: Seq<Seq<char>>) -> bool {
    forall|i: int| 0 <= i < m.len() ==> #[trigger] m[i].len() == m[0].len()
}

/// The width of a sample: the length of its first row, or 0 for no rows.
pub open spec fn sample_width(m: Seq<Seq<char>>) -> int {
    if m.len() == 0 {
        0
    } else {
        m[0].len() as int
    }
}

/// How often `t` occurs in `s`.
pub open spec fn occ(s: Seq<char>, t: char) -> nat
    decreases s.len(),
{
    if s.len() == 0 {
        0
    } else {
        occ(s.drop_last(), t) + if s.last() == t {
            1nat
        } else {
            0
        }
    }
}

/// How often `t` occurs in the first `n` rows of `m`.
pub open spec fn occ_rows(m: Seq<Seq<char>>, n: int, t: char) -> nat
    decreases n,
{
    if n <= 0 {
        0
    } else {
        occ_rows(m, n - 1, t) + occ(m[n - 1], t)
    }
}

/// How often `t` occurs in the sample.
pub open spec fn count(m: Seq<Seq<char>>, t: char) -> nat {
    occ_rows(m, m.len() as int, t)
}

/// The rule read at the cell `(x, y)` of the sample for the step `d`.
pub open spec fn rule_at(m: Seq<Seq<char>>, x: int, y: int, d: CoOrd) -> Compat {
    Compat { tile1: m[y][x], tile2: m[y + d.y][x + d.x], direction: d }
}

/// The step `d` leads from the cell `(x, y)` to another cell of the sample.
pub open spec fn step_in(m: Seq<Seq<char>>, x: int, y: int, d: CoOrd) -> bool {
    &&& in_bounds(sample_width(m), m.len() as int, x, y)
    &&& is_step(d)
    &&& in_bounds(sample_width(m), m.len() as int, x + d.x, y + d.y)
}

/// `r` is read at some cell of the sample before `(x, y)` in row-major order.
pub open spec fn seen_before(m: Seq<Seq<char>>, r: Compat, x: int, y: int) -> bool {
    exists|xx: int, yy: int, d: CoOrd|
        (yy < y || (yy == y && xx < x)) && #[trigger] step_in(m, xx, yy, d) && r == rule_at(m, xx, yy, d)
}

/// `r` is read at some cell of the sample.
pub open spec fn rule_seen(m: Seq<Seq<char>>, r: Compat) -> bool {
    exists|xx: int, yy: int, d: CoOrd| #[trigger] step_in(m, xx, yy, d) && r == rule_at(m, xx, yy, d)
}

/// `rules` and `ws` are what the sample `m` teaches: each rule it shows, once,
/// and each of its tiles, once, with the number of its occurrences.
pub open spec fn learned(m: Seq<Seq<char>>, rules: Seq<Compat>, ws: Seq<(char, u64)>) -> bool {
    &&& weights_wf(ws)
    &&& forall|k: int| 0 <= k < ws.len() ==> ws[k].1 == #[trigger] count(m, ws[k].0)
    &&& forall|t: char| #[trigger] tiles_of(ws).contains(t) <==> count(m, t) > 0
    &&& distinct_rules(rules)
    &&& forall|r: Compat| #[trigger] rules.contains(r) <==> rule_seen(m, r)
}

/// Learning twice from one sample gives the same tiles with the same weights,
/// and the same rules.
pub proof fn lemma_learning_deterministic(
    m: Seq<Seq<char>>,
    rules1: Seq<Compat>,
    ws1: Seq<(char, u64)>,
    rules2: Seq<Compat>,
    ws2: Seq<(char, u64)>,
)
    requires
        learned(m, rules1, ws1),
        learned(m, rules2, ws2),
    ensures
        forall|t: char| #[trigger] tiles_of(ws1).contains(t) == tiles_of(ws2).contains(t),
        forall|i: int, j: int|
            0 <= i < ws1.len() && 0 <= j < ws2.len() && ws1[i].0 == ws2[j].0 ==> #[trigger] ws1[i].1 == #[trigger] ws2[j].1,
        rules1.to_set() == rules2.to_set(),
{
    assert forall|i: int, j: int|
        0 <= i < ws1.len() && 0 <= j < ws2.len() && ws1[i].0 == ws2[j].0 implies #[trigger] ws1[i].1 == #[trigger] ws2[j].1 by {
        assert(ws1[i].1 == count(m, ws1[i].0));
        assert(ws2[j].1 == count(m, ws2[j].0));
    }
    assert(rules1.to_set() =~= rules2.to_set());
}

/// No rule occurs twice.
pub open spec fn distinct_rules(rs: Seq<Compat>) -> bool {
    forall|i: int, j: int| 0 <= i < j < rs.len() ==> rs[i] != rs[j]
}

proof fn lemma_occ_step(s: Seq<char>, x: int, t: char)
    requires
        0 <= x < s.len(),
    ensures
        occ(s.subrange(0, x + 1), t) == occ(s.subrange(0, x), t) + if s[x] == t {
            1nat
        } else {
            0
        },
{
    assert(s.subrange(0, x + 1).drop_last() =~= s.subrange(0, x));
}

proof fn lemma_weight_sum_update(ws: Seq<(char, u64)>, k: int, v: (char, u64))
    requires
        0 <= k < ws.len(),
    ensures
        weight_sum(ws.update(k, v)) + ws[k].1 == weight_sum(ws) + v.1,
        ws[k].1 <= weight_sum(ws),
    decreases ws.len(),
{
    let u = ws.update(k, v);
    if k == ws.len() - 1 {
        assert(u.drop_last() =~= ws.drop_last());
    } else {
        lemma_weight_sum_update(ws.drop_last(), k, v);
        assert(u.drop_last() =~= ws.drop_last().update(k, v));
    }
}

/// Learns from a rectangular sample the adjacency rules it shows and how
/// often each tile occurs in it. A sample whose rows differ in length is refused.
pub fn parse_matrix(matrix: &Matrix) -> (res: Result<(Vec<Compat>, Vec<(char, u64)>), MatrixError>)
    requires
        matrix.0.len() <= i32::MAX,
        forall|i: int| 0 <= i < matrix.0.len() ==> #[trigger] matrix.0@[i].len() <= i32::MAX,
    ensures
        !rectangular(matrix.0@.map_values(|r: Vec<char>| r@)) <==> res == Err::<
            (Vec<Compat>, Vec<(char, u64)>),
            MatrixError,
        >(MatrixError::ParseError),
        rectangular(matrix.0@.map_values(|r: Vec<char>| r@)) ==> res is Ok,
        res matches Ok((rules, ws)) ==> learned(matrix.0@.map_values(|r: Vec<char>| r@), rules@, ws@),
{
    let ghost m = matrix.0@.map_values(|r: Vec<char>| r@);
    proof {
        assert forall|i: int| 0 <= i < m.len() implies #[trigger] m[i] == matrix.0@[i]@ by {}
    }
    let height = matrix.0.len();
    if height == 0 {
        let rules: Vec<Compat> = Vec::new();
        let ws: Vec<(char, u64)> = Vec::new();
        proof {
            assert(tiles_of(ws@) =~= Seq::<char>::empty());
        }
        return Ok((rules, ws));
    }
    let width = matrix.0[0].len();
    let mut r: usize = 0;
    while r < height
        invariant
            r <= height,
            height == m.len(),
            height == matrix.0.len(),
            width == m[0].len(),
            m == matrix.0@.map_values(|r: Vec<char>| r@),
            forall|i: int| 0 <= i < m.len() ==> #[trigger] m[i] == matrix.0@[i]@,
            forall|i: int| 0 <= i < r ==> #[trigger] m[i].len() == width,
        decreases height - r,
    {
        if matrix.0[r].len() != width {
            assert(m[r as int].len() != m[0].len());
            return Err(MatrixError::ParseError);
        }
        r += 1;
    }
    let mut rules: Vec<Compat> = Vec::new();
    let mut ws: Vec<(char, u64)> = Vec::new();
    let mut y: usize = 0;
    while y < height
        invariant
            y <= height,
            height == m.len(),
            height == matrix.0.len(),
            width == sample_width(m),
            height <= i32::MAX,
            width <= i32::MAX,
            m == matrix.0@.map_values(|r: Vec<char>| r@),
            forall|i: int| 0 <= i < m.len() ==> #[trigger] m[i] == matrix.0@[i]@,
            rectangular(m),
            no_dup(tiles_of(ws@)),
            forall|k: int| 0 <= k < ws.len() ==> #[trigger] ws@[k].1 > 0,
            forall|k: int| 0 <= k < ws.len() ==> ws@[k].1 == occ_rows(m, y as int, #[trigger] ws@[k].0),
            forall|t: char| occ_rows(m, y as int, t) > 0 ==> #[trigger] tiles_of(ws@).contains(t),
            weight_sum(ws@) == y * width,
            distinct_rules(rules@),
            forall|q: Compat| #[trigger] rules@.contains(q) ==> rule_seen(m, q),
            forall|q: Compat| seen_before(m, q, 0, y as int) ==> #[trigger] rules@.contains(q),
        decreases height - y,
    {
        let row = &matrix.0[y];
        proof {
            assert(row@ == m[y as int]);
            assert(m[y as int].subrange(0, 0) =~= Seq::<char>::empty());
            assert forall|t: char| occ(m[y as int].subrange(0, 0), t) == 0 by {}
        }
        let mut x: usize = 0;
        while x < width
            invariant
                y < height,
                x <= width,
                height == m.len(),
                height == matrix.0.len(),
                width == sample_width(m),
                height <= i32::MAX,
                width <= i32::MAX,
                m == matrix.0@.map_values(|r: Vec<char>| r@),
                forall|i: int| 0 <= i < m.len() ==> #[trigger] m[i] == matrix.0@[i]@,
                rectangular(m),
                row@ == m[y as int],
                no_dup(tiles_of(ws@)),
                forall|k: int| 0 <= k < ws.len() ==> #[trigger] ws@[k].1 > 0,
                forall|k: int|
                    0 <= k < ws.len() ==> ws@[k].1 == occ_rows(m, y as int, ws@[k].0) + occ(
                        m[y as int].subrange(0, x as int),
                        #[trigger] ws@[k].0,
                    ),
                forall|t: char|
                    occ_rows(m, y as int, t) + occ(m[y as int].subrange(0, x as int), t) > 0
                        ==> #[trigger] tiles_of(ws@).contains(t),
                weight_sum(ws@) == y * width + x,
                distinct_rules(rules@),
                forall|q: Compat| #[trigger] rules@.contains(q) ==> rule_seen(m, q),
                forall|q: Compat| seen_before(m, q, x as int, y as int) ==> #[trigger] rules@.contains(q),
            decreases width - x,
        {
            assert(m[y as int].len() == width);
            let tile = row[x];
            let mut k: usize = 0;
            while k < ws.len() && ws[k].0 != tile
                invariant
                    k <= ws.len(),
                    forall|j: int| 0 <= j < k ==> ws@[j].0 != tile,
                decreases ws.len() - k,
            {
                k += 1;
            }
            let ghost ws0 = ws@;
            proof {
                assert(y * width + x < height * width) by (nonlinear_arith)
                    requires
                        y < height,
                        x < width,
                ;
                assert(height * width <= i32::MAX * i32::MAX) by (nonlinear_arith)
                    requires
                        height <= i32::MAX,
                        width <= i32::MAX,
                ;
            }
            if k < ws.len() {
                proof {
                    lemma_weight_sum_update(ws0, k as int, (tile, (ws0[k as int].1 + 1) as u64));
                }
                let cnt = ws[k].1;
                ws[k] = (tile, cnt + 1);
                proof {
                    assert(tiles_of(ws@) =~= tiles_of(ws0));
                }
            } else {
                ws.push((tile, 1));
                proof {
                    assert(ws@.drop_last() == ws0);
                    assert(tiles_of(ws@) =~= tiles_of(ws0).push(tile));
                    assert forall|i: int, j: int|
                        0 <= i < j < tiles_of(ws@).len() implies tiles_of(ws@)[i] != tiles_of(ws@)[j] by {
                        if j == ws0.len() {
                            assert(tiles_of(ws@)[i] == ws0[i].0);
                        } else {
                            assert(tiles_of(ws@)[i] == tiles_of(ws0)[i]);
                            assert(tiles_of(ws@)[j] == tiles_of(ws0)[j]);
                        }
                    }
                }
            }
            proof {
                let sx = m[y as int].subrange(0, x as int);
                if k == ws0.len() && tiles_of(ws0).contains(tile) {
                    let j = choose|j: int| 0 <= j < tiles_of(ws0).len() && tiles_of(ws0)[j] == tile;
                    assert(ws0[j].0 == tile);
                }
                if k == ws0.len() {
                    assert(!tiles_of(ws0).contains(tile));
                    assert(occ_rows(m, y as int, tile) + occ(sx, tile) == 0);
                }
                assert forall|kk: int| 0 <= kk < ws.len() implies ws@[kk].1 == occ_rows(m, y as int, ws@[kk].0) + occ(
                    m[y as int].subrange(0, x as int + 1),
                    #[trigger] ws@[kk].0,
                ) by {
                    lemma_occ_step(m[y as int], x as int, ws@[kk].0);
                    if kk < ws0.len() && kk != k {
                        assert(tiles_of(ws0)[kk] == ws0[kk].0);
                        if k < ws0.len() {
                            assert(tiles_of(ws0)[k as int] == tile);
                        }
                        assert(ws0[kk].0 != tile);
                        assert(ws@[kk] == ws0[kk]);
                        assert(ws0[kk].1 == occ_rows(m, y as int, ws0[kk].0) + occ(sx, ws0[kk].0));
                    } else if kk == k && k < ws0.len() {
                        assert(ws0[kk].1 == occ_rows(m, y as int, ws0[kk].0) + occ(sx, ws0[kk].0));
                    }
                }
                assert forall|t: char|
                    occ_rows(m, y as int, t) + occ(m[y as int].subrange(0, x as int + 1), t) > 0
                        implies #[trigger] tiles_of(ws@).contains(t) by {
                    lemma_occ_step(m[y as int], x as int, t);
                    if t == tile {
                        assert(tiles_of(ws@)[k as int] == t);
                    } else {
                        assert(occ_rows(m, y as int, t) + occ(sx, t) > 0);
                        assert(tiles_of(ws0).contains(t));
                        let j = choose|j: int| 0 <= j < tiles_of(ws0).len() && tiles_of(ws0)[j] == t;
                        assert(ws0[j].0 == t);
                        assert(j != k);
                        assert(tiles_of(ws@)[j] == t);
                    }
                }
            }
            let here = CoOrd { x: x as i32, y: y as i32 };
            let dirs = valid_dirs(&here, (width as i32, height as i32));
            let mut di: usize = 0;
            while di < dirs.len()
                invariant
                    y < height,
                    x < width,
                    di <= dirs.len(),
                    height == m.len(),
                    width == sample_width(m),
                    height <= i32::MAX,
                    width <= i32::MAX,
                    m == matrix.0@.map_values(|r: Vec<char>| r@),
                    forall|i: int| 0 <= i < m.len() ==> #[trigger] m[i] == matrix.0@[i]@,
                    height == matrix.0.len(),
                    rectangular(m),
                    row@ == m[y as int],
                    tile == m[y as int][x as int],
                    here == (CoOrd { x: x as i32, y: y as i32 }),
                    dirs@ == crate::coord::steps_from(here, width as int, height as int),
                    distinct_rules(rules@),
                    forall|q: Compat| #[trigger] rules@.contains(q) ==> rule_seen(m, q),
                    forall|q: Compat| seen_before(m, q, x as int, y as int) ==> #[trigger] rules@.contains(q),
                    forall|j: int| 0 <= j < di ==> rules@.contains(rule_at(m, x as int, y as int, #[trigger] dirs@[j])),
                decreases dirs.len() - di,
            {
                let dir = dirs[di];
                proof {
                    assert(dirs@.contains(dir));
                    lemma_steps_from(here, width as int, height as int, dir);
                    assert(step_in(m, x as int, y as int, dir));
                }
                let ny = (y as i32 + dir.y) as usize;
                let nx = (x as i32 + dir.x) as usize;
                proof {
                    assert(ny == y + dir.y && nx == x + dir.x);
                    assert(m[ny as int].len() == width);
                    assert(m[ny as int] == matrix.0@[ny as int]@);
                }
                let other = matrix.0[ny][nx];
                let ghost rules0 = rules@;
                let ghost q0 = rule_at(m, x as int, y as int, dir);
                assert(q0 == (Compat { tile1: tile, tile2: other, direction: dir }));
                if !has_rule(&rules, tile, other, dir) {
                    rules.push(Compat { tile1: tile, tile2: other, direction: dir });
                    proof {
                        assert(rules@ == rules0.push(q0));
                        assert forall|q: Compat| #[trigger] rules@.contains(q) implies rule_seen(m, q) by {
                            if q != q0 {
                                let i = choose|i: int| 0 <= i < rules@.len() && rules@[i] == q;
                                assert(rules0[i] == q);
                                assert(rules0.contains(q));
                            } else {
                                assert(step_in(m, x as int, y as int, dir) && q == rule_at(m, x as int, y as int, dir));
                            }
                        }
                        assert forall|i: int, j: int| 0 <= i < j < rules@.len() implies rules@[i] != rules@[j] by {
                            if j == rules0.len() {
                                assert(rules0.contains(rules0[i]));
                            }
                        }
                        assert forall|q: Compat| rules0.contains(q) implies #[trigger] rules@.contains(q) by {
                            let i = choose|i: int| 0 <= i < rules0.len() && rules0[i] == q;
                            assert(rules@[i] == q);
                        }
                        assert(rules@[rules0.len() as int] == q0);
                    }
                }
                di += 1;
            }
            proof {
                assert forall|q: Compat| seen_before(m, q, x as int + 1, y as int) implies #[trigger] rules@.contains(q) by {
                    let (xx, yy, d) = choose|xx: int, yy: int, d: CoOrd|
                        (yy < y || (yy == y && xx < x + 1)) && #[trigger] step_in(m, xx, yy, d) && q == rule_at(
                            m,
                            xx,
                            yy,
                            d,
                        );
                    if yy == y && xx == x {
                        lemma_steps_from(here, width as int, height as int, d);
                        let j = choose|j: int| 0 <= j < dirs@.len() && dirs@[j] == d;
                        assert(rules@.contains(rule_at(m, x as int, y as int, dirs@[j])));
                    } else {
                        assert(seen_before(m, q, x as int, y as int));
                    }
                }
            }
            x += 1;
        }
        proof {
            assert(m[y as int].subrange(0, width as int) =~= m[y as int]);
            assert(occ_rows(m, y as int + 1, 'a') == occ_rows(m, y as int, 'a') + occ(m[y as int], 'a'));
            assert forall|q: Compat| seen_before(m, q, 0, y as int + 1) implies #[trigger] rules@.contains(q) by {
                let (xx, yy, d) = choose|xx: int, yy: int, d: CoOrd|
                    (yy < y + 1 || (yy == y + 1 && xx < 0)) && #[trigger] step_in(m, xx, yy, d) && q == rule_at(
                        m,
                        xx,
                        yy,
                        d,
                    );
                assert(seen_before(m, q, width as int, y as int));
            }
            assert((y + 1) * width == y * width + width) by (nonlinear_arith);
        }
        y += 1;
    }
    proof {
        assert forall|q: Compat| #[trigger] rules@.contains(q) <== rule_seen(m, q) by {
            if rule_seen(m, q) {
                let (xx, yy, d) = choose|xx: int, yy: int, d: CoOrd| #[trigger] step_in(m, xx, yy, d) && q == rule_at(m, xx, yy, d);
                assert(seen_before(m, q, 0, height as int));
            }
        }
        assert(weight_sum(ws@) == height * width);
        assert(height * width <= i32::MAX * i32::MAX) by (nonlinear_arith)
            requires
                height <= i32::MAX,
                width <= i32::MAX,
        ;
        assert forall|t: char| #[trigger] tiles_of(ws@).contains(t) <==> count(m, t) > 0 by {
            if tiles_of(ws@).contains(t) {
                let j = choose|j: int| 0 <= j < tiles_of(ws@).len() && tiles_of(ws@)[j] == t;
                assert(ws@[j].1 > 0);
            }
        }
    }
    Ok((rules, ws))
}

} // verus!
