use vstd::prelude::*;
use vstd::relations::{sorted_by, total_ordering};
use vstd::arithmetic::div_mod::{lemma_div_is_ordered, lemma_div_by_multiple};
use crate::vm::api::{BackendState, solid, line_points, hrun, lemma_line_horizontal, min_int, max_int};

verus! {

broadcast use vstd::seq_lib::to_multiset_insert, vstd::seq_lib::to_multiset_build;

/// The closed path through `vs`, up to vertex `k`: a line from each vertex
/// to the next.
pub open spec fn path_points(vs: Seq<(i32, i32)>, k: int) -> Set<(int, int)>
    decreases k,
{
    if k <= 1 {
        Set::empty()
    } else {
        path_points(vs, k - 1).union(
            line_points(vs[k - 2].0 as int, vs[k - 2].1 as int, vs[k - 1].0 as int, vs[k - 1].1 as int),
        )
    }
}

/// What `polygon` draws: nothing for fewer than 3 sides or a non-positive
/// radius, otherwise the lines joining consecutive vertices and the last
/// vertex back to the first.
pub open spec fn polygon_points(radius: int, sides: int, vs: Seq<(i32, i32)>) -> Set<(int, int)> {
    if sides < 3 || radius <= 0 || vs.len() == 0 {
        Set::empty()
    } else {
        let n = vs.len() as int;
        path_points(vs, n).union(
            line_points(vs[n - 1].0 as int, vs[n - 1].1 as int, vs[0].0 as int, vs[0].1 as int),
        )
    }
}

/// Integer division rounding towards zero, as Rust's `/` does.
pub open spec fn trunc_div(a: int, b: int) -> int {
    let ua = if a < 0 { -a } else { a };
    let ub = if b < 0 { -b } else { b };
    if (a < 0) == (b < 0) {
        ua / ub
    } else {
        -(ua / ub)
    }
}

/// Where the edge from `p1` to `p2` crosses scanline `y`, if it does: the
/// edge must span the line, half-open at its upper end.
pub open spec fn crossing(p1: (i32, i32), p2: (i32, i32), y: int) -> Option<i64> {
    if ((p1.1 <= y && p2.1 > y) || (p2.1 <= y && p1.1 > y)) && p1.1 != p2.1 {
        Some((p1.0 + trunc_div((y - p1.1) * (p2.0 - p1.0), p2.1 - p1.1)) as i64)
    } else {
        None
    }
}

/// The crossings of scanline `y` with the edges `0 .. k` of the closed
/// polygon `vs`, in edge order.
pub open spec fn crossings(vs: Seq<(i32, i32)>, y: int, k: int) -> Seq<i64>
    decreases k,
{
    if k <= 0 {
        Seq::empty()
    } else {
        let rest = crossings(vs, y, k - 1);
        match crossing(vs[k - 1], vs[k % (vs.len() as int)], y) {
            Some(x) => rest.push(x),
            None => rest,
        }
    }
}

/// The order on crossings.
pub open spec fn le_i64() -> spec_fn(i64, i64) -> bool {
    |a: i64, b: i64| a <= b
}

/// The smallest vertex row among `vs[0 .. k]`, starting from `start`.
pub open spec fn min_row(vs: Seq<(i32, i32)>, k: int, start: int) -> int
    decreases k,
{
    if k <= 0 {
        start
    } else {
        min_int(min_row(vs, k - 1, start), vs[k - 1].1 as int)
    }
}

/// The largest vertex row among `vs[0 .. k]`, starting from `start`.
pub open spec fn max_row(vs: Seq<(i32, i32)>, k: int, start: int) -> int
    decreases k,
{
    if k <= 0 {
        start
    } else {
        max_int(max_row(vs, k - 1, start), vs[k - 1].1 as int)
    }
}

proof fn lemma_le_i64_total()
    ensures
        total_ordering(le_i64()),
{
}

impl BackendState {
    /// The run that pair `k` of the sorted crossings `xs` fills on row `y`,
    /// kept inside the clip columns and the screen.
    pub open spec fn pair_run(&self, xs: Seq<i64>, y: int, k: int) -> Set<(int, int)> {
        let lo = max_int(max_int(xs[2 * k] as int, self.clip_x0 as int), 0);
        let hi = min_int(min_int(xs[2 * k + 1] as int, self.clip_x1 as int), self.target_width - 1);
        if lo <= hi {
            hrun(lo, hi, y)
        } else {
            Set::empty()
        }
    }

    /// The runs of pairs `0 .. k` of the sorted crossings `xs` on row `y`.
    pub open spec fn pair_runs(&self, xs: Seq<i64>, y: int, k: int) -> Set<(int, int)>
        decreases k,
    {
        if k <= 0 {
            Set::empty()
        } else {
            self.pair_runs(xs, y, k - 1).union(self.pair_run(xs, y, k - 1))
        }
    }

    /// What the scanline fill draws on row `y`: the crossings sorted left to
    /// right, taken in pairs (a last odd one is dropped).
    pub open spec fn row_fill(&self, vs: Seq<(i32, i32)>, y: int) -> Set<(int, int)> {
        let xs = crossings(vs, y, vs.len() as int).sort_by(le_i64());
        self.pair_runs(xs, y, (xs.len() / 2) as int)
    }

    /// The fills of rows `from .. y`.
    pub open spec fn rows_fill(&self, vs: Seq<(i32, i32)>, from: int, y: int) -> Set<(int, int)>
        decreases y - from,
    {
        if y <= from {
            Set::empty()
        } else {
            self.rows_fill(vs, from, y - 1).union(self.row_fill(vs, y - 1))
        }
    }

    /// First row the fill scans: the top vertex row (or the screen height
    /// when that is lower), kept inside the clip rows and the screen.
    pub open spec fn scan_start(&self, vs: Seq<(i32, i32)>) -> int {
        max_int(max_int(min_row(vs, vs.len() as int, self.target_height as int), self.clip_y0 as int), 0)
    }

    /// Last row the fill scans: the bottom vertex row (or 0 when that is
    /// higher), kept inside the clip rows and the screen.
    pub open spec fn scan_end(&self, vs: Seq<(i32, i32)>) -> int {
        min_int(min_int(max_row(vs, vs.len() as int, 0), self.clip_y1 as int), self.target_height - 1)
    }

    /// What `polyfill` draws.
    pub open spec fn polyfill_points(&self, radius: int, sides: int, vs: Seq<(i32, i32)>) -> Set<(int, int)> {
        if sides < 3 || radius <= 0 {
            Set::empty()
        } else {
            self.rows_fill(vs, self.scan_start(vs), self.scan_end(vs) + 1)
        }
    }

    /// Draws the closed outline through `vertices` (the points of a regular
    /// polygon, first vertex repeated at the end); nothing for fewer than
    /// 3 sides or a non-positive radius.
    pub fn polygon(&mut self, radius: i32, sides: i32, vertices: &Vec<(i32, i32)>, color: u8)
        requires
            old(self).wf(),
        ensures
            final(self).wf(),
            final(self).same_except_screen(old(self)),
            final(self).screen_buffer@ == old(self).draw(
                solid(polygon_points(radius as int, sides as int, vertices@), color),
            ),
    {
        let ghost base = self.screen_buffer@;
        let ghost vs = vertices@;
        proof {
            old(self).lemma_draw_empty(base);
            assert(solid(Set::<(int, int)>::empty(), color) =~= Map::empty());
        }
        if sides < 3 || radius <= 0 || vertices.len() == 0 {
            return ;
        }
        let n = vertices.len();
        let mut i: usize = 1;
        while i < n
            invariant
                self.wf(),
                self.same_except_screen(old(self)),
                base == old(self).screen_buffer@,
                vs == vertices@,
                n == vs.len(),
                1 <= i <= n,
                self.screen_buffer@ == self.draw_over(base, solid(path_points(vs, i as int), color)),
            decreases n - i,
        {
            let p = vertices[i - 1];
            let q = vertices[i];
            self.line_into(
                p.0 as i64,
                p.1 as i64,
                q.0 as i64,
                q.1 as i64,
                color,
                Ghost(base),
                Ghost(path_points(vs, i as int)),
            );
            i = i + 1;
        }
        let last = vertices[n - 1];
        let first = vertices[0];
        self.line_into(
            last.0 as i64,
            last.1 as i64,
            first.0 as i64,
            first.1 as i64,
            color,
            Ghost(base),
            Ghost(path_points(vs, n as int)),
        );
        proof {
            self.lemma_same_view_draw(old(self), base, solid(polygon_points(radius as int, sides as int, vs), color));
        }
    }

    /// The crossings of scanline `y` with the edges of `vertices`.
    fn scan_crossings(vertices: &Vec<(i32, i32)>, y: i32) -> (xs: Vec<i64>)
        ensures
            xs@ == crossings(vertices@, y as int, vertices@.len() as int),
    {
        let n = vertices.len();
        let mut xs: Vec<i64> = Vec::new();
        let mut i: usize = 0;
        while i < n
            invariant
                n == vertices@.len(),
                0 <= i <= n,
                xs@ == crossings(vertices@, y as int, i as int),
            decreases n - i,
        {
            let p1 = vertices[i];
            let p2 = vertices[(i + 1) % n];
            if ((p1.1 <= y && p2.1 > y) || (p2.1 <= y && p1.1 > y)) && p1.1 != p2.1 {
                proof {
                    let u = y - p1.1;
                    let v = p2.0 - p1.0;
                    assert(-0x1_0000_0000_0000_0000 <= u * v <= 0x1_0000_0000_0000_0000) by (nonlinear_arith)
                        requires
                            -0x1_0000_0000 <= u <= 0x1_0000_0000,
                            -0x1_0000_0000 <= v <= 0x1_0000_0000,
                    ;
                }
                let a: i128 = (y as i128 - p1.1 as i128) * (p2.0 as i128 - p1.0 as i128);
                let b: i128 = p2.1 as i128 - p1.1 as i128;
                let ua: u128 = if a < 0 { (-a) as u128 } else { a as u128 };
                let ub: u128 = if b < 0 { (-b) as u128 } else { b as u128 };
                let ghost t: int = if y >= p1.1 { y - p1.1 } else { p1.1 - y };
                let ghost m: int = if p2.0 >= p1.0 { p2.0 - p1.0 } else { p1.0 - p2.0 };
                proof {
                    assert(ua == t * m) by (nonlinear_arith)
                        requires
                            a == (y - p1.1) * (p2.0 - p1.0),
                            ua == (if a < 0 { -(a as int) } else { a as int }),
                            t == (if y >= p1.1 { y - p1.1 } else { p1.1 - y }),
                            m == (if p2.0 >= p1.0 { p2.0 - p1.0 } else { p1.0 - p2.0 }),
                    ;
                    assert(t <= ub);
                    assert(t * m <= ub * m) by (nonlinear_arith)
                        requires
                            0 <= t <= ub,
                            0 <= m,
                    ;
                    lemma_div_is_ordered(t * m, ub * m, ub as int);
                    lemma_div_by_multiple(m, ub as int);
                    assert(ub * m == m * ub) by (nonlinear_arith);
                }
                let q: u128 = ua / ub;
                let signed: i128 = if (a < 0) == (b < 0) { q as i128 } else { -(q as i128) };
                let x: i64 = (p1.0 as i128 + signed) as i64;
                xs.push(x);
            }
            i = i + 1;
        }
        xs
    }

    /// Sorts crossings in increasing order.
    fn sort_crossings(xs: Vec<i64>) -> (r: Vec<i64>)
        ensures
            r@ == xs@.sort_by(le_i64()),
    {
        let mut r: Vec<i64> = Vec::new();
        let mut i: usize = 0;
        assert(r@ =~= xs@.take(0));
        while i < xs.len()
            invariant
                0 <= i <= xs.len(),
                sorted_by(r@, le_i64()),
                r@.to_multiset() == xs@.take(i as int).to_multiset(),
            decreases xs.len() - i,
        {
            let e = xs[i];
            let mut j: usize = 0;
            while j < r.len() && r[j] <= e
                invariant
                    0 <= j <= r.len(),
                    forall|k: int| 0 <= k < j ==> r@[k] <= e,
                decreases r.len() - j,
            {
                j = j + 1;
            }
            let ghost old_r = r@;
            r.insert(j, e);
            proof {
                assert(forall|k: int| j <= k < old_r.len() ==> old_r[k] > e) by {
                    assert forall|k: int| j <= k < old_r.len() implies old_r[k] > e by {
                        if j < old_r.len() {
                            assert(le_i64()(old_r[j as int], old_r[k]));
                        }
                    }
                }
                assert forall|a: int, b: int| 0 <= a < b < r@.len() implies #[trigger] le_i64()(r@[a], r@[b]) by {
                    if a < j && b < j {
                        assert(le_i64()(old_r[a], old_r[b]));
                    } else if a < j && b > j {
                        assert(le_i64()(old_r[a], old_r[b - 1]));
                    } else if a > j {
                        assert(le_i64()(old_r[a - 1], old_r[b - 1]));
                    }
                }
                assert(xs@.take(i + 1) =~= xs@.take(i as int).push(e));
            }
            i = i + 1;
        }
        proof {
            assert(xs@.take(xs@.len() as int) =~= xs@);
            lemma_le_i64_total();
            xs@.lemma_sort_by_ensures(le_i64());
            vstd::seq_lib::lemma_sorted_unique(r@, xs@.sort_by(le_i64()), le_i64());
        }
        r
    }

    /// Fills the polygon through `vertices` (the points of a regular
    /// polygon) by horizontal scanlines; nothing for fewer than 3 sides or
    /// a non-positive radius.
    pub fn polyfill(&mut self, radius: i32, sides: i32, vertices: &Vec<(i32, i32)>, color: u8)
        requires
            old(self).wf(),
        ensures
            final(self).wf(),
            final(self).same_except_screen(old(self)),
            final(self).screen_buffer@ == old(self).draw(
                solid(old(self).polyfill_points(radius as int, sides as int, vertices@), color),
            ),
    {
        let ghost base = self.screen_buffer@;
        let ghost vs = vertices@;
        proof {
            old(self).lemma_draw_empty(base);
            assert(solid(Set::<(int, int)>::empty(), color) =~= Map::empty());
        }
        if sides < 3 || radius <= 0 {
            return ;
        }
        let n = vertices.len();
        let mut min_y = self.target_height;
        let mut max_y: i32 = 0;
        let mut i: usize = 0;
        while i < n
            invariant
                n == vs.len(),
                vs == vertices@,
                0 <= i <= n,
                min_y == min_row(vs, i as int, old(self).target_height as int),
                max_y == max_row(vs, i as int, 0),
            decreases n - i,
        {
            let y = vertices[i].1;
            if y < min_y {
                min_y = y;
            }
            if y > max_y {
                max_y = y;
            }
            i = i + 1;
        }
        let mut scan_start = if min_y > self.clip_y0 { min_y } else { self.clip_y0 };
        if scan_start < 0 {
            scan_start = 0;
        }
        let mut scan_end = if max_y < self.clip_y1 { max_y } else { self.clip_y1 };
        if scan_end > self.target_height - 1 {
            scan_end = self.target_height - 1;
        }
        let ghost goal_pts = old(self).polyfill_points(radius as int, sides as int, vs);
        if scan_start > scan_end {
            proof {
                assert(goal_pts =~= Set::empty());
            }
            return ;
        }
        let mut y = scan_start;
        while y <= scan_end
            invariant
                self.wf(),
                self.same_except_screen(old(self)),
                base == old(self).screen_buffer@,
                vs == vertices@,
                scan_start == old(self).scan_start(vs),
                scan_end == old(self).scan_end(vs),
                0 <= scan_start <= y <= scan_end + 1,
                scan_end < self.target_height,
                self.screen_buffer@ == self.draw_over(
                    base,
                    solid(old(self).rows_fill(vs, scan_start as int, y as int), color),
                ),
            decreases scan_end + 1 - y,
        {
            let xs = Self::scan_crossings(vertices, y);
            let sorted = Self::sort_crossings(xs);
            let ghost row_done = old(self).rows_fill(vs, scan_start as int, y as int);
            let len = sorted.len();
            let pairs = len / 2;
            let mut k: usize = 0;
            while k < pairs
                invariant
                    self.wf(),
                    self.same_except_screen(old(self)),
                    base == old(self).screen_buffer@,
                    len == sorted@.len(),
                    pairs == len / 2,
                    sorted@ == crossings(vs, y as int, vs.len() as int).sort_by(le_i64()),
                    0 <= k <= pairs,
                    0 <= y < self.target_height,
                    self.screen_buffer@ == self.draw_over(
                        base,
                        solid(row_done.union(old(self).pair_runs(sorted@, y as int, k as int)), color),
                    ),
                decreases pairs - k,
            {
                assert(2 * k + 1 < sorted@.len());
                let a = sorted[2 * k];
                let b = sorted[2 * k + 1];
                let mut x0 = if a > self.clip_x0 as i64 { a } else { self.clip_x0 as i64 };
                if x0 < 0 {
                    x0 = 0;
                }
                let mut x1 = if b < self.clip_x1 as i64 { b } else { self.clip_x1 as i64 };
                if x1 > self.target_width as i64 - 1 {
                    x1 = self.target_width as i64 - 1;
                }
                let ghost done = row_done.union(old(self).pair_runs(sorted@, y as int, k as int));
                if x0 <= x1 {
                    proof {
                        lemma_line_horizontal(x0 as int, x1 as int, y as int);
                    }
                    self.line_into(x0, y as i64, x1, y as i64, color, Ghost(base), Ghost(done));
                    proof {
                        assert(done.union(hrun(x0 as int, x1 as int, y as int)) =~= row_done.union(
                            old(self).pair_runs(sorted@, y as int, k + 1),
                        ));
                    }
                } else {
                    proof {
                        assert(done =~= row_done.union(old(self).pair_runs(sorted@, y as int, k + 1)));
                    }
                }
                k = k + 1;
            }
            proof {
                assert(row_done.union(old(self).pair_runs(sorted@, y as int, pairs as int)) =~= old(
                    self,
                ).rows_fill(vs, scan_start as int, y + 1));
            }
            y = y + 1;
        }
        proof {
            self.lemma_same_view_draw(old(self), base, solid(goal_pts, color));
        }
    }
}

} // verus!
