use vstd::prelude::*;
use std::collections::VecDeque;
use crate::vm::api::{
    BackendState, Brush, solid, box_points, box_border, text_points, sprite_brush, line_points, map_cell, map_after_set,
};
use crate::renderer::numfmt::{padded, push_padded, decimal, decimal_chars, lemma_decimal_len};
use crate::cart::text::push_chars;

verus! {

broadcast use vstd::seq_lib::to_multiset_update, vstd::multiset::group_multiset_axioms;

/// The in-engine sprite editor.
pub struct SpriteEditor {
    pub selected_sprite_id: u32,
    /// 0 is the pen, 1 the paint bucket.
    pub current_tool: u8,
}

/// A pixel position lies on the 256 x 256 sheet.
pub open spec fn on_sheet(p: (int, int)) -> bool {
    0 <= p.0 < 256 && 0 <= p.1 < 256
}

/// The sheet index of a pixel position.
pub open spec fn sheet_index(p: (int, int)) -> int {
    p.1 * 256 + p.0
}

/// The pixel position of a sheet index.
pub open spec fn sheet_pos(i: int) -> (int, int) {
    (i % 256, i / 256)
}

/// The positions the flood fill queues after recolouring `c`, in order,
/// for the sprite whose top-left sheet corner is `(ox, oy)`: its left,
/// right, upper and lower neighbours, each only where it stays inside the
/// sprite's 8 x 8 block.
pub open spec fn fill_neighbors(ox: int, oy: int, c: (int, int)) -> Seq<(int, int)> {
    let cx = c.0;
    let cy = c.1;
    (if cx > ox {
        seq![(cx - 1, cy)]
    } else {
        Seq::empty()
    }) + (if cx < ox + 7 {
        seq![(cx + 1, cy)]
    } else {
        Seq::empty()
    }) + (if cy > oy {
        seq![(cx, cy - 1)]
    } else {
        Seq::empty()
    }) + (if cy < oy + 7 {
        seq![(cx, cy + 1)]
    } else {
        Seq::empty()
    })
}

/// `path` walks through pixels of colour `target`, each step going to one
/// of the queued neighbours of the previous pixel.
pub open spec fn fill_path(sheet: Seq<u8>, target: u8, ox: int, oy: int, path: Seq<(int, int)>) -> bool {
    &&& path.len() > 0
    &&& forall|i: int| 0 <= i < path.len() ==> on_sheet(#[trigger] path[i]) && sheet[sheet_index(path[i])] == target
    &&& forall|i: int| 0 <= i < path.len() - 1 ==> fill_neighbors(ox, oy, #[trigger] path[i]).contains(path[i + 1])
}

/// `p` lies in the 8 x 8 block whose top-left corner is `(ox, oy)`.
pub open spec fn in_block(ox: int, oy: int, p: (int, int)) -> bool {
    ox <= p.0 < ox + 8 && oy <= p.1 < oy + 8
}

/// Pixel `p` is reached from `start` through pixels of colour `target`:
/// it lies in the 4-connected component of `start` among the
/// `target`-coloured pixels of the block.
pub open spec fn fill_reaches(sheet: Seq<u8>, target: u8, ox: int, oy: int, start: (int, int), p: (int, int)) -> bool {
    exists|path: Seq<(int, int)>| #[trigger]
        fill_path(sheet, target, ox, oy, path) && path[0] == start && path.last() == p
}

/// The sheet the bucket tool leaves: every pixel reached from the start
/// through `target`-coloured pixels takes `replacement`; a fill whose two
/// colours agree changes nothing.
pub open spec fn flood_result(
    sheet: Seq<u8>,
    ox: int,
    oy: int,
    start: (int, int),
    target: u8,
    replacement: u8,
) -> Seq<u8> {
    if target == replacement {
        sheet
    } else {
        Seq::new(
            sheet.len(),
            |i: int|
                if fill_reaches(sheet, target, ox, oy, start, sheet_pos(i)) {
                    replacement
                } else {
                    sheet[i]
                },
        )
    }
}

/// The position a queued pair names.
pub open spec fn qpos(e: (u32, u32)) -> (int, int) {
    (e.0 as int, e.1 as int)
}

/// Position `p` waits in the queue.
pub open spec fn queued(q: Seq<(u32, u32)>, p: (int, int)) -> bool {
    exists|k: int| 0 <= k < q.len() && #[trigger] qpos(q[k]) == p
}

proof fn lemma_neighbors_on_sheet(ox: int, oy: int, p: (int, int))
    requires
        on_sheet(p),
        0 <= ox <= 120,
        0 <= oy <= 248,
    ensures
        forall|j: int| 0 <= j < fill_neighbors(ox, oy, p).len() ==> on_sheet(#[trigger] fill_neighbors(ox, oy, p)[j]),
{
}

/// A position queued behind the front is still queued once the front is
/// taken off and more positions are added behind.
proof fn lemma_queued_after(q0: Seq<(u32, u32)>, q2: Seq<(u32, u32)>, x: (int, int))
    requires
        queued(q0, x),
        qpos(q0[0]) != x,
        q0.len() > 0,
        q2.len() >= q0.len() - 1,
        forall|k: int| 0 <= k < q0.len() - 1 ==> #[trigger] q2[k] == q0[k + 1],
    ensures
        queued(q2, x),
{
    let k = choose|k: int| 0 <= k < q0.len() && #[trigger] qpos(q0[k]) == x;
    assert(k > 0);
    assert(q2[k - 1] == q0[k]);
    assert(qpos(q2[k - 1]) == x);
}

proof fn lemma_pos_index(p: (int, int))
    requires
        on_sheet(p),
    ensures
        0 <= sheet_index(p) < 65536,
        sheet_pos(sheet_index(p)) == p,
{
    vstd::arithmetic::div_mod::lemma_fundamental_div_mod_converse(sheet_index(p), 256, p.1, p.0);
}

proof fn lemma_index_pos(i: int)
    requires
        0 <= i < 65536,
    ensures
        on_sheet(sheet_pos(i)),
        sheet_index(sheet_pos(i)) == i,
{
}

/// Each position the fill queues from a pixel of the block is one of its
/// four direct neighbours (one step left, right, up or down), inside the
/// block.
pub proof fn lemma_fill_steps(ox: int, oy: int, p: (int, int), j: int)
    requires
        in_block(ox, oy, p),
        0 <= j < fill_neighbors(ox, oy, p).len(),
    ensures
        ({
            let q = fill_neighbors(ox, oy, p)[j];
            &&& in_block(ox, oy, q)
            &&& q == (p.0 - 1, p.1) || q == (p.0 + 1, p.1) || q == (p.0, p.1 - 1) || q == (p.0, p.1 + 1)
        }),
{
}

/// The fill is closed under 4-connectivity: a `target`-coloured direct
/// neighbour, inside the block, of a reached pixel is reached too.
pub proof fn lemma_fill_four_connected(
    sheet: Seq<u8>,
    target: u8,
    ox: int,
    oy: int,
    start: (int, int),
    p: (int, int),
    q: (int, int),
)
    requires
        0 <= ox,
        ox + 8 <= 256,
        0 <= oy,
        oy + 8 <= 256,
        in_block(ox, oy, start),
        fill_reaches(sheet, target, ox, oy, start, p),
        in_block(ox, oy, q),
        sheet[sheet_index(q)] == target,
        q == (p.0 - 1, p.1) || q == (p.0 + 1, p.1) || q == (p.0, p.1 - 1) || q == (p.0, p.1 + 1),
    ensures
        fill_reaches(sheet, target, ox, oy, start, q),
{
    lemma_reach_in_block(sheet, target, ox, oy, start, p);
    let path = choose|path: Seq<(int, int)>| #[trigger]
        fill_path(sheet, target, ox, oy, path) && path[0] == start && path.last() == p;
    let path2 = path.push(q);
    assert(fill_neighbors(ox, oy, p).contains(q)) by {
        let nb = fill_neighbors(ox, oy, p);
        if q == (p.0 - 1, p.1) {
            assert(nb[0] == q);
        } else if q == (p.0 + 1, p.1) {
            let k = if p.0 > ox { 1int } else { 0int };
            assert(nb[k] == q);
        } else if q == (p.0, p.1 - 1) {
            let k = (if p.0 > ox { 1int } else { 0int }) + (if p.0 < ox + 7 { 1int } else { 0int });
            assert(nb[k] == q);
        } else {
            let k = (if p.0 > ox { 1int } else { 0int }) + (if p.0 < ox + 7 { 1int } else { 0int }) + (if p.1 > oy {
                1int
            } else {
                0int
            });
            assert(nb[k] == q);
        }
    }
    assert forall|i: int| 0 <= i < path2.len() - 1 implies fill_neighbors(ox, oy, #[trigger] path2[i]).contains(
        path2[i + 1],
    ) by {
        if i < path.len() - 1 {
            assert(path2[i] == path[i] && path2[i + 1] == path[i + 1]);
        } else {
            assert(path2[i] == p && path2[i + 1] == q);
        }
    }
    assert forall|i: int| 0 <= i < path2.len() implies on_sheet(#[trigger] path2[i]) && sheet[sheet_index(path2[i])]
        == target by {
        if i < path.len() {
            assert(path2[i] == path[i]);
        }
    }
    assert(fill_path(sheet, target, ox, oy, path2));
    assert(path2[0] == start && path2.last() == q);
}

/// A fill path from a pixel of the block stays in the block.
proof fn lemma_path_in_block(sheet: Seq<u8>, target: u8, ox: int, oy: int, path: Seq<(int, int)>, k: int)
    requires
        fill_path(sheet, target, ox, oy, path),
        in_block(ox, oy, path[0]),
        0 <= k < path.len(),
    ensures
        in_block(ox, oy, path[k]),
    decreases k,
{
    if k > 0 {
        lemma_path_in_block(sheet, target, ox, oy, path, k - 1);
        assert(fill_neighbors(ox, oy, path[k - 1]).contains(path[k]));
    }
}

/// The fill reaches only pixels of the block it starts in.
pub proof fn lemma_reach_in_block(sheet: Seq<u8>, target: u8, ox: int, oy: int, start: (int, int), p: (int, int))
    requires
        in_block(ox, oy, start),
        fill_reaches(sheet, target, ox, oy, start, p),
    ensures
        in_block(ox, oy, p),
{
    let path = choose|path: Seq<(int, int)>| #[trigger]
        fill_path(sheet, target, ox, oy, path) && path[0] == start && path.last() == p;
    lemma_path_in_block(sheet, target, ox, oy, path, path.len() - 1);
}

/// Every pixel on a fill path from a recoloured start is recoloured when
/// the recoloured set is closed under steps to `target`-coloured
/// neighbours.
proof fn lemma_closed_reaches(
    sheet: Seq<u8>,
    target: u8,
    ox: int,
    oy: int,
    done: Set<(int, int)>,
    path: Seq<(int, int)>,
    k: int,
)
    requires
        fill_path(sheet, target, ox, oy, path),
        done.contains(path[0]),
        0 <= k < path.len(),
        forall|p: (int, int), j: int|
            #![trigger done.contains(p), fill_neighbors(ox, oy, p)[j]]
            done.contains(p) && 0 <= j < fill_neighbors(ox, oy, p).len() && on_sheet(fill_neighbors(ox, oy, p)[j])
                && sheet[sheet_index(fill_neighbors(ox, oy, p)[j])] == target ==> done.contains(
                fill_neighbors(ox, oy, p)[j],
            ),
    ensures
        done.contains(path[k]),
    decreases k,
{
    if k > 0 {
        lemma_closed_reaches(sheet, target, ox, oy, done, path, k - 1);
        let p = path[k - 1];
        assert(fill_neighbors(ox, oy, path[k - 1]).contains(path[k]));
        let j = choose|j: int| 0 <= j < fill_neighbors(ox, oy, p).len() && fill_neighbors(ox, oy, p)[j] == path[k];
        assert(on_sheet(path[k]));
    }
}

/// What the flood fill keeps true between two steps: the sheet is the
/// starting sheet with the recoloured set `done` painted over; every recoloured
/// pixel was `target`-coloured and is reached along `paths`; every queued
/// position is the start or a neighbour of a recoloured pixel; every
/// neighbour of a recoloured pixel is recoloured, queued, off the sheet or
/// not `target`-coloured; and so is the start.
#[verifier::opaque]
pub open spec fn fill_inv(
    sheet: Seq<u8>,
    orig: Seq<u8>,
    queue: Seq<(u32, u32)>,
    done: Set<(int, int)>,
    paths: Map<(int, int), Seq<(int, int)>>,
    ox: int,
    oy: int,
    start: (int, int),
    target: u8,
    repl: u8,
) -> bool {
    &&& sheet.len() == 65536
    &&& orig.len() == 65536
    &&& target != repl
    &&& 0 <= ox <= 120
    &&& 0 <= oy <= 248
    &&& on_sheet(start)
    &&& forall|i: int| 0 <= i < queue.len() ==> on_sheet(#[trigger] qpos(queue[i]))
    &&& forall|i: int|
        0 <= i < 65536 ==> #[trigger] sheet[i] == if done.contains(sheet_pos(i)) {
            repl
        } else {
            orig[i]
        }
    &&& forall|p: (int, int)| #[trigger] done.contains(p) ==> on_sheet(p) && orig[sheet_index(p)] == target
    &&& forall|p: (int, int)|
        #[trigger] done.contains(p) ==> paths.dom().contains(p) && fill_path(orig, target, ox, oy, paths[p])
            && paths[p][0] == start && paths[p].last() == p
    &&& forall|i: int|
        0 <= i < queue.len() ==> #[trigger] qpos(queue[i]) == start || exists|p: (int, int)|
            #[trigger] done.contains(p) && fill_neighbors(ox, oy, p).contains(qpos(queue[i]))
    &&& forall|p: (int, int), j: int|
        #![trigger done.contains(p), fill_neighbors(ox, oy, p)[j]]
        done.contains(p) && 0 <= j < fill_neighbors(ox, oy, p).len() ==> {
            let q = fill_neighbors(ox, oy, p)[j];
            done.contains(q) || queued(queue, q) || !on_sheet(q) || orig[sheet_index(q)] != target
        }
    &&& done.contains(start) || queued(queue, start) || orig[sheet_index(start)] != target
}

proof fn lemma_fill_init(orig: Seq<u8>, queue: Seq<(u32, u32)>, ox: int, oy: int, start: (int, int), target: u8, repl: u8)
    requires
        orig.len() == 65536,
        target != repl,
        0 <= ox <= 120,
        0 <= oy <= 248,
        on_sheet(start),
        queue.len() == 1,
        qpos(queue[0]) == start,
    ensures
        fill_inv(orig, orig, queue, Set::empty(), Map::empty(), ox, oy, start, target, repl),
{
    reveal(fill_inv);
    assert(qpos(queue[0]) == start);
}

/// The front of the queue is a pixel the fill has recoloured already or
/// that is not `target`-coloured: it is dropped.
proof fn lemma_fill_skip(
    sheet: Seq<u8>,
    orig: Seq<u8>,
    q0: Seq<(u32, u32)>,
    done: Set<(int, int)>,
    paths: Map<(int, int), Seq<(int, int)>>,
    ox: int,
    oy: int,
    start: (int, int),
    target: u8,
    repl: u8,
)
    requires
        fill_inv(sheet, orig, q0, done, paths, ox, oy, start, target, repl),
        q0.len() > 0,
        on_sheet(qpos(q0[0])),
        sheet[sheet_index(qpos(q0[0]))] != target,
    ensures
        fill_inv(sheet, orig, q0.drop_first(), done, paths, ox, oy, start, target, repl),
{
    reveal(fill_inv);
    let p = qpos(q0[0]);
    let q1 = q0.drop_first();
    lemma_pos_index(p);
    assert(sheet[sheet_index(p)] == if done.contains(sheet_pos(sheet_index(p))) { repl } else { orig[sheet_index(p)] });
    assert(!done.contains(p) ==> orig[sheet_index(p)] != target);
    assert forall|i: int| 0 <= i < q1.len() implies on_sheet(#[trigger] qpos(q1[i])) by {
        assert(q1[i] == q0[i + 1]);
    }
    assert forall|i: int|
        0 <= i < q1.len() implies #[trigger] qpos(q1[i]) == start || exists|d: (int, int)|
            #[trigger] done.contains(d) && fill_neighbors(ox, oy, d).contains(qpos(q1[i])) by {
        assert(q1[i] == q0[i + 1]);
        assert(qpos(q0[i + 1]) == qpos(q1[i]));
    }
    assert forall|d: (int, int), j: int|
        done.contains(d) && 0 <= j < fill_neighbors(ox, oy, d).len() implies {
            let q = #[trigger] fill_neighbors(ox, oy, d)[j];
            done.contains(q) || queued(q1, q) || !on_sheet(q) || orig[sheet_index(q)] != target
        } by {
        let q = fill_neighbors(ox, oy, d)[j];
        if queued(q0, q) && q != p {
            lemma_queued_after(q0, q1, q);
        }
    }
    if queued(q0, start) && start != p {
        lemma_queued_after(q0, q1, start);
    }
}

/// The front of the queue is a `target`-coloured pixel: it is recoloured
/// and its neighbours are queued behind the rest.
proof fn lemma_fill_recolor(
    sheet: Seq<u8>,
    orig: Seq<u8>,
    q0: Seq<(u32, u32)>,
    q2: Seq<(u32, u32)>,
    done: Set<(int, int)>,
    paths: Map<(int, int), Seq<(int, int)>>,
    ox: int,
    oy: int,
    start: (int, int),
    target: u8,
    repl: u8,
) -> (r: (Set<(int, int)>, Map<(int, int), Seq<(int, int)>>))
    requires
        fill_inv(sheet, orig, q0, done, paths, ox, oy, start, target, repl),
        q0.len() > 0,
        on_sheet(qpos(q0[0])),
        sheet[sheet_index(qpos(q0[0]))] == target,
        q2.len() == q0.len() - 1 + fill_neighbors(ox, oy, qpos(q0[0])).len(),
        forall|k: int| 0 <= k < q0.len() - 1 ==> #[trigger] q2[k] == q0[k + 1],
        forall|j: int|
            0 <= j < fill_neighbors(ox, oy, qpos(q0[0])).len() ==> #[trigger] qpos(q2[q0.len() - 1 + j])
                == fill_neighbors(ox, oy, qpos(q0[0]))[j],
    ensures
        r.0 == done.insert(qpos(q0[0])),
        fill_inv(
            sheet.update(sheet_index(qpos(q0[0])), repl),
            orig,
            q2,
            r.0,
            r.1,
            ox,
            oy,
            start,
            target,
            repl,
        ),
{
    reveal(fill_inv);
    let p = qpos(q0[0]);
    let idx = sheet_index(p);
    lemma_pos_index(p);
    assert(sheet[idx] == if done.contains(sheet_pos(idx)) { repl } else { orig[idx] });
    assert(!done.contains(p));
    let path = if p == start {
        seq![start]
    } else {
        let d = choose|d: (int, int)| #[trigger] done.contains(d) && fill_neighbors(ox, oy, d).contains(p);
        paths[d].push(p)
    };
    if p != start {
        assert(q0[0] == q0[0]);
        let d = choose|d: (int, int)| #[trigger] done.contains(d) && fill_neighbors(ox, oy, d).contains(p);
        let pd = paths[d];
        assert forall|i: int| 0 <= i < path.len() - 1 implies fill_neighbors(ox, oy, #[trigger] path[i]).contains(path[i + 1]) by {
            if i < pd.len() - 1 {
                assert(path[i] == pd[i] && path[i + 1] == pd[i + 1]);
            } else {
                assert(path[i] == d);
            }
        }
        assert forall|i: int| 0 <= i < path.len() implies on_sheet(#[trigger] path[i]) && orig[sheet_index(path[i])] == target by {
            if i < pd.len() {
                assert(path[i] == pd[i]);
            }
        }
    }
    assert(fill_path(orig, target, ox, oy, path));
    let done2 = done.insert(p);
    let paths2 = paths.insert(p, path);
    let sheet2 = sheet.update(idx, repl);
    let nb = fill_neighbors(ox, oy, p);
    let n1 = q0.len() - 1;
    lemma_neighbors_on_sheet(ox, oy, p);
    assert forall|i: int| 0 <= i < q2.len() implies on_sheet(#[trigger] qpos(q2[i])) by {
        if i < n1 {
            assert(q2[i] == q0[i + 1]);
        } else {
            assert(qpos(q2[n1 + (i - n1)]) == nb[i - n1]);
        }
    }
    assert forall|i: int| 0 <= i < 65536 implies #[trigger] sheet2[i] == if done2.contains(sheet_pos(i)) {
        repl
    } else {
        orig[i]
    } by {
        lemma_index_pos(i);
        if i != idx {
            assert(sheet_pos(i) != p);
        }
    }
    assert forall|i: int|
        0 <= i < q2.len() implies #[trigger] qpos(q2[i]) == start || exists|d: (int, int)|
            #[trigger] done2.contains(d) && fill_neighbors(ox, oy, d).contains(qpos(q2[i])) by {
        if i < n1 {
            assert(q2[i] == q0[i + 1]);
            assert(qpos(q0[i + 1]) == qpos(q2[i]));
            if qpos(q2[i]) != start {
                let d = choose|d: (int, int)| #[trigger] done.contains(d) && fill_neighbors(ox, oy, d).contains(qpos(q0[i + 1]));
                assert(done2.contains(d) && fill_neighbors(ox, oy, d).contains(qpos(q2[i])));
            }
        } else {
            let j = i - n1;
            assert(qpos(q2[n1 + j]) == nb[j]);
            assert(nb.contains(qpos(q2[i])));
            assert(done2.contains(p) && fill_neighbors(ox, oy, p).contains(qpos(q2[i])));
        }
    }
    assert forall|d: (int, int), j: int|
        done2.contains(d) && 0 <= j < fill_neighbors(ox, oy, d).len() implies {
            let q = #[trigger] fill_neighbors(ox, oy, d)[j];
            done2.contains(q) || queued(q2, q) || !on_sheet(q) || orig[sheet_index(q)] != target
        } by {
        let q = fill_neighbors(ox, oy, d)[j];
        if d == p {
            assert(qpos(q2[n1 + j]) == q);
        } else if queued(q0, q) && q != p {
            lemma_queued_after(q0, q2, q);
        }
    }
    if queued(q0, start) && start != p {
        lemma_queued_after(q0, q2, start);
    }
    (done2, paths2)
}

/// Once the queue is empty the sheet is the fill's result.
proof fn lemma_fill_finish(
    sheet: Seq<u8>,
    orig: Seq<u8>,
    q: Seq<(u32, u32)>,
    done: Set<(int, int)>,
    paths: Map<(int, int), Seq<(int, int)>>,
    ox: int,
    oy: int,
    start: (int, int),
    target: u8,
    repl: u8,
)
    requires
        fill_inv(sheet, orig, q, done, paths, ox, oy, start, target, repl),
        q.len() == 0,
    ensures
        sheet == flood_result(orig, ox, oy, start, target, repl),
{
    reveal(fill_inv);
    let goal = flood_result(orig, ox, oy, start, target, repl);
    assert forall|i: int| 0 <= i < 65536 implies #[trigger] sheet[i] == goal[i] by {
        lemma_index_pos(i);
        let p = sheet_pos(i);
        if done.contains(p) {
            assert(fill_path(orig, target, ox, oy, paths[p]) && paths[p][0] == start && paths[p].last() == p);
            assert(fill_reaches(orig, target, ox, oy, start, p));
        } else if fill_reaches(orig, target, ox, oy, start, p) {
            let path = choose|path: Seq<(int, int)>| #[trigger]
                fill_path(orig, target, ox, oy, path) && path[0] == start && path.last() == p;
            assert(on_sheet(path[0]) && orig[sheet_index(path[0])] == target);
            lemma_closed_reaches(orig, target, ox, oy, done, path, path.len() - 1);
        }
    }
    assert(sheet =~= goal);
}

/// Recolouring a `target` pixel lowers the number of `target` pixels.
proof fn lemma_count_drops(sheet: Seq<u8>, i: int, target: u8, repl: u8)
    requires
        0 <= i < sheet.len(),
        sheet[i] == target,
        target != repl,
    ensures
        sheet.update(i, repl).to_multiset().count(target) < sheet.to_multiset().count(target),
{
    vstd::seq_lib::to_multiset_contains(sheet, target);
    assert(sheet.contains(target)) by {
        assert(sheet[i] == target);
    }
}

/// Drawing one brush after the ones drawn so far (by a state with the same
/// drawing registers) is drawing their union.
pub proof fn lemma_chain(s0: BackendState, base: Seq<u8>, acc: Brush, cur: BackendState, next: Seq<u8>, b: Brush)
    requires
        cur.same_view(&s0),
        cur.screen_buffer@ == s0.draw_over(base, acc),
        next == cur.draw(b),
    ensures
        next == s0.draw_over(base, acc.union_prefer_right(b)),
{
    cur.lemma_same_view_draw(&s0, cur.screen_buffer@, b);
    s0.lemma_draw_compose(base, acc, b);
}

/// A brush of one point.
pub proof fn lemma_point_brush(p: (int, int), c: u8)
    ensures
        map![p => c] == solid(set![p], c),
{
    assert(map![p => c] =~= solid(set![p], c));
}

/// The sprite-editor canvas: one 8 x 8 block per pixel of the edited
/// sprite, filled with the pixel's colour and outlined in colour 1, for
/// pixels `0 .. k` in row-major order.
pub open spec fn canvas_brush(sheet: Seq<u8>, sx: int, sy: int, k: int) -> Brush
    decreases k,
{
    if k <= 0 {
        Map::empty()
    } else {
        let px = (k - 1) % 8;
        let py = (k - 1) / 8;
        let bx0 = 8 + px * 8;
        let by0 = 16 + py * 8;
        canvas_brush(sheet, sx, sy, k - 1).union_prefer_right(
            solid(box_points(bx0, by0, bx0 + 7, by0 + 7), sheet[(sy + py) * 256 + sx + px]),
        ).union_prefer_right(solid(box_border(bx0, by0, bx0 + 7, by0 + 7), 1))
    }
}

/// The swatch of colour `c` in the editor palette, outlined in white when
/// it is the current colour.
pub open spec fn swatch_brush(c: int, current: u8) -> Brush {
    let cx = 80 + (c % 4) * 10;
    let cy = 16 + (c / 4) * 10;
    let fill = solid(box_points(cx, cy, cx + 8, cy + 8), c as u8);
    if current == c {
        fill.union_prefer_right(solid(box_border(cx - 1, cy - 1, cx + 9, cy + 9), 7))
    } else {
        fill
    }
}

/// The palette swatches `0 .. k`.
pub open spec fn palette_brush(current: u8, k: int) -> Brush
    decreases k,
{
    if k <= 0 {
        Map::empty()
    } else {
        palette_brush(current, k - 1).union_prefer_right(swatch_brush(k - 1, current))
    }
}

/// The header text of the sprite editor.
pub open spec fn sprite_status(id: u32) -> Seq<char> {
    "SPRITE EDITOR - ID:"@ + padded(id as int, 3)
}

/// The tool buttons: the active one highlighted.
pub open spec fn tools_brush(tool: u8) -> Brush {
    solid(box_points(80, 62, 98, 72), if tool == 0 { 11u8 } else { 0u8 }).union_prefer_right(
        solid(text_points("PEN"@, 83, 65), if tool == 0 { 0u8 } else { 7u8 }),
    ).union_prefer_right(solid(box_points(102, 62, 120, 72), if tool == 1 { 11u8 } else { 0u8 })).union_prefer_right(
        solid(text_points("BKT"@, 105, 65), if tool == 1 { 0u8 } else { 7u8 }),
    )
}

/// The cross-shaped mouse cursor, in colour 0 over white and 7 otherwise,
/// drawn only while the mouse is on the screen.
pub open spec fn cursor_brush(mx: int, my: int, w: int, h: int, current: u8) -> Brush {
    let c: u8 = if current == 7 { 0 } else { 7 };
    if 0 <= mx < w && 0 <= my < h {
        solid(set![(mx, my), (mx - 1, my), (mx + 1, my), (mx, my - 1), (mx, my + 1)], c)
    } else {
        Map::empty()
    }
}

/// Whether the mouse is over the 64 x 64 drawing canvas.
pub open spec fn on_canvas(mx: int, my: int) -> bool {
    8 <= mx < 72 && 16 <= my < 80
}

/// Whether the mouse is over the 40 x 40 palette.
pub open spec fn on_palette(mx: int, my: int) -> bool {
    80 <= mx < 120 && 16 <= my < 56
}

/// The sheet position under the mouse on the canvas.
pub open spec fn canvas_target(id: u32, mx: int, my: int) -> (int, int) {
    ((id % 16) * 8 + (mx - 8) / 8, (id / 16) * 8 + (my - 16) / 8)
}

/// The sheet after a click: the pen sets the pixel under the mouse to the
/// current colour, the bucket flood-fills from it.
pub open spec fn clicked_sheet(ed: SpriteEditor, s: BackendState) -> Seq<u8> {
    let mx = s.mouse_x as int;
    let my = s.mouse_y as int;
    let t = canvas_target(ed.selected_sprite_id, mx, my);
    if s.mouse_left_clicked && on_canvas(mx, my) {
        if ed.current_tool == 0 {
            s.sprite_sheet@.update(t.1 * 256 + t.0, s.current_color)
        } else if ed.current_tool == 1 {
            flood_result(
                s.sprite_sheet@,
                (ed.selected_sprite_id % 16) * 8,
                (ed.selected_sprite_id / 16) * 8,
                t,
                s.sprite_sheet@[t.1 * 256 + t.0],
                s.current_color,
            )
        } else {
            s.sprite_sheet@
        }
    } else {
        s.sprite_sheet@
    }
}

/// The current colour after a click: a click on the palette picks the
/// swatch under the mouse.
pub open spec fn clicked_color(s: BackendState) -> u8 {
    let mx = s.mouse_x as int;
    let my = s.mouse_y as int;
    if s.mouse_left_clicked && on_palette(mx, my) {
        ((mx - 80) / 10 + ((my - 16) / 10) * 4) as u8
    } else {
        s.current_color
    }
}

/// The tool after a click: a click on a tool button selects it.
pub open spec fn clicked_tool(ed: SpriteEditor, s: BackendState) -> u8 {
    let mx = s.mouse_x as int;
    let my = s.mouse_y as int;
    if s.mouse_left_clicked && 62 <= my <= 72 {
        if 102 <= mx <= 120 {
            1
        } else if 80 <= mx <= 98 {
            0
        } else {
            ed.current_tool
        }
    } else {
        ed.current_tool
    }
}

/// The editor's canvas shows sprite pixel `(i, j)` as the 8 x 8 block at
/// screen `(8 + 8i, 16 + 8j)`: a pen click anywhere in that block sets
/// sheet pixel `(8 * (id % 16) + i, 8 * (id / 16) + j)` to the current
/// colour and nothing else; a bucket click fills from that pixel.
pub proof fn lemma_canvas_click(ed: SpriteEditor, s: BackendState, i: int, j: int)
    requires
        0 <= i < 8,
        0 <= j < 8,
        s.mouse_left_clicked,
        8 + 8 * i <= s.mouse_x < 16 + 8 * i,
        16 + 8 * j <= s.mouse_y < 24 + 8 * j,
    ensures
        ({
            let px = 8 * (ed.selected_sprite_id % 16) + i;
            let py = 8 * (ed.selected_sprite_id / 16) + j;
            &&& ed.current_tool == 0 ==> clicked_sheet(ed, s) == s.sprite_sheet@.update(py * 256 + px, s.current_color)
            &&& ed.current_tool == 1 ==> clicked_sheet(ed, s) == flood_result(
                s.sprite_sheet@,
                8 * (ed.selected_sprite_id % 16),
                8 * (ed.selected_sprite_id / 16),
                (px, py),
                s.sprite_sheet@[py * 256 + px],
                s.current_color,
            )
        }),
{
    assert((s.mouse_x - 8) / 8 == i);
    assert((s.mouse_y - 16) / 8 == j);
}

/// The palette shows colour `c` as the swatch at screen
/// `(80 + 10 * (c % 4), 16 + 10 * (c / 4))`, four to a row: a click
/// anywhere in its 10 x 10 cell makes `c` the current colour.
pub proof fn lemma_palette_click(s: BackendState, c: int)
    requires
        0 <= c < 16,
        s.mouse_left_clicked,
        80 + 10 * (c % 4) <= s.mouse_x < 90 + 10 * (c % 4),
        16 + 10 * (c / 4) <= s.mouse_y < 26 + 10 * (c / 4),
    ensures
        clicked_color(s) == c,
{
    assert((s.mouse_x - 80) / 10 == c % 4);
    assert((s.mouse_y - 16) / 10 == c / 4);
}

/// Everything one frame of the sprite editor draws, in order: background,
/// header bar and text, canvas frame and blocks, palette, tool buttons and
/// (after the click is handled) the cursor.
pub open spec fn sprite_editor_brush(ed: SpriteEditor, s: BackendState) -> Brush {
    let sx = (ed.selected_sprite_id % 16) * 8;
    let sy = (ed.selected_sprite_id / 16) * 8;
    solid(Set::full(), 5).union_prefer_right(solid(box_points(0, 0, s.target_width - 1, 12), 0)).union_prefer_right(
        solid(text_points(sprite_status(ed.selected_sprite_id), 4, 4), 11),
    ).union_prefer_right(solid(box_border(7, 15, 72, 80), 7)).union_prefer_right(
        canvas_brush(s.sprite_sheet@, sx, sy, 64),
    ).union_prefer_right(palette_brush(s.current_color, 16)).union_prefer_right(
        tools_brush(ed.current_tool),
    ).union_prefer_right(
        cursor_brush(s.mouse_x as int, s.mouse_y as int, s.target_width as int, s.target_height as int, clicked_color(s)),
    )
}

impl SpriteEditor {
    /// A sprite editor on sprite 0 with the pen selected.
    pub fn new() -> (e: Self)
        ensures
            e.selected_sprite_id == 0,
            e.current_tool == 0,
    {
        Self { selected_sprite_id: 0, current_tool: 0 }
    }

    /// The paint bucket: starting at `(start_x, start_y)`, recolours every
    /// pixel of colour `target_color` that the fill reaches, queueing the
    /// neighbours each recoloured pixel names (see `fill_neighbors`).
    pub fn flood_fill(
        &self,
        sprite_sheet: &mut Vec<u8>,
        start_x: u32,
        start_y: u32,
        target_color: u8,
        replacement_color: u8,
    )
        requires
            old(sprite_sheet)@.len() == 65536,
            self.selected_sprite_id < 512,
            in_block(
                (self.selected_sprite_id % 16) * 8,
                (self.selected_sprite_id / 16) * 8,
                (start_x as int, start_y as int),
            ),
        ensures
            final(sprite_sheet)@ == flood_result(
                old(sprite_sheet)@,
                (self.selected_sprite_id % 16) * 8,
                (self.selected_sprite_id / 16) * 8,
                (start_x as int, start_y as int),
                target_color,
                replacement_color,
            ),
            forall|i: int|
                0 <= i < 65536 && !in_block(
                    (self.selected_sprite_id % 16) * 8,
                    (self.selected_sprite_id / 16) * 8,
                    #[trigger] sheet_pos(i),
                ) ==> final(sprite_sheet)@[i] == old(sprite_sheet)@[i],
    {
        proof {
            let ox = (self.selected_sprite_id % 16) * 8;
            let oy = (self.selected_sprite_id / 16) * 8;
            let start = (start_x as int, start_y as int);
            assert forall|i: int|
                0 <= i < 65536 && !in_block(ox, oy, #[trigger] sheet_pos(i)) implies !fill_reaches(
                old(sprite_sheet)@,
                target_color,
                ox,
                oy,
                start,
                sheet_pos(i),
            ) by {
                if fill_reaches(old(sprite_sheet)@, target_color, ox, oy, start, sheet_pos(i)) {
                    lemma_reach_in_block(old(sprite_sheet)@, target_color, ox, oy, start, sheet_pos(i));
                }
            }
        }
        if target_color == replacement_color {
            return ;
        }
        let sheet_base_x = (self.selected_sprite_id % 16) * 8;
        let sheet_base_y = (self.selected_sprite_id / 16) * 8;
        let ghost ox = sheet_base_x as int;
        let ghost oy = sheet_base_y as int;
        let ghost orig = sprite_sheet@;
        let ghost start = (start_x as int, start_y as int);
        let ghost mut done: Set<(int, int)> = Set::empty();
        let ghost mut paths: Map<(int, int), Seq<(int, int)>> = Map::empty();
        let mut queue: VecDeque<(u32, u32)> = VecDeque::new();
        queue.push_back((start_x, start_y));
        proof {
            lemma_fill_init(orig, queue@, ox, oy, start, target_color, replacement_color);
        }
        loop
            invariant_except_break
                ox == sheet_base_x && oy == sheet_base_y,
                sheet_base_x <= 120,
                sheet_base_y <= 248,
                fill_inv(sprite_sheet@, orig, queue@, done, paths, ox, oy, start, target_color, replacement_color),
            ensures
                sprite_sheet@ == flood_result(orig, ox, oy, start, target_color, replacement_color),
            decreases sprite_sheet@.to_multiset().count(target_color), queue@.len(),
        {
            let ghost q0 = queue@;
            let ghost sheet0 = sprite_sheet@;
            proof {
                reveal(fill_inv);
            }
            let front = queue.pop_front();
            match front {
                Some((cx, cy)) => {
                    let ghost p = (cx as int, cy as int);
                    proof {
                        assert(qpos(q0[0]) == p);
                        lemma_pos_index(p);
                    }
                    let idx = (cy * 256 + cx) as usize;
                    if sprite_sheet[idx] == target_color {
                        sprite_sheet.set(idx, replacement_color);
                        let ghost q1 = queue@;
                        if cx > sheet_base_x {
                            queue.push_back((cx - 1, cy));
                        }
                        if cx < sheet_base_x + 7 {
                            queue.push_back((cx + 1, cy));
                        }
                        if cy > sheet_base_y {
                            queue.push_back((cx, cy - 1));
                        }
                        if cy < sheet_base_y + 7 {
                            queue.push_back((cx, cy + 1));
                        }
                        proof {
                            let nb = fill_neighbors(ox, oy, p);
                            assert(queue@.len() == q1.len() + nb.len());
                            assert forall|j: int| 0 <= j < nb.len() implies #[trigger] qpos(queue@[q0.len() - 1 + j]) == nb[j] by {
                            }
                            assert forall|k: int| 0 <= k < q0.len() - 1 implies #[trigger] queue@[k] == q0[k + 1] by {
                                assert(queue@[k] == q1[k]);
                            }
                            let r = lemma_fill_recolor(sheet0, orig, q0, queue@, done, paths, ox, oy, start, target_color, replacement_color);
                            lemma_count_drops(sheet0, idx as int, target_color, replacement_color);
                            done = r.0;
                            paths = r.1;
                        }
                    } else {
                        proof {
                            lemma_fill_skip(sheet0, orig, q0, done, paths, ox, oy, start, target_color, replacement_color);
                        }
                    }
                },
                None => {
                    proof {
                        lemma_fill_finish(sheet0, orig, q0, done, paths, ox, oy, start, target_color, replacement_color);
                    }
                    break ;
                },
            }
        }
    }

    /// Draws the background, the header with the sprite number and the
    /// canvas frame.
    fn draw_header(&self, s: &mut BackendState)
        requires
            old(s).wf(),
            self.selected_sprite_id < 512,
        ensures
            final(s).wf(),
            final(s).same_except_screen(old(s)),
            final(s).screen_buffer@ == old(s).draw(
                solid(Set::full(), 5).union_prefer_right(solid(box_points(0, 0, old(s).target_width - 1, 12), 0)).union_prefer_right(
                    solid(text_points(sprite_status(self.selected_sprite_id), 4, 4), 11),
                ).union_prefer_right(solid(box_border(7, 15, 72, 80), 7)),
            ),
    {
        let ghost s0 = *s;
        let ghost base = s.screen_buffer@;
        let ghost mut acc: Brush = Map::empty();
        proof {
            s0.lemma_draw_empty(base);
        }
        let ghost prev = *s;
        s.cls(5);
        proof {
            lemma_chain(s0, base, acc, prev, s.screen_buffer@, solid(Set::full(), 5));
            acc = acc.union_prefer_right(solid(Set::full(), 5));
        }
        let ghost prev = *s;
        let w = s.target_width;
        s.rectfill(0, 0, w - 1, 12, 0);
        proof {
            lemma_chain(s0, base, acc, prev, s.screen_buffer@, solid(box_points(0, 0, w - 1, 12), 0));
            acc = acc.union_prefer_right(solid(box_points(0, 0, w - 1, 12), 0));
        }
        let mut status = "SPRITE EDITOR - ID:".to_owned();
        proof {
            reveal_strlit("SPRITE EDITOR - ID:");
            lemma_decimal_len(self.selected_sprite_id as nat);
        }
        push_padded(&mut status, self.selected_sprite_id as i64, 3);
        let ghost prev = *s;
        s.draw_text(status.as_str(), 4, 4, 11);
        proof {
            assert(status@ == sprite_status(self.selected_sprite_id));
            lemma_chain(s0, base, acc, prev, s.screen_buffer@, solid(text_points(status@, 4, 4), 11));
            acc = acc.union_prefer_right(solid(text_points(status@, 4, 4), 11));
        }
        let ghost prev = *s;
        s.rect(7, 15, 72, 80, 7);
        proof {
            lemma_chain(s0, base, acc, prev, s.screen_buffer@, solid(box_border(7, 15, 72, 80), 7));
            assert(Map::<(int, int), u8>::empty().union_prefer_right(solid(Set::full(), 5)) =~= solid(Set::full(), 5));
        }
    }

    /// Draws the enlarged pixels of the edited sprite.
    fn draw_canvas(&self, s: &mut BackendState)
        requires
            old(s).wf(),
            self.selected_sprite_id < 512,
        ensures
            final(s).wf(),
            final(s).same_except_screen(old(s)),
            final(s).screen_buffer@ == old(s).draw(
                canvas_brush(
                    old(s).sprite_sheet@,
                    (self.selected_sprite_id % 16) * 8,
                    (self.selected_sprite_id / 16) * 8,
                    64,
                ),
            ),
    {
        let ghost s0 = *s;
        let ghost base = s.screen_buffer@;
        let sheet_x = (self.selected_sprite_id % 16) * 8;
        let sheet_y = (self.selected_sprite_id / 16) * 8;
        proof {
            s0.lemma_draw_empty(base);
            assert(canvas_brush(s0.sprite_sheet@, sheet_x as int, sheet_y as int, 0) == Map::<(int, int), u8>::empty());
        }
        let mut py: u32 = 0;
        while py < 8
            invariant
                s.wf(),
                s.same_except_screen(&s0),
                s0.wf(),
                base == s0.screen_buffer@,
                sheet_x == (self.selected_sprite_id % 16) * 8,
                sheet_y == (self.selected_sprite_id / 16) * 8,
                self.selected_sprite_id < 512,
                0 <= py <= 8,
                s.screen_buffer@ == s0.draw_over(
                    base,
                    canvas_brush(s0.sprite_sheet@, sheet_x as int, sheet_y as int, (py * 8) as int),
                ),
            decreases 8 - py,
        {
            let mut px: u32 = 0;
            while px < 8
                invariant
                    s.wf(),
                    s.same_except_screen(&s0),
                    s0.wf(),
                    base == s0.screen_buffer@,
                    sheet_x == (self.selected_sprite_id % 16) * 8,
                    sheet_y == (self.selected_sprite_id / 16) * 8,
                    self.selected_sprite_id < 512,
                    0 <= py < 8,
                    0 <= px <= 8,
                    s.screen_buffer@ == s0.draw_over(
                        base,
                        canvas_brush(s0.sprite_sheet@, sheet_x as int, sheet_y as int, (py * 8 + px) as int),
                    ),
                decreases 8 - px,
            {
                let ghost k = (py * 8 + px) as int;
                let ghost before = canvas_brush(s0.sprite_sheet@, sheet_x as int, sheet_y as int, k);
                let pixel_x = sheet_x + px;
                let pixel_y = sheet_y + py;
                let color_idx = s.sprite_sheet[(pixel_y * 256 + pixel_x) as usize];
                let bx0: i32 = 8 + (px as i32 * 8);
                let by0: i32 = 16 + (py as i32 * 8);
                let ghost fill = solid(box_points(bx0 as int, by0 as int, bx0 + 7, by0 + 7), color_idx);
                let ghost edge = solid(box_border(bx0 as int, by0 as int, bx0 + 7, by0 + 7), 1);
                let ghost prev = *s;
                s.rectfill(bx0, by0, bx0 + 7, by0 + 7, color_idx);
                proof {
                    lemma_chain(s0, base, before, prev, s.screen_buffer@, fill);
                }
                let ghost prev = *s;
                s.rect(bx0, by0, bx0 + 7, by0 + 7, 1);
                proof {
                    lemma_chain(s0, base, before.union_prefer_right(fill), prev, s.screen_buffer@, edge);
                    assert((k + 1 - 1) % 8 == px as int && (k + 1 - 1) / 8 == py as int);
                }
                px = px + 1;
            }
            py = py + 1;
        }
    }

    /// Draws the palette swatches, the current colour outlined.
    fn draw_palette(&self, s: &mut BackendState)
        requires
            old(s).wf(),
        ensures
            final(s).wf(),
            final(s).same_except_screen(old(s)),
            final(s).screen_buffer@ == old(s).draw(palette_brush(old(s).current_color, 16)),
    {
        let ghost s0 = *s;
        let ghost base = s.screen_buffer@;
        proof {
            s0.lemma_draw_empty(base);
        }
        let mut c: i32 = 0;
        while c < 16
            invariant
                s.wf(),
                s.same_except_screen(&s0),
                s0.wf(),
                base == s0.screen_buffer@,
                0 <= c <= 16,
                s.screen_buffer@ == s0.draw_over(base, palette_brush(s0.current_color, c as int)),
            decreases 16 - c,
        {
            let ghost before = palette_brush(s0.current_color, c as int);
            let cx: i32 = 80 + (c % 4) * 10;
            let cy: i32 = 16 + (c / 4) * 10;
            let ghost fill = solid(box_points(cx as int, cy as int, cx + 8, cy + 8), c as u8);
            let ghost prev = *s;
            s.rectfill(cx, cy, cx + 8, cy + 8, c as u8);
            proof {
                lemma_chain(s0, base, before, prev, s.screen_buffer@, fill);
            }
            if s.current_color == c as u8 {
                let ghost prev = *s;
                s.rect(cx - 1, cy - 1, cx + 9, cy + 9, 7);
                proof {
                    lemma_chain(
                        s0,
                        base,
                        before.union_prefer_right(fill),
                        prev,
                        s.screen_buffer@,
                        solid(box_border(cx - 1, cy - 1, cx + 9, cy + 9), 7),
                    );
                }
            }
            c = c + 1;
        }
    }

    /// Draws the two tool buttons.
    fn draw_tools(&self, s: &mut BackendState)
        requires
            old(s).wf(),
        ensures
            final(s).wf(),
            final(s).same_except_screen(old(s)),
            final(s).screen_buffer@ == old(s).draw(tools_brush(self.current_tool)),
    {
        let ghost s0 = *s;
        let ghost base = s.screen_buffer@;
        proof {
            s0.lemma_draw_empty(base);
            reveal_strlit("PEN");
            reveal_strlit("BKT");
        }
        let ghost prev = *s;
        let t0_fill: u8 = if self.current_tool == 0 { 11 } else { 0 };
        s.rectfill(80, 62, 98, 72, t0_fill);
        proof {
            lemma_chain(s0, base, Map::empty(), prev, s.screen_buffer@, solid(box_points(80, 62, 98, 72), t0_fill));
        }
        let ghost acc = Map::empty().union_prefer_right(solid(box_points(80, 62, 98, 72), t0_fill));
        let ghost prev = *s;
        let t0_text: u8 = if self.current_tool == 0 { 0 } else { 7 };
        s.draw_text("PEN", 83, 65, t0_text);
        proof {
            lemma_chain(s0, base, acc, prev, s.screen_buffer@, solid(text_points("PEN"@, 83, 65), t0_text));
        }
        let ghost acc = acc.union_prefer_right(solid(text_points("PEN"@, 83, 65), t0_text));
        let ghost prev = *s;
        let t1_fill: u8 = if self.current_tool == 1 { 11 } else { 0 };
        s.rectfill(102, 62, 120, 72, t1_fill);
        proof {
            lemma_chain(s0, base, acc, prev, s.screen_buffer@, solid(box_points(102, 62, 120, 72), t1_fill));
        }
        let ghost acc = acc.union_prefer_right(solid(box_points(102, 62, 120, 72), t1_fill));
        let ghost prev = *s;
        let t1_text: u8 = if self.current_tool == 1 { 0 } else { 7 };
        s.draw_text("BKT", 105, 65, t1_text);
        proof {
            lemma_chain(s0, base, acc, prev, s.screen_buffer@, solid(text_points("BKT"@, 105, 65), t1_text));
            assert(acc.union_prefer_right(solid(text_points("BKT"@, 105, 65), t1_text)) =~= tools_brush(
                self.current_tool,
            ));
        }
    }

    /// Handles a mouse click: pen or bucket on the canvas, colour choice on
    /// the palette, tool choice on the buttons.
    fn handle_click(&mut self, s: &mut BackendState)
        requires
            old(s).wf(),
            old(self).selected_sprite_id < 512,
        ensures
            final(s).wf(),
            final(s).same_view(old(s)),
            final(s).screen_buffer@ == old(s).screen_buffer@,
            final(s).sprite_sheet@ == clicked_sheet(*old(self), *old(s)),
            final(s).current_color == clicked_color(*old(s)),
            final(s).map_buffer@ == old(s).map_buffer@,
            final(s).mouse_x == old(s).mouse_x && final(s).mouse_y == old(s).mouse_y,
            final(s).same_inputs(old(s)),
            final(self).selected_sprite_id == old(self).selected_sprite_id,
            final(self).current_tool == clicked_tool(*old(self), *old(s)),
    {
        if s.mouse_left_clicked {
            let mx = s.mouse_x;
            let my = s.mouse_y;
            let sheet_x = (self.selected_sprite_id % 16) * 8;
            let sheet_y = (self.selected_sprite_id / 16) * 8;
            if mx >= 8 && mx < 72 && my >= 16 && my < 80 {
                let clicked_px = ((mx - 8) / 8) as u32;
                let clicked_py = ((my - 16) / 8) as u32;
                let target_x = sheet_x + clicked_px;
                let target_y = sheet_y + clicked_py;
                if self.current_tool == 0 {
                    let cc = s.current_color;
                    s.sprite_sheet.set((target_y * 256 + target_x) as usize, cc);
                } else if self.current_tool == 1 {
                    let old_color = s.sprite_sheet[(target_y * 256 + target_x) as usize];
                    let cc = s.current_color;
                    self.flood_fill(&mut s.sprite_sheet, target_x, target_y, old_color, cc);
                }
            }
            if mx >= 80 && mx < 120 && my >= 16 && my < 56 {
                let pc = ((mx - 80) / 10) + ((my - 16) / 10) * 4;
                if pc >= 0 && pc < 16 {
                    s.current_color = pc as u8;
                }
            }
            if my >= 62 && my <= 72 {
                if mx >= 80 && mx <= 98 {
                    self.current_tool = 0;
                }
                if mx >= 102 && mx <= 120 {
                    self.current_tool = 1;
                }
            }
        }
    }

    /// Draws the mouse cursor.
    fn draw_cursor(&self, s: &mut BackendState)
        requires
            old(s).wf(),
        ensures
            final(s).wf(),
            final(s).same_except_screen(old(s)),
            final(s).screen_buffer@ == old(s).draw(
                cursor_brush(
                    old(s).mouse_x as int,
                    old(s).mouse_y as int,
                    old(s).target_width as int,
                    old(s).target_height as int,
                    old(s).current_color,
                ),
            ),
    {
        let ghost s0 = *s;
        let ghost base = s.screen_buffer@;
        let mx = s.mouse_x;
        let my = s.mouse_y;
        proof {
            s0.lemma_draw_empty(base);
        }
        if mx >= 0 && mx < s.target_width && my >= 0 && my < s.target_height {
            let cursor_color: u8 = if s.current_color == 7 { 0 } else { 7 };
            let ghost p0 = *s;
            s.pset(mx, my, cursor_color);
            proof {
                lemma_point_brush((mx as int, my as int), cursor_color);
                lemma_chain(s0, base, Map::empty(), p0, s.screen_buffer@, solid(set![(mx as int, my as int)], cursor_color));
            }
            let ghost a1 = Map::empty().union_prefer_right(solid(set![(mx as int, my as int)], cursor_color));
            let ghost p1 = *s;
            s.pset(mx - 1, my, cursor_color);
            proof {
                lemma_point_brush((mx - 1, my as int), cursor_color);
                lemma_chain(s0, base, a1, p1, s.screen_buffer@, solid(set![(mx - 1, my as int)], cursor_color));
            }
            let ghost a2 = a1.union_prefer_right(solid(set![(mx - 1, my as int)], cursor_color));
            let ghost p2 = *s;
            s.pset(mx + 1, my, cursor_color);
            proof {
                lemma_point_brush((mx + 1, my as int), cursor_color);
                lemma_chain(s0, base, a2, p2, s.screen_buffer@, solid(set![(mx + 1, my as int)], cursor_color));
            }
            let ghost a3 = a2.union_prefer_right(solid(set![(mx + 1, my as int)], cursor_color));
            let ghost p3 = *s;
            s.pset(mx, my - 1, cursor_color);
            proof {
                lemma_point_brush((mx as int, my - 1), cursor_color);
                lemma_chain(s0, base, a3, p3, s.screen_buffer@, solid(set![(mx as int, my - 1)], cursor_color));
            }
            let ghost a4 = a3.union_prefer_right(solid(set![(mx as int, my - 1)], cursor_color));
            let ghost p4 = *s;
            s.pset(mx, my + 1, cursor_color);
            proof {
                lemma_point_brush((mx as int, my + 1), cursor_color);
                lemma_chain(s0, base, a4, p4, s.screen_buffer@, solid(set![(mx as int, my + 1)], cursor_color));
                assert(a4.union_prefer_right(solid(set![(mx as int, my + 1)], cursor_color)) =~= cursor_brush(
                    mx as int,
                    my as int,
                    s0.target_width as int,
                    s0.target_height as int,
                    s0.current_color,
                ));
            }
        } else {
            proof {
                assert(cursor_brush(mx as int, my as int, s0.target_width as int, s0.target_height as int, s0.current_color)
                    =~= Map::empty());
            }
        }
    }

    /// One frame of the sprite editor: draws the editor (see
    /// `sprite_editor_brush`) and handles a mouse click on the canvas (pen
    /// or bucket), the palette or the tool buttons.
    pub fn update_and_render(&mut self, s: &mut BackendState)
        requires
            old(s).wf(),
            old(self).selected_sprite_id < 512,
        ensures
            final(s).wf(),
            final(s).same_view(old(s)),
            final(s).screen_buffer@ == old(s).draw(sprite_editor_brush(*old(self), *old(s))),
            final(s).sprite_sheet@ == clicked_sheet(*old(self), *old(s)),
            final(s).current_color == clicked_color(*old(s)),
            final(s).map_buffer@ == old(s).map_buffer@,
            final(s).mouse_x == old(s).mouse_x && final(s).mouse_y == old(s).mouse_y,
            final(s).same_inputs(old(s)),
            final(self).selected_sprite_id == old(self).selected_sprite_id,
            final(self).current_tool == clicked_tool(*old(self), *old(s)),
    {
        let ghost s0 = *s;
        let ghost base = s.screen_buffer@;
        let ghost sx = (self.selected_sprite_id % 16) * 8;
        let ghost sy = (self.selected_sprite_id / 16) * 8;
        let ghost b1 = solid(Set::full(), 5).union_prefer_right(solid(box_points(0, 0, s0.target_width - 1, 12), 0)).union_prefer_right(
            solid(text_points(sprite_status(self.selected_sprite_id), 4, 4), 11),
        ).union_prefer_right(solid(box_border(7, 15, 72, 80), 7));
        self.draw_header(s);
        proof {
            s0.lemma_draw_empty(base);
            assert(Map::<(int, int), u8>::empty().union_prefer_right(b1) =~= b1);
        }
        let ghost prev = *s;
        self.draw_canvas(s);
        let ghost b2 = canvas_brush(s0.sprite_sheet@, sx, sy, 64);
        proof {
            lemma_chain(s0, base, b1, prev, s.screen_buffer@, b2);
        }
        let ghost prev = *s;
        self.draw_palette(s);
        let ghost b3 = palette_brush(s0.current_color, 16);
        proof {
            lemma_chain(s0, base, b1.union_prefer_right(b2), prev, s.screen_buffer@, b3);
        }
        let ghost prev = *s;
        self.draw_tools(s);
        let ghost b4 = tools_brush(self.current_tool);
        proof {
            lemma_chain(s0, base, b1.union_prefer_right(b2).union_prefer_right(b3), prev, s.screen_buffer@, b4);
        }
        let ghost acc = b1.union_prefer_right(b2).union_prefer_right(b3).union_prefer_right(b4);
        self.handle_click(s);
        let ghost prev = *s;
        self.draw_cursor(s);
        proof {
            let b5 = cursor_brush(s0.mouse_x as int, s0.mouse_y as int, s0.target_width as int, s0.target_height as int, clicked_color(s0));
            prev.lemma_same_view_draw(&s0, prev.screen_buffer@, b5);
            s0.lemma_draw_compose(base, acc, b5);
            assert(acc.union_prefer_right(b5) =~= sprite_editor_brush(*old(self), s0));
        }
    }
}

/// The in-engine tile-map editor.
pub struct MapEditor {
    pub current_tile_id: u8,
    /// The map cell under the yellow focus cursor.
    pub camera_x: i32,
    pub camera_y: i32,
    /// Frames left before the cursor may move again.
    pub input_cooldown: u8,
}

/// The editor's cooldown after this frame's count-down (before any move).
pub open spec fn cooled(c: u8) -> u8 {
    if c > 0 {
        (c - 1) as u8
    } else {
        0
    }
}

/// Whether the cursor may move this frame.
pub open spec fn may_move(ed: MapEditor) -> bool {
    cooled(ed.input_cooldown) == 0
}

/// The focus column after this frame: left (button 0) and right (button 1)
/// of player 0 move it by one within `0 .. 239`, once the cooldown is over.
pub open spec fn moved_x(ed: MapEditor, s: BackendState) -> i32 {
    if may_move(ed) {
        let x1: int = if s.buttons[0][0] {
            if ed.camera_x - 1 >= 0 { ed.camera_x - 1 } else { 0 }
        } else {
            ed.camera_x as int
        };
        (if s.buttons[0][1] {
            if x1 + 1 <= 239 { x1 + 1 } else { 239 }
        } else {
            x1
        }) as i32
    } else {
        ed.camera_x
    }
}

/// The focus row after this frame: up (button 2) and down (button 3) of
/// player 0 move it by one within `0 .. 135`, once the cooldown is over.
pub open spec fn moved_y(ed: MapEditor, s: BackendState) -> i32 {
    if may_move(ed) {
        let y1: int = if s.buttons[0][2] {
            if ed.camera_y - 1 >= 0 { ed.camera_y - 1 } else { 0 }
        } else {
            ed.camera_y as int
        };
        (if s.buttons[0][3] {
            if y1 + 1 <= 135 { y1 + 1 } else { 135 }
        } else {
            y1
        }) as i32
    } else {
        ed.camera_y
    }
}

/// The cursor keys of player 0 move the focus cell one cell per press,
/// once the cooldown has run out (a cooldown of at most 1 before the
/// frame): left (button 0) decreases the column, right (1) increases it,
/// up (2) decreases the row, down (3) increases it, each kept within
/// `0 ..= 239` columns and `0 ..= 135` rows; a move restarts the cooldown
/// at 8. While the cooldown runs, the cell stays and the cooldown drops
/// by one.
pub proof fn lemma_cursor_keys(ed: MapEditor, s: BackendState)
    ensures
        ({
            let b = s.buttons[0];
            let x = ed.camera_x as int;
            let y = ed.camera_y as int;
            &&& (ed.input_cooldown <= 1 && !b[0] && !b[1] && !b[2] && b[3]) ==> (moved_y(ed, s) == (if y + 1 <= 135 {
                y + 1
            } else {
                135
            }) && moved_x(ed, s) == x && next_cooldown(ed, s) == 8)
            &&& (ed.input_cooldown <= 1 && !b[0] && !b[1] && b[2] && !b[3]) ==> (moved_y(ed, s) == (if y - 1 >= 0 {
                y - 1
            } else {
                0
            }) && moved_x(ed, s) == x && next_cooldown(ed, s) == 8)
            &&& (ed.input_cooldown <= 1 && !b[0] && b[1] && !b[2] && !b[3]) ==> (moved_x(ed, s) == (if x + 1 <= 239 {
                x + 1
            } else {
                239
            }) && moved_y(ed, s) == y && next_cooldown(ed, s) == 8)
            &&& (ed.input_cooldown <= 1 && b[0] && !b[1] && !b[2] && !b[3]) ==> (moved_x(ed, s) == (if x - 1 >= 0 {
                x - 1
            } else {
                0
            }) && moved_y(ed, s) == y && next_cooldown(ed, s) == 8)
            &&& (ed.input_cooldown <= 1 && !b[0] && !b[1] && !b[2] && !b[3]) ==> (moved_x(ed, s) == x && moved_y(ed, s)
                == y && next_cooldown(ed, s) == 0)
            &&& ed.input_cooldown > 1 ==> (moved_x(ed, s) == x && moved_y(ed, s) == y && next_cooldown(ed, s)
                == ed.input_cooldown - 1)
        }),
{
}

/// The cooldown after this frame: 8 after a move, else counted down.
pub open spec fn next_cooldown(ed: MapEditor, s: BackendState) -> u8 {
    if may_move(ed) && (s.buttons[0][0] || s.buttons[0][1] || s.buttons[0][2] || s.buttons[0][3]) {
        8
    } else {
        cooled(ed.input_cooldown)
    }
}

/// `s` with the camera at the origin and the clip covering the screen.
pub open spec fn screen_view(s: BackendState) -> BackendState {
    BackendState {
        camera_x: 0,
        camera_y: 0,
        clip_x0: 0,
        clip_y0: 0,
        clip_x1: (s.target_width - 1) as i32,
        clip_y1: (s.target_height - 1) as i32,
        ..s
    }
}

/// The first map cell of the view, centred on the focus cell and kept
/// within the map where the view fits.
pub open spec fn view_origin(focus: int, view: int, map_side: int) -> int {
    let a = if focus - view / 2 >= 0 { focus - view / 2 } else { 0 };
    if a <= map_side - view { a } else { map_side - view }
}

/// What the map view draws for view cell `(mx, my)`: the tile's sprite (a
/// dot of colour 1 for tile 0) and, on the focus cell, a yellow frame.
pub open spec fn view_cell_brush(s: BackendState, ox: int, oy: int, fx: int, fy: int, mx: int, my: int) -> Brush {
    let cx = ox + mx;
    let cy = oy + my;
    if cx < 240 && cy < 136 {
        let t = map_cell(s.tile_map(), cx, cy);
        let tile = if t != 0 {
            sprite_brush(s.sprite_sheet@, t as int, mx * 8, my * 8, false, false)
        } else {
            solid(set![(mx * 8, my * 8)], 1)
        };
        if cx == fx && cy == fy {
            tile.union_prefer_right(solid(box_border(mx * 8, my * 8, mx * 8 + 7, my * 8 + 7), 10))
        } else {
            tile
        }
    } else {
        Map::empty()
    }
}

/// View cells `0 .. n` of view row `my`.
pub open spec fn view_row_brush(s: BackendState, ox: int, oy: int, fx: int, fy: int, my: int, n: int) -> Brush
    decreases n,
{
    if n <= 0 {
        Map::empty()
    } else {
        view_row_brush(s, ox, oy, fx, fy, my, n - 1).union_prefer_right(view_cell_brush(s, ox, oy, fx, fy, n - 1, my))
    }
}

/// View rows `0 .. m`, each `w` cells wide.
pub open spec fn view_brush(s: BackendState, ox: int, oy: int, fx: int, fy: int, w: int, m: int) -> Brush
    decreases m,
{
    if m <= 0 {
        Map::empty()
    } else {
        view_brush(s, ox, oy, fx, fy, w, m - 1).union_prefer_right(view_row_brush(s, ox, oy, fx, fy, m - 1, w))
    }
}

/// The status line of the map editor.
pub open spec fn map_status(x: i32, y: i32, tile: u8) -> Seq<char> {
    "CELL X:"@ + padded(x as int, 3) + " Y:"@ + padded(y as int, 3) + " | TILE:"@ + decimal(tile as nat)
        + " | [Z] STAMP"@
}

/// The bottom bar: black panel, white rule, status line and a preview of
/// the current tile.
pub open spec fn hud_brush(s: BackendState, x: i32, y: i32, tile: u8) -> Brush {
    let w = s.target_width as int;
    let h = s.target_height as int;
    let ui = h - 20;
    solid(box_points(0, ui, w - 1, h - 1), 0).union_prefer_right(solid(line_points(0, ui, w - 1, ui), 7)).union_prefer_right(
        solid(text_points(map_status(x, y, tile), 4, ui + 6), 11),
    ).union_prefer_right(sprite_brush(s.sprite_sheet@, tile as int, w - 14, ui + 6, false, false))
}

/// The map after a frame of the map editor: while player 0 holds Z
/// (button 4), the current tile is stamped into the focus cell (after the
/// cursor moved), if that cell is on the map.
pub open spec fn stamped_map(ed: MapEditor, s: BackendState) -> Seq<u8> {
    if s.buttons[0][4] {
        map_after_set(
            s.map_buffer@,
            s.map_width as int,
            s.map_height as int,
            moved_x(ed, s) as int,
            moved_y(ed, s) as int,
            ed.current_tile_id,
        )
    } else {
        s.map_buffer@
    }
}

/// Everything one frame of the map editor draws, in screen coordinates:
/// background, the map around the focus cell, then the bottom bar.
pub open spec fn map_editor_brush(ed: MapEditor, s: BackendState) -> Brush {
    let fx = moved_x(ed, s) as int;
    let fy = moved_y(ed, s) as int;
    let vw = (s.target_width / 8) as int;
    let vh = if s.target_height >= 20 { (s.target_height - 20) / 8 } else { 0 };
    solid(Set::full(), 5).union_prefer_right(
        view_brush(s, view_origin(fx, vw, 240), view_origin(fy, vh, 136), fx, fy, vw, vh),
    ).union_prefer_right(hud_brush(s, moved_x(ed, s), moved_y(ed, s), ed.current_tile_id))
}

impl MapEditor {
    /// A map editor focused on cell `(0, 0)` with tile 1 selected.
    pub fn new() -> (e: Self)
        ensures
            e.current_tile_id == 1,
            e.camera_x == 0 && e.camera_y == 0,
            e.input_cooldown == 0,
    {
        Self { current_tile_id: 1, camera_x: 0, camera_y: 0, input_cooldown: 0 }
    }

    /// Counts the cooldown down and moves the focus cell with player 0's
    /// direction buttons.
    fn handle_input(&mut self, s: &BackendState)
        ensures
            final(self).camera_x == moved_x(*old(self), *s),
            final(self).camera_y == moved_y(*old(self), *s),
            final(self).input_cooldown == next_cooldown(*old(self), *s),
            final(self).current_tile_id == old(self).current_tile_id,
    {
        if self.input_cooldown > 0 {
            self.input_cooldown = self.input_cooldown - 1;
        }
        if self.input_cooldown == 0 {
            let mut moved = false;
            if s.buttons[0][0] {
                self.camera_x = if self.camera_x as i64 - 1 >= 0 { self.camera_x - 1 } else { 0 };
                moved = true;
            }
            if s.buttons[0][1] {
                self.camera_x = if self.camera_x as i64 + 1 <= 239 { self.camera_x + 1 } else { 239 };
                moved = true;
            }
            if s.buttons[0][2] {
                self.camera_y = if self.camera_y as i64 - 1 >= 0 { self.camera_y - 1 } else { 0 };
                moved = true;
            }
            if s.buttons[0][3] {
                self.camera_y = if self.camera_y as i64 + 1 <= 135 { self.camera_y + 1 } else { 135 };
                moved = true;
            }
            if moved {
                self.input_cooldown = 8;
            }
        }
    }

    /// Draws the visible part of the map around the focus cell.
    fn draw_view(&self, s: &mut BackendState, ox: i64, oy: i64, vw: i32, vh: i32)
        requires
            old(s).wf(),
            old(s).camera_x == 0 && old(s).camera_y == 0,
            0 <= vw <= old(s).target_width / 8,
            vh <= 0x1000_0000,
            -0x1_0000_0000 <= ox <= 0x1_0000_0000,
            -0x1_0000_0000 <= oy <= 0x1_0000_0000,
        ensures
            final(s).wf(),
            final(s).same_except_screen(old(s)),
            final(s).screen_buffer@ == old(s).draw(
                view_brush(*old(s), ox as int, oy as int, self.camera_x as int, self.camera_y as int, vw as int, vh as int),
            ),
    {
        let ghost s0 = *s;
        let ghost base = s.screen_buffer@;
        let ghost fx = self.camera_x as int;
        let ghost fy = self.camera_y as int;
        proof {
            s0.lemma_draw_empty(base);
        }
        let mut my: i32 = 0;
        while my < vh
            invariant
                s.wf(),
                s.same_except_screen(&s0),
                s0.wf(),
                base == s0.screen_buffer@,
                fx == self.camera_x && fy == self.camera_y,
                0 <= vw <= s0.target_width / 8,
                vh <= 0x1000_0000,
                -0x1_0000_0000 <= ox <= 0x1_0000_0000,
                -0x1_0000_0000 <= oy <= 0x1_0000_0000,
                0 <= my,
                my <= vh || my == 0,
                s.screen_buffer@ == s0.draw_over(base, view_brush(s0, ox as int, oy as int, fx, fy, vw as int, my as int)),
            decreases vh - my,
        {
            let ghost above = view_brush(s0, ox as int, oy as int, fx, fy, vw as int, my as int);
            proof {
                assert(above.union_prefer_right(Map::empty()) =~= above);
            }
            let mut mx: i32 = 0;
            while mx < vw
                invariant
                    s.wf(),
                    s.same_except_screen(&s0),
                    s0.wf(),
                    base == s0.screen_buffer@,
                    fx == self.camera_x && fy == self.camera_y,
                    0 <= vw <= s0.target_width / 8,
                    -0x1_0000_0000 <= ox <= 0x1_0000_0000,
                    -0x1_0000_0000 <= oy <= 0x1_0000_0000,
                    0 <= my < vh,
                    vh <= 0x1000_0000,
                    0 <= mx <= vw,
                    above == view_brush(s0, ox as int, oy as int, fx, fy, vw as int, my as int),
                    s.screen_buffer@ == s0.draw_over(
                        base,
                        above.union_prefer_right(view_row_brush(s0, ox as int, oy as int, fx, fy, my as int, mx as int)),
                    ),
                decreases vw - mx,
            {
                let ghost done = above.union_prefer_right(view_row_brush(s0, ox as int, oy as int, fx, fy, my as int, mx as int));
                let ghost cell = view_cell_brush(s0, ox as int, oy as int, fx, fy, mx as int, my as int);
                let map_cell_x = ox + mx as i64;
                let map_cell_y = oy + my as i64;
                if map_cell_x < 240 && map_cell_y < 136 {
                    let tile_id = s.mget_wide(map_cell_x, map_cell_y);
                    let sdx: i32 = mx * 8;
                    let sdy: i32 = my * 8;
                    let ghost tile = if tile_id != 0 {
                        sprite_brush(s0.sprite_sheet@, tile_id as int, sdx as int, sdy as int, false, false)
                    } else {
                        solid(set![(sdx as int, sdy as int)], 1)
                    };
                    let ghost prev = *s;
                    if tile_id != 0 {
                        s.spr_ext(tile_id as u32, sdx, sdy, false, false);
                    } else {
                        s.pset(sdx, sdy, 1);
                        proof {
                            lemma_point_brush((sdx as int, sdy as int), 1);
                        }
                    }
                    proof {
                        lemma_chain(s0, base, done, prev, s.screen_buffer@, tile);
                    }
                    if map_cell_x == self.camera_x as i64 && map_cell_y == self.camera_y as i64 {
                        let ghost prev = *s;
                        s.rect(sdx, sdy, sdx + 7, sdy + 7, 10);
                        proof {
                            lemma_chain(
                                s0,
                                base,
                                done.union_prefer_right(tile),
                                prev,
                                s.screen_buffer@,
                                solid(box_border(sdx as int, sdy as int, sdx + 7, sdy + 7), 10),
                            );
                        }
                    }
                    proof {
                        assert(done.union_prefer_right(cell) =~= above.union_prefer_right(
                            view_row_brush(s0, ox as int, oy as int, fx, fy, my as int, mx + 1),
                        ));
                    }
                } else {
                    proof {
                        assert(cell =~= Map::empty());
                        assert(done =~= above.union_prefer_right(
                            view_row_brush(s0, ox as int, oy as int, fx, fy, my as int, mx + 1),
                        ));
                    }
                }
                mx = mx + 1;
            }
            my = my + 1;
        }
        proof {
            if vh <= 0 {
                assert(view_brush(s0, ox as int, oy as int, fx, fy, vw as int, vh as int) =~= Map::empty());
            }
        }
    }

    /// Draws the bottom bar.
    fn draw_hud(&self, s: &mut BackendState)
        requires
            old(s).wf(),
        ensures
            final(s).wf(),
            final(s).same_except_screen(old(s)),
            final(s).screen_buffer@ == old(s).draw(hud_brush(*old(s), self.camera_x, self.camera_y, self.current_tile_id)),
    {
        let ghost s0 = *s;
        let ghost base = s.screen_buffer@;
        proof {
            s0.lemma_draw_empty(base);
        }
        let w = s.target_width as i64;
        let h = s.target_height as i64;
        let ui_y0 = h - 20;
        let ghost b1 = solid(box_points(0, ui_y0 as int, w - 1, h - 1), 0);
        let ghost prev = *s;
        s.rectfill(0, ui_y0 as i32, (w - 1) as i32, (h - 1) as i32, 0);
        proof {
            lemma_chain(s0, base, Map::empty(), prev, s.screen_buffer@, b1);
            assert(Map::<(int, int), u8>::empty().union_prefer_right(b1) =~= b1);
        }
        let ghost b2 = solid(line_points(0, ui_y0 as int, w - 1, ui_y0 as int), 7);
        let ghost prev = *s;
        s.line(0, ui_y0 as i32, (w - 1) as i32, ui_y0 as i32, 7);
        proof {
            lemma_chain(s0, base, b1, prev, s.screen_buffer@, b2);
        }
        let mut text = "CELL X:".to_owned();
        push_padded(&mut text, self.camera_x as i64, 3);
        let y_label = " Y:";
        push_chars(&mut text, &crate::cart::text::chars_of(y_label));
        push_padded(&mut text, self.camera_y as i64, 3);
        push_chars(&mut text, &crate::cart::text::chars_of(" | TILE:"));
        push_chars(&mut text, &decimal_chars(self.current_tile_id as u64));
        push_chars(&mut text, &crate::cart::text::chars_of(" | [Z] STAMP"));
        proof {
            reveal_strlit("CELL X:");
            reveal_strlit(" Y:");
            reveal_strlit(" | TILE:");
            reveal_strlit(" | [Z] STAMP");
            lemma_decimal_len((if self.camera_x < 0 { -self.camera_x } else { self.camera_x as int }) as nat);
            lemma_decimal_len((if self.camera_y < 0 { -self.camera_y } else { self.camera_y as int }) as nat);
            lemma_decimal_len(self.current_tile_id as nat);
            assert(text@ =~= map_status(self.camera_x, self.camera_y, self.current_tile_id));
        }
        let ghost b3 = solid(text_points(text@, 4, ui_y0 + 6), 11);
        let ghost prev = *s;
        s.draw_text(text.as_str(), 4, (ui_y0 + 6) as i32, 11);
        proof {
            lemma_chain(s0, base, b1.union_prefer_right(b2), prev, s.screen_buffer@, b3);
        }
        let ghost b4 = sprite_brush(s0.sprite_sheet@, self.current_tile_id as int, w - 14, ui_y0 + 6, false, false);
        let ghost prev = *s;
        s.spr_ext(self.current_tile_id as u32, (w - 14) as i32, (ui_y0 + 6) as i32, false, false);
        proof {
            lemma_chain(s0, base, b1.union_prefer_right(b2).union_prefer_right(b3), prev, s.screen_buffer@, b4);
        }
    }

    /// One frame of the map editor: puts the camera at the origin and the
    /// clip on the whole screen, moves the focus cell with player 0's
    /// direction buttons (at most once every 8 frames), draws the map
    /// around it with a status bar (see `map_editor_brush`), and while Z is
    /// held stamps the current tile into the focus cell (shown from the
    /// next frame on; see `stamped_map`).
    pub fn update_and_render(&mut self, s: &mut BackendState)
        requires
            old(s).wf(),
        ensures
            final(s).wf(),
            final(s).screen_buffer@ == screen_view(*old(s)).draw(map_editor_brush(*old(self), *old(s))),
            final(s).same_view(&screen_view(*old(s))),
            final(s).sprite_sheet@ == old(s).sprite_sheet@,
            final(s).map_buffer@ == stamped_map(*old(self), *old(s)),
            final(s).current_color == old(s).current_color,
            final(s).same_inputs(old(s)),
            final(self).camera_x == moved_x(*old(self), *old(s)),
            final(self).camera_y == moved_y(*old(self), *old(s)),
            final(self).input_cooldown == next_cooldown(*old(self), *old(s)),
            final(self).current_tile_id == old(self).current_tile_id,
    {
        s.camera_x = 0;
        s.camera_y = 0;
        s.clip_x0 = 0;
        s.clip_y0 = 0;
        s.clip_x1 = s.target_width - 1;
        s.clip_y1 = s.target_height - 1;
        let ghost s0 = *s;
        let ghost base = s.screen_buffer@;
        proof {
            s0.lemma_same_view_draw(&screen_view(*old(s)), base, map_editor_brush(*old(self), *old(s)));
        }
        s.cls(5);
        let ghost b1 = solid(Set::full(), 5);
        proof {
            s0.lemma_draw_empty(base);
            assert(Map::<(int, int), u8>::empty().union_prefer_right(b1) =~= b1);
        }
        self.handle_input(s);
        let tile_size: i32 = 8;
        let view_w = s.target_width / tile_size;
        // Below 20 rows there is no room for the map: the view is empty.
        let view_h: i32 = if s.target_height >= 20 { (s.target_height - 20) / tile_size } else { 0 };
        let a = if self.camera_x as i64 - (view_w / 2) as i64 >= 0 { self.camera_x as i64 - (view_w / 2) as i64 } else { 0 };
        let start_mx = if a <= 240 - view_w as i64 { a } else { 240 - view_w as i64 };
        let b = if self.camera_y as i64 - (view_h / 2) as i64 >= 0 { self.camera_y as i64 - (view_h / 2) as i64 } else { 0 };
        let start_my = if b <= 136 - view_h as i64 { b } else { 136 - view_h as i64 };
        proof {
            assert(view_h <= 0x1000_0000);
            assert(view_w <= s0.target_width / 8);
        }
        let ghost prev = *s;
        self.draw_view(s, start_mx, start_my, view_w, view_h);
        let ghost b2 = view_brush(s0, start_mx as int, start_my as int, self.camera_x as int, self.camera_y as int, view_w as int, view_h as int);
        proof {
            assert(b2 == view_brush(prev, start_mx as int, start_my as int, self.camera_x as int, self.camera_y as int, view_w as int, view_h as int)) by {
                assert(prev.sprite_sheet@ == s0.sprite_sheet@ && prev.map_buffer@ == s0.map_buffer@);
                lemma_view_brush_state(s0, prev, start_mx as int, start_my as int, self.camera_x as int, self.camera_y as int, view_w as int, view_h as int);
            }
            lemma_chain(s0, base, b1, prev, s.screen_buffer@, b2);
        }
        let ghost prev = *s;
        self.draw_hud(s);
        let ghost b3 = hud_brush(prev, self.camera_x, self.camera_y, self.current_tile_id);
        proof {
            lemma_chain(s0, base, b1.union_prefer_right(b2), prev, s.screen_buffer@, b3);
            assert(b3 == hud_brush(*old(s), moved_x(*old(self), *old(s)), moved_y(*old(self), *old(s)), self.current_tile_id));
            lemma_view_brush_state(s0, *old(s), start_mx as int, start_my as int, self.camera_x as int, self.camera_y as int, view_w as int, view_h as int);
            assert(b1.union_prefer_right(b2).union_prefer_right(b3) =~= map_editor_brush(*old(self), *old(s)));
        }
        if s.buttons[0][4] {
            s.mset(self.camera_x, self.camera_y, self.current_tile_id);
        }
    }
}

/// The map view depends on a state only through its sheet and map.
proof fn lemma_view_brush_state(a: BackendState, b: BackendState, ox: int, oy: int, fx: int, fy: int, w: int, m: int)
    requires
        a.sprite_sheet@ == b.sprite_sheet@,
        a.tile_map() == b.tile_map(),
    ensures
        view_brush(a, ox, oy, fx, fy, w, m) == view_brush(b, ox, oy, fx, fy, w, m),
    decreases m,
{
    if m > 0 {
        lemma_view_brush_state(a, b, ox, oy, fx, fy, w, m - 1);
        lemma_view_row_state(a, b, ox, oy, fx, fy, m - 1, w);
    }
}

proof fn lemma_view_row_state(a: BackendState, b: BackendState, ox: int, oy: int, fx: int, fy: int, my: int, n: int)
    requires
        a.sprite_sheet@ == b.sprite_sheet@,
        a.tile_map() == b.tile_map(),
    ensures
        view_row_brush(a, ox, oy, fx, fy, my, n) == view_row_brush(b, ox, oy, fx, fy, my, n),
    decreases n,
{
    if n > 0 {
        lemma_view_row_state(a, b, ox, oy, fx, fy, my, n - 1);
        assert(view_cell_brush(a, ox, oy, fx, fy, n - 1, my) == view_cell_brush(b, ox, oy, fx, fy, n - 1, my));
    }
}

} // verus!
