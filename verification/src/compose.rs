use vstd::prelude::*;

use crate::bitmap::{lemma_grid_index, lemma_grid_index_injective, Bitmap};
use crate::color::MyColor;
use crate::error::MosaicError;
use crate::index::{best_idx, ColorIndex, TileRef};

verus! {

/// The fixed pixel edge of a grid cell and of every tile image: tiles are
/// normalized to TILE_EDGE x TILE_EDGE, and the target is partitioned into
/// cells of the same size.
pub const TILE_EDGE: u32 = 10;

/// The cell edge as a spec integer.
pub open spec fn edge() -> int {
    TILE_EDGE as int
}

/// Number of whole grid columns of the target: a remainder strip narrower
/// than a cell is dropped, not padded.
pub open spec fn grid_cols(t: Bitmap) -> int {
    t.width as int / edge()
}

/// Number of whole grid rows of the target.
pub open spec fn grid_rows(t: Bitmap) -> int {
    t.height as int / edge()
}

/// The representative color of a grid cell: the pixel at the cell's top-left
/// corner (the cell is sampled, not averaged — a deliberate trade-off).
pub open spec fn cell_color(t: Bitmap, col: int, row: int) -> MyColor {
    t.pixel_at(col * edge(), row * edge())
}

/// The tile chosen for one grid cell: the cell's sampled color is matched to
/// the nearest index key, and the draw `r` picks among that key's tiles by
/// remainder.
pub open spec fn cell_choice(t: Bitmap, db: ColorIndex, r: u64, col: int, row: int) -> Seq<u8> {
    let c = cell_color(t, col, row);
    let b = best_idx(c, db.keys(), db.keys().len() as int);
    let refs = db.model()[b].1;
    refs[r as int % refs.len() as int]
}

/// The whole-grid plan: the tile chosen for every cell, row-major, each cell
/// consuming the draw at its own row-major position.
pub open spec fn plan_matches(
    plan: Seq<TileRef>,
    t: Bitmap,
    db: ColorIndex,
    rands: Seq<u64>,
) -> bool {
    let wi = grid_cols(t);
    let hi = grid_rows(t);
    &&& plan.len() == wi * hi
    &&& forall|row: int, col: int|
        0 <= row < hi && 0 <= col < wi ==> (#[trigger] plan[row * wi + col]).path@ == cell_choice(
            t,
            db,
            rands[row * wi + col],
            col,
            row,
        )
}

/// The top-left pixel of each whole cell lies inside the target.
proof fn lemma_cell_corner(t: Bitmap, col: int, row: int)
    requires
        0 <= col < grid_cols(t),
        0 <= row < grid_rows(t),
    ensures
        0 <= col * edge() < t.width,
        0 <= row * edge() < t.height,
{
    let e = edge();
    vstd::arithmetic::div_mod::lemma_fundamental_div_mod(t.width as int, e);
    vstd::arithmetic::div_mod::lemma_fundamental_div_mod(t.height as int, e);
    assert(col * e < grid_cols(t) * e <= t.width) by (nonlinear_arith)
        requires
            0 <= col < grid_cols(t),
            e > 0,
            t.width == e * grid_cols(t) + (t.width as int % e),
            t.width as int % e >= 0,
    ;
    assert(row * e < grid_rows(t) * e <= t.height) by (nonlinear_arith)
        requires
            0 <= row < grid_rows(t),
            e > 0,
            t.height == e * grid_rows(t) + (t.height as int % e),
            t.height as int % e >= 0,
    ;
    assert(col * e >= 0) by (nonlinear_arith)
        requires
            col >= 0,
            e > 0,
    ;
    assert(row * e >= 0) by (nonlinear_arith)
        requires
            row >= 0,
            e > 0,
    ;
}

/// Row-major cell order: an earlier cell has a smaller linear position.
proof fn lemma_row_major_order(a: int, b: int, row: int, col: int, w: int)
    requires
        0 <= b < w,
        0 <= col,
        a < row || (a == row && b < col),
    ensures
        a * w + b < row * w + col,
{
    assert(a * w + b < row * w + col) by (nonlinear_arith)
        requires
            0 <= b < w,
            0 <= col,
            a < row || (a == row && b < col),
    ;
}

/// Plan every grid cell of the target, row-major, against the index: sample
/// the cell's corner pixel, take the nearest key, and pick among its tiles
/// with the cell's own draw. Supplying the draws per cell makes the plan a
/// pure function of its inputs: any partitioning of the grid that keeps the
/// per-cell draws selects the same tiles.
pub fn plan_cells(target: &Bitmap, db: &ColorIndex, rands: &Vec<u64>) -> (plan: Vec<TileRef>)
    requires
        target.wf(),
        db.wf(),
        rands@.len() == grid_cols(*target) * grid_rows(*target),
    ensures
        plan_matches(plan@, *target, *db, rands@),
{
    let wi: u32 = target.width / TILE_EDGE;
    let hi: u32 = target.height / TILE_EDGE;
    let n = rands.len();
    let mut plan: Vec<TileRef> = Vec::new();
    for row in 0..hi
        invariant
            wi == grid_cols(*target),
            hi == grid_rows(*target),
            n == rands@.len(),
            n == wi * hi,
            target.wf(),
            db.wf(),
            plan@.len() == row * wi,
            forall|a: int, b: int|
                0 <= a < row && 0 <= b < wi ==> (#[trigger] plan@[a * wi + b]).path@
                    == cell_choice(*target, *db, rands@[a * wi + b], b, a),
    {
        for col in 0..wi
            invariant
                wi == grid_cols(*target),
                hi == grid_rows(*target),
                n == rands@.len(),
                n == wi * hi,
                row < hi,
                target.wf(),
                db.wf(),
                plan@.len() == row * wi + col,
                forall|a: int, b: int|
                    0 <= a < hi && 0 <= b < wi && (a < row || (a == row && b < col)) ==> (
                    #[trigger] plan@[a * wi + b]).path@ == cell_choice(
                        *target,
                        *db,
                        rands@[a * wi + b],
                        b,
                        a,
                    ),
        {
            proof {
                lemma_cell_corner(*target, col as int, row as int);
                lemma_grid_index(col as int, row as int, wi as int, hi as int);
            }
            let px = target.get_pixel(col * TILE_EDGE, row * TILE_EDGE);
            let k = nearest_entry_for(&px, db);
            let refs = &db.entries[k].refs;
            let m = refs.len();
            let cell: usize = (row as usize) * (wi as usize) + (col as usize);
            let draw = rands[cell];
            let pick: usize = (draw % (m as u64)) as usize;
            let tile = refs[pick].clone();
            let ghost plan0 = plan@;
            plan.push(tile);
            proof {
                let ghost t = *target;
                assert(db.model()[k as int].1 == db.entries@[k as int].refs@.map(
                    |j: int, r: TileRef| r.path@,
                ));
                assert(plan@.last().path@ == cell_choice(
                    t,
                    *db,
                    rands@[cell as int],
                    col as int,
                    row as int,
                ));
                assert forall|a: int, b: int|
                    0 <= a < hi && 0 <= b < wi && (a < row || (a == row && b < col + 1)) implies (
                #[trigger] plan@[a * wi + b]).path@ == cell_choice(
                    t,
                    *db,
                    rands@[a * wi + b],
                    b,
                    a,
                ) by {
                    lemma_grid_index(b, a, wi as int, hi as int);
                    if a * wi + b == row * wi + col {
                        lemma_grid_index_injective(b, a, col as int, row as int, wi as int);
                    } else {
                        lemma_row_major_order(a, b, row as int, col as int, wi as int);
                        assert(plan@[a * wi + b] == plan0[a * wi + b]);
                    }
                }
            }
        }
        proof {
            assert((row + 1) * wi == row * wi + wi) by (nonlinear_arith);
        }
    }
    proof {
        assert(plan@.len() == hi * wi);
        assert(hi as int * wi as int == wi as int * hi as int) by (nonlinear_arith);
    }
    plan
}

/// `nearest_entry` applied to one sampled pixel.
fn nearest_entry_for(c: &MyColor, db: &ColorIndex) -> (k: usize)
    requires
        db.wf(),
    ensures
        k < db.entries@.len(),
        k as int == best_idx(*c, db.keys(), db.keys().len() as int),
        db.entries@[k as int].refs@.len() > 0,
{
    crate::index::nearest_entry(c, db)
}

/// First grid column of a worker's quadrant (grid-cell units).
pub open spec fn quad_from_col(wi: int, q: int) -> int {
    if q == 1 || q == 3 {
        wi / 2
    } else {
        0
    }
}

/// One past the last grid column of a worker's quadrant.
pub open spec fn quad_to_col(wi: int, q: int) -> int {
    if q == 1 || q == 3 {
        wi
    } else {
        wi / 2
    }
}

/// First grid row of a worker's quadrant.
pub open spec fn quad_from_row(hi: int, q: int) -> int {
    if q >= 2 {
        hi / 2
    } else {
        0
    }
}

/// One past the last grid row of a worker's quadrant.
pub open spec fn quad_to_row(hi: int, q: int) -> int {
    if q >= 2 {
        hi
    } else {
        hi / 2
    }
}

/// Does worker `q`'s quadrant cover the grid cell `(col, row)`?
pub open spec fn in_quadrant(wi: int, hi: int, q: int, col: int, row: int) -> bool {
    &&& quad_from_col(wi, q) <= col < quad_to_col(wi, q)
    &&& quad_from_row(hi, q) <= row < quad_to_row(hi, q)
}

/// The four quadrants partition the grid: every cell belongs to exactly one
/// worker, so splitting the grid across workers neither drops nor doubles a
/// cell.
pub proof fn lemma_quadrants_partition(wi: int, hi: int, col: int, row: int)
    requires
        0 <= col < wi,
        0 <= row < hi,
    ensures
        exists|q: int| 0 <= q < 4 && #[trigger] in_quadrant(wi, hi, q, col, row),
        forall|q1: int, q2: int|
            0 <= q1 < 4 && 0 <= q2 < 4 && #[trigger] in_quadrant(wi, hi, q1, col, row)
                && #[trigger] in_quadrant(wi, hi, q2, col, row) ==> q1 == q2,
{
    let q = (if col >= wi / 2 {
        1int
    } else {
        0int
    }) + (if row >= hi / 2 {
        2int
    } else {
        0int
    });
    assert(0 <= q < 4 && in_quadrant(wi, hi, q, col, row));
}

/// A quadrant plan agrees with the whole-grid choice function at each of its
/// cells, consuming the draw of the cell's global row-major position.
pub open spec fn quad_plan_matches(
    plan: Seq<TileRef>,
    t: Bitmap,
    db: ColorIndex,
    rands: Seq<u64>,
    q: int,
) -> bool {
    let wi = grid_cols(t);
    let hi = grid_rows(t);
    let fc = quad_from_col(wi, q);
    let fr = quad_from_row(hi, q);
    let qw = quad_to_col(wi, q) - fc;
    let qh = quad_to_row(hi, q) - fr;
    &&& plan.len() == qh * qw
    &&& forall|a: int, b: int|
        0 <= a < qh && 0 <= b < qw ==> (#[trigger] plan[a * qw + b]).path@ == cell_choice(
            t,
            db,
            rands[(fr + a) * wi + (fc + b)],
            fc + b,
            fr + a,
        )
}

/// Plan one worker's quadrant of the grid. The draws are indexed by global
/// cell position, so a quadrant cell selects exactly the tile the sequential
/// whole-grid plan selects for it: partitioning does not alter the per-cell
/// matching.
pub fn plan_quadrant(target: &Bitmap, db: &ColorIndex, rands: &Vec<u64>, q: usize) -> (plan: Vec<
    TileRef,
>)
    requires
        target.wf(),
        db.wf(),
        q < 4,
        rands@.len() == grid_cols(*target) * grid_rows(*target),
    ensures
        quad_plan_matches(plan@, *target, *db, rands@, q as int),
{
    let wi: u32 = target.width / TILE_EDGE;
    let hi: u32 = target.height / TILE_EDGE;
    let fc: u32 = if q == 1 || q == 3 {
        wi / 2
    } else {
        0
    };
    let tc: u32 = if q == 1 || q == 3 {
        wi
    } else {
        wi / 2
    };
    let fr: u32 = if q >= 2 {
        hi / 2
    } else {
        0
    };
    let tr: u32 = if q >= 2 {
        hi
    } else {
        hi / 2
    };
    let qw: u32 = tc - fc;
    let qh: u32 = tr - fr;
    let n = rands.len();
    let mut plan: Vec<TileRef> = Vec::new();
    for a in 0..qh
        invariant
            wi == grid_cols(*target),
            hi == grid_rows(*target),
            rands@.len() == wi * hi,
            n == rands@.len(),
            target.wf(),
            db.wf(),
            fc == quad_from_col(wi as int, q as int),
            fr == quad_from_row(hi as int, q as int),
            qw == quad_to_col(wi as int, q as int) - fc,
            qh == quad_to_row(hi as int, q as int) - fr,
            fc + qw <= wi,
            fr + qh <= hi,
            plan@.len() == a * qw,
            forall|i: int, j: int|
                0 <= i < a && 0 <= j < qw ==> (#[trigger] plan@[i * qw + j]).path@ == cell_choice(
                    *target,
                    *db,
                    rands@[(fr + i) * wi + (fc + j)],
                    fc + j,
                    fr + i,
                ),
    {
        for b in 0..qw
            invariant
                wi == grid_cols(*target),
                hi == grid_rows(*target),
                rands@.len() == wi * hi,
                n == rands@.len(),
                target.wf(),
                db.wf(),
                a < qh,
                fc == quad_from_col(wi as int, q as int),
                fr == quad_from_row(hi as int, q as int),
                qw == quad_to_col(wi as int, q as int) - fc,
                qh == quad_to_row(hi as int, q as int) - fr,
                fc + qw <= wi,
                fr + qh <= hi,
                plan@.len() == a * qw + b,
                forall|i: int, j: int|
                    0 <= i < qh && 0 <= j < qw && (i < a || (i == a && j < b)) ==> (
                    #[trigger] plan@[i * qw + j]).path@ == cell_choice(
                        *target,
                        *db,
                        rands@[(fr + i) * wi + (fc + j)],
                        fc + j,
                        fr + i,
                    ),
        {
            let col: u32 = fc + b;
            let row: u32 = fr + a;
            proof {
                lemma_cell_corner(*target, col as int, row as int);
                lemma_grid_index(col as int, row as int, wi as int, hi as int);
            }
            let px = target.get_pixel(col * TILE_EDGE, row * TILE_EDGE);
            let k = nearest_entry_for(&px, db);
            let refs = &db.entries[k].refs;
            let m = refs.len();
            let cell: usize = (row as usize) * (wi as usize) + (col as usize);
            let draw = rands[cell];
            let pick: usize = (draw % (m as u64)) as usize;
            let tile = refs[pick].clone();
            let ghost plan0 = plan@;
            plan.push(tile);
            proof {
                let ghost t = *target;
                assert(db.model()[k as int].1 == db.entries@[k as int].refs@.map(
                    |j: int, r: TileRef| r.path@,
                ));
                assert(plan@.last().path@ == cell_choice(
                    t,
                    *db,
                    rands@[cell as int],
                    col as int,
                    row as int,
                ));
                assert forall|i: int, j: int|
                    0 <= i < qh && 0 <= j < qw && (i < a || (i == a && j < b + 1)) implies (
                #[trigger] plan@[i * qw + j]).path@ == cell_choice(
                    t,
                    *db,
                    rands@[(fr + i) * wi + (fc + j)],
                    fc + j,
                    fr + i,
                ) by {
                    lemma_grid_index(j, i, qw as int, qh as int);
                    if i * qw + j == a * qw + b {
                        lemma_grid_index_injective(j, i, b as int, a as int, qw as int);
                    } else {
                        lemma_row_major_order(i, j, a as int, b as int, qw as int);
                        assert(plan@[i * qw + j] == plan0[i * qw + j]);
                    }
                }
            }
        }
        proof {
            assert((a + 1) * qw == a * qw + qw) by (nonlinear_arith);
        }
    }
    proof {
        assert(plan@.len() == qh * qw);
    }
    plan
}

/// A quadrant's cell and the sequential plan's cell hold the same tile:
/// partitioning the grid across workers with pinned per-cell draws does not
/// change which tile any cell receives.
pub proof fn lemma_partition_preserves_choices(
    plan: Seq<TileRef>,
    qplan: Seq<TileRef>,
    t: Bitmap,
    db: ColorIndex,
    rands: Seq<u64>,
    q: int,
    a: int,
    b: int,
)
    requires
        plan_matches(plan, t, db, rands),
        quad_plan_matches(qplan, t, db, rands, q),
        0 <= q < 4,
        0 <= a < quad_to_row(grid_rows(t), q) - quad_from_row(grid_rows(t), q),
        0 <= b < quad_to_col(grid_cols(t), q) - quad_from_col(grid_cols(t), q),
    ensures
        ({
            let wi = grid_cols(t);
            let hi = grid_rows(t);
            let fc = quad_from_col(wi, q);
            let fr = quad_from_row(hi, q);
            let qw = quad_to_col(wi, q) - fc;
            qplan[a * qw + b].path@ == plan[(fr + a) * wi + (fc + b)].path@
        }),
{
    let wi = grid_cols(t);
    let hi = grid_rows(t);
    let fc = quad_from_col(wi, q);
    let fr = quad_from_row(hi, q);
    assert(0 <= fc + b < wi);
    assert(0 <= fr + a < hi);
}

/// One worker's finished quadrant, tagged with its id. Results are matched
/// by tag, never by arrival order.
#[derive(PartialEq, Eq, Debug)]
pub struct WorkerResult {
    pub id: usize,
    pub buf: Bitmap,
}

/// Did some worker with this id deliver a result?
pub open spec fn has_part(parts: Seq<WorkerResult>, q: int) -> bool {
    exists|k: int| 0 <= k < parts.len() && parts[k].id == q
}

/// The position of the first result tagged `q`, or the length when none is.
pub open spec fn part_pos(parts: Seq<WorkerResult>, q: int) -> int
    decreases parts.len(),
{
    if parts.len() == 0 {
        0
    } else if parts[0].id == q {
        0
    } else {
        1 + part_pos(parts.skip(1), q)
    }
}

/// The buffer delivered for worker id `q` (the first, if several carry the
/// same tag).
pub open spec fn part_buf(parts: Seq<WorkerResult>, q: int) -> Bitmap {
    parts[part_pos(parts, q)].buf
}

/// `part_pos` finds exactly the delivered tags, at their first occurrence.
pub proof fn lemma_part_pos(parts: Seq<WorkerResult>, q: int)
    ensures
        has_part(parts, q) ==> {
            &&& 0 <= part_pos(parts, q) < parts.len()
            &&& parts[part_pos(parts, q)].id == q
            &&& forall|j: int| 0 <= j < part_pos(parts, q) ==> (#[trigger] parts[j]).id != q
        },
        !has_part(parts, q) ==> part_pos(parts, q) == parts.len(),
    decreases parts.len(),
{
    if parts.len() > 0 && parts[0].id != q {
        let t = parts.skip(1);
        lemma_part_pos(t, q);
        assert(forall|j: int| 0 <= j < t.len() ==> #[trigger] t[j] == parts[j + 1]);
        if has_part(parts, q) {
            let w = choose|k: int| 0 <= k < parts.len() && parts[k].id == q;
            assert(t[w - 1].id == q);
            assert(has_part(t, q));
            let kt = part_pos(t, q);
            assert(parts[1 + kt] == t[kt]);
            assert forall|j: int| 0 <= j < part_pos(parts, q) implies (#[trigger] parts[j]).id
                != q by {
                if j >= 1 {
                    assert(parts[j] == t[j - 1]);
                }
            }
        } else {
            assert forall|k: int| 0 <= k < t.len() implies (#[trigger] t[k]).id != q by {
                assert(t[k] == parts[k + 1]);
            }
            assert(!has_part(t, q));
        }
    }
}

/// When exactly one result carries a tag, that result's buffer is the
/// delivered buffer for the tag, wherever in the collection it arrived.
pub proof fn lemma_part_buf_unique(parts: Seq<WorkerResult>, q: int, k: int)
    requires
        0 <= k < parts.len(),
        parts[k].id == q,
        forall|j: int| 0 <= j < parts.len() && j != k ==> (#[trigger] parts[j]).id != q,
    ensures
        has_part(parts, q),
        part_buf(parts, q) == parts[k].buf,
{
    assert(has_part(parts, q));
    lemma_part_pos(parts, q);
    let p = part_pos(parts, q);
    assert(parts[p].id == q);
    assert(p == k);
}

/// The pixel width a worker's quadrant buffer must have.
pub open spec fn quad_width(wi: int, q: int) -> int {
    (quad_to_col(wi, q) - quad_from_col(wi, q)) * edge()
}

/// The pixel height a worker's quadrant buffer must have.
pub open spec fn quad_height(hi: int, q: int) -> int {
    (quad_to_row(hi, q) - quad_from_row(hi, q)) * edge()
}

/// Worker ids below `n` all delivered well-sized results.
pub open spec fn parts_ok_upto(parts: Seq<WorkerResult>, wi: int, hi: int, n: int) -> bool {
    forall|q: int|
        0 <= q < n ==> {
            &&& #[trigger] has_part(parts, q)
            &&& part_buf(parts, q).wf()
            &&& part_buf(parts, q).width == quad_width(wi, q)
            &&& part_buf(parts, q).height == quad_height(hi, q)
        }
}

/// A complete, well-sized delivery: each of the four workers has a result of
/// exactly its quadrant's pixel extent.
pub open spec fn parts_ok(parts: Seq<WorkerResult>, wi: int, hi: int) -> bool {
    parts_ok_upto(parts, wi, hi, 4)
}

/// The worker whose quadrant covers the output pixel `(x, y)`.
pub open spec fn quad_of(wi: int, hi: int, x: int, y: int) -> int {
    (if x >= (wi / 2) * edge() {
        1int
    } else {
        0int
    }) + (if y >= (hi / 2) * edge() {
        2int
    } else {
        0int
    })
}

/// The output pixel an assembled composite holds at `(x, y)`: the covering
/// worker's buffer, read at the offset implied by that worker's id alone.
pub open spec fn assembled_pixel(
    parts: Seq<WorkerResult>,
    wi: int,
    hi: int,
    x: int,
    y: int,
) -> MyColor {
    let q = quad_of(wi, hi, x, y);
    part_buf(parts, q).pixel_at(
        x - quad_from_col(wi, q) * edge(),
        y - quad_from_row(hi, q) * edge(),
    )
}

/// Assembly is blind to arrival order: two deliveries that hand the same
/// buffer for every worker id assemble to the same composite, pixel for
/// pixel, whichever worker finished first.
pub proof fn lemma_assembly_order_blind(
    p1: Seq<WorkerResult>,
    p2: Seq<WorkerResult>,
    wi: int,
    hi: int,
)
    requires
        forall|q: int| 0 <= q < 4 ==> (#[trigger] has_part(p1, q) <==> has_part(p2, q)),
        forall|q: int|
            0 <= q < 4 && #[trigger] has_part(p1, q) ==> part_buf(p1, q) == part_buf(p2, q),
    ensures
        parts_ok(p1, wi, hi) <==> parts_ok(p2, wi, hi),
        parts_ok(p1, wi, hi) ==> forall|x: int, y: int|
            #[trigger] assembled_pixel(p1, wi, hi, x, y) == assembled_pixel(p2, wi, hi, x, y),
{
    if parts_ok(p1, wi, hi) {
        assert forall|q: int| 0 <= q < 4 implies #[trigger] has_part(p2, q) && part_buf(p2, q).wf()
            && part_buf(p2, q).width == quad_width(wi, q) && part_buf(p2, q).height == quad_height(
            hi,
            q,
        ) by {
            assert(has_part(p1, q));
            assert(part_buf(p1, q) == part_buf(p2, q));
        }
        assert(parts_ok(p2, wi, hi));
    }
    if parts_ok(p2, wi, hi) {
        assert forall|q: int| 0 <= q < 4 implies #[trigger] has_part(p1, q) && part_buf(p1, q).wf()
            && part_buf(p1, q).width == quad_width(wi, q) && part_buf(p1, q).height == quad_height(
            hi,
            q,
        ) by {
            assert(has_part(p2, q));
            assert(has_part(p1, q));
            assert(part_buf(p1, q) == part_buf(p2, q));
        }
        assert(parts_ok(p1, wi, hi));
    }
    if parts_ok(p1, wi, hi) {
        assert forall|x: int, y: int|
            #[trigger] assembled_pixel(p1, wi, hi, x, y) == assembled_pixel(p2, wi, hi, x, y) by {
            let q = quad_of(wi, hi, x, y);
            assert(0 <= q < 4);
            assert(has_part(p1, q));
        }
    }
}

/// The position of the first result tagged `q`, if any worker delivered one.
pub fn find_part(parts: &Vec<WorkerResult>, q: usize) -> (r: Option<usize>)
    ensures
        match r {
            Some(k) => {
                &&& k < parts@.len()
                &&& k as int == part_pos(parts@, q as int)
                &&& parts@[k as int].id == q
            },
            None => !has_part(parts@, q as int),
        },
{
    let n = parts.len();
    for i in 0..n
        invariant
            n == parts@.len(),
            forall|j: int| 0 <= j < i ==> (#[trigger] parts@[j]).id != q,
    {
        if parts[i].id == q {
            proof {
                assert(has_part(parts@, q as int));
                lemma_part_pos(parts@, q as int);
            }
            return Some(i);
        }
    }
    None
}

/// The cell coordinates of an output pixel lie inside the grid.
proof fn lemma_pixel_cell_bounds(x: int, y: int, wi: int, hi: int)
    requires
        0 <= x < wi * edge(),
        0 <= y < hi * edge(),
    ensures
        0 <= x / edge() < wi,
        0 <= y / edge() < hi,
        0 <= (y / edge()) * wi + (x / edge()) < hi * wi,
        0 <= (y / edge()) * wi + (x / edge()) < wi * hi,
{
    let e = edge();
    vstd::arithmetic::div_mod::lemma_fundamental_div_mod(x, e);
    vstd::arithmetic::div_mod::lemma_fundamental_div_mod(y, e);
    vstd::arithmetic::div_mod::lemma_mod_division_less_than_divisor(x, e);
    vstd::arithmetic::div_mod::lemma_mod_division_less_than_divisor(y, e);
    assert(0 <= x / e < wi && 0 <= y / e < hi) by (nonlinear_arith)
        requires
            e > 0,
            x == e * (x / e) + (x % e),
            y == e * (y / e) + (y % e),
            0 <= x % e < e,
            0 <= y % e < e,
            0 <= x < wi * e,
            0 <= y < hi * e,
    ;
    lemma_grid_index(x / e, y / e, wi, hi);
    assert(wi * hi == hi * wi) by (nonlinear_arith);
}

/// A pixel inside a cell divides back to that cell's coordinates.
proof fn lemma_cell_of_pixel(col: int, row: int, dx: int, dy: int)
    requires
        0 <= dx < edge(),
        0 <= dy < edge(),
    ensures
        (col * edge() + dx) / edge() == col,
        (col * edge() + dx) % edge() == dx,
        (row * edge() + dy) / edge() == row,
        (row * edge() + dy) % edge() == dy,
{
    vstd::arithmetic::div_mod::lemma_fundamental_div_mod_converse(
        col * edge() + dx,
        edge(),
        col,
        dx,
    );
    vstd::arithmetic::div_mod::lemma_fundamental_div_mod_converse(
        row * edge() + dy,
        edge(),
        row,
        dy,
    );
}

/// Assemble the composite from one decoded tile per grid cell, row-major:
/// tile `k` is pasted at the pixel offset of cell `k`. The output spans
/// exactly the whole cells of the grid — `TILE_EDGE` times the cell counts —
/// so a remainder strip of the target narrower than a cell is dropped.
pub fn assemble(tiles: &Vec<Bitmap>, wi: u32, hi: u32) -> (out: Bitmap)
    requires
        tiles@.len() == wi * hi,
        forall|k: int|
            0 <= k < tiles@.len() ==> {
                &&& (#[trigger] tiles@[k]).wf()
                &&& tiles@[k].width == TILE_EDGE
                &&& tiles@[k].height == TILE_EDGE
            },
        wi * edge() <= u32::MAX,
        hi * edge() <= u32::MAX,
        wi * edge() * (hi * edge()) <= usize::MAX,
    ensures
        out.wf(),
        out.width == wi * edge(),
        out.height == hi * edge(),
        forall|x: int, y: int|
            0 <= x < out.width && 0 <= y < out.height ==> #[trigger] out.pixel_at(x, y)
                == tiles@[(y / edge()) * wi + (x / edge())].pixel_at(x % edge(), y % edge()),
{
    let ow: u32 = wi * TILE_EDGE;
    let oh: u32 = hi * TILE_EDGE;
    let nt = tiles.len();
    let mut out = Bitmap::new_black(ow, oh);
    proof {
        // at entry no cell is placed yet: the processed region is empty
        assert(0 * wi == 0) by (nonlinear_arith);
    }
    for row in 0..hi
        invariant
            nt == tiles@.len(),
            nt == wi * hi,
            forall|k: int|
                0 <= k < tiles@.len() ==> {
                    &&& (#[trigger] tiles@[k]).wf()
                    &&& tiles@[k].width == TILE_EDGE
                    &&& tiles@[k].height == TILE_EDGE
                },
            ow == wi * edge(),
            oh == hi * edge(),
            out.wf(),
            out.width == ow,
            out.height == oh,
            forall|x: int, y: int|
                0 <= x < ow && 0 <= y < oh && 0 <= (y / edge()) * wi + (x / edge()) < row * wi
                    ==> #[trigger] out.pixel_at(x, y) == tiles@[(y / edge()) * wi + (
                x / edge())].pixel_at(x % edge(), y % edge()),
    {
        for col in 0..wi
            invariant
                nt == tiles@.len(),
                nt == wi * hi,
                forall|k: int|
                    0 <= k < tiles@.len() ==> {
                        &&& (#[trigger] tiles@[k]).wf()
                        &&& tiles@[k].width == TILE_EDGE
                        &&& tiles@[k].height == TILE_EDGE
                    },
                row < hi,
                ow == wi * edge(),
                oh == hi * edge(),
                out.wf(),
                out.width == ow,
                out.height == oh,
                forall|x: int, y: int|
                    0 <= x < ow && 0 <= y < oh && 0 <= (y / edge()) * wi + (x / edge()) < row * wi + col
                        ==> #[trigger] out.pixel_at(x, y) == tiles@[(y / edge()) * wi + (
                    x / edge())].pixel_at(x % edge(), y % edge()),
        {
            proof {
                lemma_grid_index(col as int, row as int, wi as int, hi as int);
                assert(col as int * edge() + edge() <= wi as int * edge() && row as int * edge()
                    + edge() <= hi as int * edge() && 0 <= col as int * edge() && 0 <= row as int
                    * edge()) by (nonlinear_arith)
                    requires
                        0 <= (col as int) < (wi as int),
                        0 <= (row as int) < (hi as int),
                        edge() > 0,
                ;
            }
            let k: usize = (row as usize) * (wi as usize) + (col as usize);
            let ghost before = out;
            out.copy_from(&tiles[k], col * TILE_EDGE, row * TILE_EDGE);
            proof {
                assert forall|x: int, y: int|
                    0 <= x < ow && 0 <= y < oh && 0 <= (y / edge()) * wi + (x / edge()) < row * wi + col
                        + 1 implies #[trigger] out.pixel_at(x, y) == tiles@[(y / edge()) * wi + (
                x / edge())].pixel_at(x % edge(), y % edge()) by {
                    let cc = x / edge();
                    let cr = y / edge();
                    lemma_pixel_cell_bounds(x, y, wi as int, hi as int);
                    vstd::arithmetic::div_mod::lemma_fundamental_div_mod(x, edge());
                    vstd::arithmetic::div_mod::lemma_fundamental_div_mod(y, edge());
                    if col * edge() <= x < col * edge() + edge() && row * edge() <= y < row
                        * edge() + edge() {
                        lemma_cell_of_pixel(col as int, row as int, x - col * edge(), y - row
                            * edge());
                        assert(cc == col && cr == row);
                        assert(out.pixel_at(x, y) == tiles@[k as int].pixel_at(
                            x - col * edge(),
                            y - row * edge(),
                        ));
                    } else {
                        assert(out.pixel_at(x, y) == before.pixel_at(x, y));
                        assert(!(cc == col && cr == row));
                        lemma_grid_index(cc, cr, wi as int, hi as int);
                        if cr * wi + cc == row * wi + col {
                            lemma_grid_index_injective(cc, cr, col as int, row as int, wi as int);
                        }
                    }
                }
            }
        }
        proof {
            assert((row + 1) * wi == row * wi + wi) by (nonlinear_arith);
        }
    }
    proof {
        assert forall|x: int, y: int| 0 <= x < ow && 0 <= y < oh implies #[trigger] out.pixel_at(
            x,
            y,
        ) == tiles@[(y / edge()) * wi + (x / edge())].pixel_at(x % edge(), y % edge()) by {
            lemma_pixel_cell_bounds(x, y, wi as int, hi as int);
        }
    }
    out
}


/// Reassemble the composite from the four workers' tagged results, in
/// whatever order they arrived: each buffer is pasted at the offset its id
/// implies, so the output is the same whichever worker finished first. A
/// missing id, a duplicate-free delivery of fewer than four results, or a
/// buffer of the wrong extent fails the whole composition with
/// `WorkerFailure` rather than leaving a partial composite.
#[verifier::rlimit(60)]
pub fn assemble_parts(parts: &Vec<WorkerResult>, wi: u32, hi: u32) -> (r: Result<
    Bitmap,
    MosaicError,
>)
    requires
        wi * edge() <= u32::MAX,
        hi * edge() <= u32::MAX,
        wi * edge() * (hi * edge()) <= usize::MAX,
    ensures
        match r {
            Ok(out) => {
                &&& parts_ok(parts@, wi as int, hi as int)
                &&& out.wf()
                &&& out.width == wi * edge()
                &&& out.height == hi * edge()
                &&& forall|x: int, y: int|
                    0 <= x < out.width && 0 <= y < out.height ==> #[trigger] out.pixel_at(x, y)
                        == assembled_pixel(parts@, wi as int, hi as int, x, y)
            },
            Err(e) => {
                &&& e == MosaicError::WorkerFailure
                &&& !parts_ok(parts@, wi as int, hi as int)
            },
        },
{
    let ow: u32 = wi * TILE_EDGE;
    let oh: u32 = hi * TILE_EDGE;
    let hw: u32 = (wi / 2) * TILE_EDGE;
    let hh: u32 = (hi / 2) * TILE_EDGE;
    let mut out = Bitmap::new_black(ow, oh);
    proof {
        assert(0 * (wi as int) == 0) by (nonlinear_arith);
    }
    for q in 0..4usize
        invariant
            ow == wi * edge(),
            oh == hi * edge(),
            wi * edge() * (hi * edge()) <= usize::MAX,
            hw == (wi as int / 2) * edge(),
            hh == (hi as int / 2) * edge(),
            out.wf(),
            out.width == ow,
            out.height == oh,
            parts_ok_upto(parts@, wi as int, hi as int, q as int),
            forall|x: int, y: int|
                0 <= x < ow && 0 <= y < oh && quad_of(wi as int, hi as int, x, y) < q
                    ==> #[trigger] out.pixel_at(x, y) == assembled_pixel(
                    parts@,
                    wi as int,
                    hi as int,
                    x,
                    y,
                ),
    {
        let found = find_part(parts, q);
        let k = match found {
            Some(k) => k,
            None => {
                return Err(MosaicError::WorkerFailure);
            },
        };
        let buf = &parts[k].buf;
        proof {
            assert((wi as int / 2) * edge() <= wi as int * edge() && (hi as int / 2) * edge()
                <= hi as int * edge() && 0 <= (wi as int / 2) * edge() && 0 <= (hi as int / 2)
                * edge()) by (nonlinear_arith)
                requires
                    edge() > 0,
                    0 <= wi as int / 2 <= wi as int,
                    0 <= hi as int / 2 <= hi as int,
            ;
        }
        let x0: u32 = if q == 1 || q == 3 {
            hw
        } else {
            0
        };
        let y0: u32 = if q >= 2 {
            hh
        } else {
            0
        };
        let ew: u32 = if q == 1 || q == 3 {
            ow - hw
        } else {
            hw
        };
        let eh: u32 = if q >= 2 {
            oh - hh
        } else {
            hh
        };
        proof {
            assert((wi as int / 2) * edge() <= wi as int * edge() && (hi as int / 2) * edge()
                <= hi as int * edge()) by (nonlinear_arith)
                requires
                    edge() > 0,
                    0 <= wi as int / 2 <= wi as int,
                    0 <= hi as int / 2 <= hi as int,
            ;
            assert(quad_width(wi as int, q as int) == ew) by (nonlinear_arith)
                requires
                    ew == (if q == 1 || q == 3 {
                        wi as int * edge() - (wi as int / 2) * edge()
                    } else {
                        (wi as int / 2) * edge()
                    }),
                    quad_width(wi as int, q as int) == (quad_to_col(wi as int, q as int)
                        - quad_from_col(wi as int, q as int)) * edge(),
                    0 <= q < 4,
                    quad_to_col(wi as int, q as int) == (if q == 1 || q == 3 {
                        wi as int
                    } else {
                        wi as int / 2
                    }),
                    quad_from_col(wi as int, q as int) == (if q == 1 || q == 3 {
                        wi as int / 2
                    } else {
                        0
                    }),
            ;
            assert(quad_height(hi as int, q as int) == eh) by (nonlinear_arith)
                requires
                    eh == (if q >= 2 {
                        hi as int * edge() - (hi as int / 2) * edge()
                    } else {
                        (hi as int / 2) * edge()
                    }),
                    quad_height(hi as int, q as int) == (quad_to_row(hi as int, q as int)
                        - quad_from_row(hi as int, q as int)) * edge(),
                    0 <= q < 4,
                    quad_to_row(hi as int, q as int) == (if q >= 2 {
                        hi as int
                    } else {
                        hi as int / 2
                    }),
                    quad_from_row(hi as int, q as int) == (if q >= 2 {
                        hi as int / 2
                    } else {
                        0
                    }),
            ;
        }
        proof {
            assert(ew as int * eh as int <= ow as int * oh as int) by (nonlinear_arith)
                requires
                    0 <= ew as int <= ow as int,
                    0 <= eh as int <= oh as int,
            ;
            assert(ow as int * oh as int <= usize::MAX) by (nonlinear_arith)
                requires
                    ow == wi * edge(),
                    oh == hi * edge(),
                    wi * edge() * (hi * edge()) <= usize::MAX,
            ;
        }
        let wok = buf.width == ew && buf.height == eh;
        let sok = buf.pixels.len() == (ew as usize) * (eh as usize);
        if !(wok && sok) {
            proof {
                lemma_part_pos(parts@, q as int);
                assert(part_buf(parts@, q as int) == parts@[k as int].buf);
                assert(!parts_ok(parts@, wi as int, hi as int));
            }
            return Err(MosaicError::WorkerFailure);
        }
        let ghost before = out;
        out.copy_from(buf, x0, y0);
        proof {
            lemma_part_pos(parts@, q as int);
            assert(has_part(parts@, q as int));
            assert(part_buf(parts@, q as int) == parts@[k as int].buf);
            assert(parts@[k as int].buf.wf());
            assert(part_buf(parts@, q as int).width == quad_width(wi as int, q as int));
            assert(part_buf(parts@, q as int).height == quad_height(hi as int, q as int));
            assert forall|x: int, y: int|
                0 <= x < ow && 0 <= y < oh && quad_of(wi as int, hi as int, x, y) < q + 1 implies
                #[trigger] out.pixel_at(x, y) == assembled_pixel(
                parts@,
                wi as int,
                hi as int,
                x,
                y,
            ) by {
                let qq = quad_of(wi as int, hi as int, x, y);
                assert(0 <= qq < 4);
                if x0 <= x < x0 + ew && y0 <= y < y0 + eh {
                    assert(qq == q);
                    assert(out.pixel_at(x, y) == buf.pixel_at(x - x0, y - y0));
                    assert(x0 == quad_from_col(wi as int, q as int) * edge()
                        && y0 == quad_from_row(hi as int, q as int) * edge())
                        by (nonlinear_arith)
                        requires
                            0 <= q < 4,
                            x0 == (if q == 1 || q == 3 {
                                (wi as int / 2) * edge()
                            } else {
                                0
                            }),
                            y0 == (if q >= 2 {
                                (hi as int / 2) * edge()
                            } else {
                                0
                            }),
                            quad_from_col(wi as int, q as int) == (if q == 1 || q == 3 {
                                wi as int / 2
                            } else {
                                0
                            }),
                            quad_from_row(hi as int, q as int) == (if q >= 2 {
                                hi as int / 2
                            } else {
                                0
                            }),
                            edge() > 0,
                    ;
                } else {
                    assert(qq != q);
                    assert(out.pixel_at(x, y) == before.pixel_at(x, y));
                }
            }
            assert forall|t: int| 0 <= t < q + 1 implies {
                &&& #[trigger] has_part(parts@, t)
                &&& part_buf(parts@, t).wf()
                &&& part_buf(parts@, t).width == quad_width(wi as int, t)
                &&& part_buf(parts@, t).height == quad_height(hi as int, t)
            } by {
                if t != q as int {
                    assert(parts_ok_upto(parts@, wi as int, hi as int, q as int));
                    assert(has_part(parts@, t));
                }
            }
            assert(parts_ok_upto(parts@, wi as int, hi as int, q as int + 1));
        }
    }
    proof {
        assert forall|x: int, y: int| 0 <= x < ow && 0 <= y < oh implies quad_of(
            wi as int,
            hi as int,
            x,
            y,
        ) < 4 by {}
    }
    Ok(out)
}

/// One uniform draw below `n`.
///
/// Relies on rand's thread-local generator and `Rng::gen_range` over the
/// half-open range `0..n`: the draw always lies below `n` (the range must
/// not be empty, hence the bound on `n`).
#[verifier::external_body]
fn random_below(n: usize) -> (r: usize)
    requires
        n > 0,
    ensures
        r < n,
{
    rand::Rng::gen_range(&mut rand::thread_rng(), 0..n)
}

/// One machine word of randomness.
///
/// Relies on rand's thread-local generator and `Rng::gen` for `u64`: nothing
/// is promised of the value.
#[verifier::external_body]
fn random_word() -> u64 {
    rand::Rng::gen(&mut rand::thread_rng())
}

/// Choose one tile among those sharing a matched color, uniformly at
/// random and independently per call: the anti-repetition device that keeps
/// a dominant color from reusing one tile everywhere. Whatever was drawn,
/// the result is one of the given tiles.
pub fn choose_tile(refs: &Vec<TileRef>) -> (t: TileRef)
    requires
        refs@.len() > 0,
    ensures
        exists|i: int| 0 <= i < refs@.len() && t.path@ == (#[trigger] refs@[i]).path@,
{
    let i = random_below(refs.len());
    let t = refs[i].clone();
    proof {
        assert(t.path@ == refs@[i as int].path@);
    }
    t
}

/// One fresh draw for every grid cell of the target. Each worker-free or
/// worker-bound plan consumes the draw at the cell's own position, so the
/// same draws give the same plan however the grid is partitioned.
pub fn draw_cell_randoms(target: &Bitmap) -> (rands: Vec<u64>)
    requires
        target.wf(),
    ensures
        rands@.len() == grid_cols(*target) * grid_rows(*target),
{
    let wi: u32 = target.width / TILE_EDGE;
    let hi: u32 = target.height / TILE_EDGE;
    let np = target.pixels.len();
    proof {
        vstd::arithmetic::div_mod::lemma_fundamental_div_mod(target.width as int, edge());
        vstd::arithmetic::div_mod::lemma_fundamental_div_mod(target.height as int, edge());
        vstd::arithmetic::div_mod::lemma_mod_division_less_than_divisor(
            target.width as int,
            edge(),
        );
        vstd::arithmetic::div_mod::lemma_mod_division_less_than_divisor(
            target.height as int,
            edge(),
        );
        assert(wi as int * hi as int <= target.width as int * target.height as int)
            by (nonlinear_arith)
            requires
                0 <= wi as int <= target.width as int,
                0 <= hi as int <= target.height as int,
        ;
        assert(0 <= wi as int <= target.width as int && 0 <= hi as int <= target.height as int)
            by (nonlinear_arith)
            requires
                edge() > 0,
                target.width == edge() * (wi as int) + (target.width as int % edge()),
                target.height == edge() * (hi as int) + (target.height as int % edge()),
                0 <= target.width as int % edge() < edge(),
                0 <= target.height as int % edge() < edge(),
                wi as int == target.width as int / edge(),
                hi as int == target.height as int / edge(),
        ;
    }
    let n: usize = (wi as usize) * (hi as usize);
    let mut rands: Vec<u64> = Vec::new();
    for i in 0..n
        invariant
            rands@.len() == i,
    {
        rands.push(random_word());
    }
    proof {
        assert(rands@.len() == wi as int * hi as int);
    }
    rands
}

/// Plan the whole grid with fresh randomness: the single-threaded
/// composition path. Every cell's tile comes from the index entry nearest
/// to the cell's sampled color; which of that entry's tiles was drawn is
/// left open, as the draws are random.
pub fn compose_plan(target: &Bitmap, db: &ColorIndex) -> (plan: Vec<TileRef>)
    requires
        target.wf(),
        db.wf(),
    ensures
        exists|rands: Seq<u64>|
            rands.len() == grid_cols(*target) * grid_rows(*target) && #[trigger] plan_matches(
                plan@,
                *target,
                *db,
                rands,
            ),
{
    let rands = draw_cell_randoms(target);
    let plan = plan_cells(target, db, &rands);
    proof {
        assert(plan_matches(plan@, *target, *db, rands@));
    }
    plan
}

/// One worker's buffer renders its quadrant of a common tile family: pixel
/// `(u, v)` of the buffer shows tile of the global cell the quadrant offset
/// implies.
pub open spec fn renders_quadrant(
    buf: Bitmap,
    tiles: Seq<Bitmap>,
    wi: int,
    hi: int,
    q: int,
) -> bool {
    forall|u: int, v: int|
        0 <= u < quad_width(wi, q) && 0 <= v < quad_height(hi, q) ==> #[trigger] buf.pixel_at(
            u,
            v,
        ) == tiles[(quad_from_row(hi, q) + v / edge()) * wi + (quad_from_col(wi, q) + u
            / edge())].pixel_at(u % edge(), v % edge())
}

/// Parallel composition equals sequential composition: when every worker's
/// delivered buffer renders its own quadrant of one family of per-cell
/// tiles, the tag-keyed reassembly shows, at every pixel, exactly what the
/// sequential whole-grid assembly of the same tiles shows. Partitioning the
/// grid across workers leaves the composite byte-identical.
pub proof fn lemma_parallel_equals_sequential(
    parts: Seq<WorkerResult>,
    tiles: Seq<Bitmap>,
    wi: int,
    hi: int,
    x: int,
    y: int,
)
    requires
        forall|q: int|
            0 <= q < 4 ==> #[trigger] has_part(parts, q) && renders_quadrant(
                part_buf(parts, q),
                tiles,
                wi,
                hi,
                q,
            ),
        0 <= wi,
        0 <= hi,
        0 <= x < wi * edge(),
        0 <= y < hi * edge(),
    ensures
        assembled_pixel(parts, wi, hi, x, y) == tiles[(y / edge()) * wi + (x / edge())].pixel_at(
            x % edge(),
            y % edge(),
        ),
{
    let e = edge();
    let q = quad_of(wi, hi, x, y);
    assert(0 <= q < 4);
    let fc = quad_from_col(wi, q);
    let fr = quad_from_row(hi, q);
    let u = x - fc * e;
    let v = y - fr * e;
    assert(0 <= wi / 2 <= wi && 0 <= hi / 2 <= hi);
    // the covering worker's quadrant really contains the pixel
    assert((wi / 2) * e + (wi - wi / 2) * e == wi * e) by (nonlinear_arith);
    assert((hi / 2) * e + (hi - hi / 2) * e == hi * e) by (nonlinear_arith);
    assert(0 <= u < quad_width(wi, q)) by (nonlinear_arith)
        requires
            e > 0,
            0 <= x < wi * e,
            u == x - fc * e,
            q == quad_of(wi, hi, x, y),
            fc == quad_from_col(wi, q),
            quad_width(wi, q) == (quad_to_col(wi, q) - fc) * e,
            quad_of(wi, hi, x, y) == (if x >= (wi / 2) * e {
                1int
            } else {
                0int
            }) + (if y >= (hi / 2) * e {
                2int
            } else {
                0int
            }),
            fc == (if q == 1 || q == 3 {
                wi / 2
            } else {
                0
            }),
            quad_to_col(wi, q) == (if q == 1 || q == 3 {
                wi
            } else {
                wi / 2
            }),
            0 <= wi / 2 <= wi,
    ;
    assert(0 <= v < quad_height(hi, q)) by (nonlinear_arith)
        requires
            e > 0,
            0 <= y < hi * e,
            v == y - fr * e,
            q == quad_of(wi, hi, x, y),
            fr == quad_from_row(hi, q),
            quad_height(hi, q) == (quad_to_row(hi, q) - fr) * e,
            quad_of(wi, hi, x, y) == (if x >= (wi / 2) * e {
                1int
            } else {
                0int
            }) + (if y >= (hi / 2) * e {
                2int
            } else {
                0int
            }),
            fr == (if q >= 2 {
                hi / 2
            } else {
                0
            }),
            quad_to_row(hi, q) == (if q >= 2 {
                hi
            } else {
                hi / 2
            }),
            0 <= hi / 2 <= hi,
    ;
    // the buffer offset divides back to the pixel's global cell
    vstd::arithmetic::div_mod::lemma_fundamental_div_mod(x, e);
    vstd::arithmetic::div_mod::lemma_fundamental_div_mod(y, e);
    vstd::arithmetic::div_mod::lemma_mod_division_less_than_divisor(x, e);
    vstd::arithmetic::div_mod::lemma_mod_division_less_than_divisor(y, e);
    assert(u == e * (x / e - fc) + (x % e)) by (nonlinear_arith)
        requires
            u == x - fc * e,
            x == e * (x / e) + (x % e),
    ;
    assert(v == e * (y / e - fr) + (y % e)) by (nonlinear_arith)
        requires
            v == y - fr * e,
            y == e * (y / e) + (y % e),
    ;
    vstd::arithmetic::div_mod::lemma_fundamental_div_mod_converse(u, e, x / e - fc, x % e);
    vstd::arithmetic::div_mod::lemma_fundamental_div_mod_converse(v, e, y / e - fr, y % e);
    assert(u / e == x / e - fc && u % e == x % e);
    assert(v / e == y / e - fr && v % e == y % e);
    assert(has_part(parts, q) && renders_quadrant(part_buf(parts, q), tiles, wi, hi, q));
    assert(part_buf(parts, q).pixel_at(u, v) == tiles[(fr + v / e) * wi + (fc + u
        / e)].pixel_at(u % e, v % e));
    assert((fr + v / e) * wi + (fc + u / e) == (y / e) * wi + (x / e));
}

} // verus!
