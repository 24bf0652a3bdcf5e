//! Uniform cell grid ("linked-list grid") for neighbour search.
//!
//! The grid is rebuilt from the particle stores every sub-step, copies the
//! particle indices it buckets, and is read-only afterwards.  Each cell keeps
//! one index list per entity; a neighbour query unions the lists of the 3x3
//! cell block around a position.

use crate::config::{DemError, B_SCALE_FACTOR};
use crate::fixed::{mag, muldiv, tdiv, SCALE};
use crate::particle::{DemDiscrete, B_KIN, B_RAD};
use vstd::prelude::*;

verus! {

/// Largest admitted number of grid cells (a memory limit).
pub const B_CELLS: i64 = 10_000_000;

/// First position of `e` in `ids`, or `-1`.
pub open spec fn find_id(ids: Seq<usize>, e: usize) -> int
    decreases ids.len(),
{
    if ids.len() == 0 {
        -1
    } else if ids[0] == e {
        0
    } else {
        let r = find_id(ids.skip(1), e);
        if r < 0 {
            -1
        } else {
            r + 1
        }
    }
}

/// `find_id` finds an occurrence exactly when one exists.
pub proof fn lemma_find_id(ids: Seq<usize>, e: usize)
    ensures
        find_id(ids, e) >= 0 <==> exists|i: int| 0 <= i < ids.len() && ids[i] == e,
        find_id(ids, e) >= 0 ==> find_id(ids, e) < ids.len() && ids[find_id(ids, e)] == e,
    decreases ids.len(),
{
    if ids.len() > 0 {
        if ids[0] == e {
        } else {
            lemma_find_id(ids.skip(1), e);
            let r = find_id(ids.skip(1), e);
            if r >= 0 {
                assert(ids.skip(1)[r] == ids[r + 1]);
            }
            if exists|i: int| 0 <= i < ids.len() && ids[i] == e {
                let i = choose|i: int| 0 <= i < ids.len() && ids[i] == e;
                assert(i > 0);
                assert(ids.skip(1)[i - 1] == e);
            }
        }
    }
}

/// One grid cell: for every entity id, the local indices of the particles of
/// that entity whose position falls in the cell.
pub struct CellGrid {
    pub ids: Vec<usize>,
    pub lists: Vec<Vec<usize>>,
}

impl CellGrid {
    /// Structural invariant: one list per id, ids pairwise distinct.
    pub open spec fn wf(&self) -> bool {
        &&& self.ids@.len() == self.lists@.len()
        &&& forall|i: int, j: int| 0 <= i < j < self.ids@.len()
            ==> self.ids@[i] != self.ids@[j]
    }

    /// The index list this cell keeps for entity `e` (empty when the entity
    /// is unknown to the cell).
    pub open spec fn list_for(&self, e: usize) -> Seq<usize> {
        if find_id(self.ids@, e) >= 0 {
            self.lists@[find_id(self.ids@, e)]@
        } else {
            Seq::empty()
        }
    }

    /// A cell that knows the given entity ids, with every list empty.
    pub fn new(keys: &Vec<usize>) -> (r: CellGrid)
        requires
            forall|i: int, j: int| 0 <= i < j < keys@.len() ==> keys@[i] != keys@[j],
        ensures
            r.wf(),
            r.ids@ == keys@,
            forall|e: usize| #[trigger] r.list_for(e) =~= Seq::<usize>::empty(),
    {
        let mut ids: Vec<usize> = Vec::new();
        let mut lists: Vec<Vec<usize>> = Vec::new();
        let mut i: usize = 0;
        while i < keys.len()
            invariant
                0 <= i <= keys@.len(),
                ids@ == keys@.take(i as int),
                lists@.len() == i,
                forall|m: int| 0 <= m < i ==> #[trigger] lists@[m]@ == Seq::<usize>::empty(),
            decreases keys@.len() - i,
        {
            ids.push(keys[i]);
            lists.push(Vec::new());
            proof {
                assert(ids@ =~= keys@.take(i as int + 1));
            }
            i = i + 1;
        }
        proof {
            assert(ids@ =~= keys@);
        }
        let r = CellGrid { ids, lists };
        proof {
            assert forall|e: usize| #[trigger] r.list_for(e) =~= Seq::<usize>::empty() by {
                lemma_find_id(r.ids@, e);
            }
        }
        r
    }

    /// Append local index `p` to the list this cell keeps for entity `e`.
    pub fn push_for(&mut self, e: usize, p: usize)
        requires
            old(self).wf(),
            find_id(old(self).ids@, e) >= 0,
        ensures
            final(self).wf(),
            final(self).ids@ == old(self).ids@,
            final(self).list_for(e) == old(self).list_for(e).push(p),
            forall|e2: usize| e2 != e ==> #[trigger] final(self).list_for(e2)
                == old(self).list_for(e2),
    {
        let ghost m = find_id(old(self).ids@, e);
        proof {
            lemma_find_id(old(self).ids@, e);
        }
        let mut idx: usize = 0;
        while idx < self.ids.len()
            invariant
                self == old(self),
                self.wf(),
                0 <= idx <= self.ids@.len(),
                forall|k: int| 0 <= k < idx ==> self.ids@[k] != e,
                m == find_id(self.ids@, e),
                0 <= m < self.ids@.len(),
                self.ids@[m] == e,
            decreases self.ids@.len() - idx,
        {
            if self.ids[idx] == e {
                proof {
                    if idx as int != m {
                        assert(self.ids@[idx as int] == self.ids@[m]);
                        assert(false);
                    }
                }
                let mut l = self.lists.remove(idx);
                l.push(p);
                self.lists.insert(idx, l);
                proof {
                    assert(self.lists@[m]@ =~= old(self).lists@[m]@.push(p));
                    assert(final_lists_ok(old(self), self, e, p, m));
                    assert(self.list_for(e) == self.lists@[m]@);
                    assert forall|e2: usize| e2 != e implies #[trigger] self.list_for(e2)
                        == old(self).list_for(e2) by {
                        lemma_find_id(self.ids@, e2);
                        let k = find_id(self.ids@, e2);
                        if k >= 0 {
                            assert(self.ids@[k] == e2);
                            assert(k != m);
                        }
                    }
                }
                return;
            }
            idx = idx + 1;
        }
        proof {
            lemma_find_id(self.ids@, e);
            assert(false);
        }
    }
}

/// Helper fact bundle for `push_for`: with `ids` unchanged and only list `m`
/// extended by `p`, every entity's view updates as stated.
pub open spec fn final_lists_ok(
    before: &CellGrid,
    after: &CellGrid,
    e: usize,
    p: usize,
    m: int,
) -> bool {
    &&& after.ids@ == before.ids@
    &&& after.lists@.len() == before.lists@.len()
    &&& after.lists@[m]@ == before.lists@[m]@.push(p)
    &&& forall|k: int| 0 <= k < before.lists@.len() && k != m
        ==> #[trigger] after.lists@[k] == before.lists@[k]
}

/// Minimum of two integers.
pub open spec fn imin(a: int, b: int) -> int {
    if a <= b {
        a
    } else {
        b
    }
}

/// Maximum of two integers.
pub open spec fn imax(a: int, b: int) -> int {
    if a >= b {
        a
    } else {
        b
    }
}

/// Least `x` among the first `n` particles of `s` (a high sentinel when
/// there are none).
pub open spec fn xmin_store(s: &DemDiscrete, n: int) -> int
    decreases n,
{
    if n <= 0 {
        B_KIN as int + 1
    } else {
        imin(xmin_store(s, n - 1), s.x@[n - 1] as int)
    }
}

/// Greatest `x` among the first `n` particles of `s`.
pub open spec fn xmax_store(s: &DemDiscrete, n: int) -> int
    decreases n,
{
    if n <= 0 {
        -(B_KIN as int) - 1
    } else {
        imax(xmax_store(s, n - 1), s.x@[n - 1] as int)
    }
}

/// Least `y` among the first `n` particles of `s`.
pub open spec fn ymin_store(s: &DemDiscrete, n: int) -> int
    decreases n,
{
    if n <= 0 {
        B_KIN as int + 1
    } else {
        imin(ymin_store(s, n - 1), s.y@[n - 1] as int)
    }
}

/// Greatest `y` among the first `n` particles of `s`.
pub open spec fn ymax_store(s: &DemDiscrete, n: int) -> int
    decreases n,
{
    if n <= 0 {
        -(B_KIN as int) - 1
    } else {
        imax(ymax_store(s, n - 1), s.y@[n - 1] as int)
    }
}

/// Greatest search radius `h` among the first `n` particles of `s` (zero
/// when there are none).
pub open spec fn hmax_store(s: &DemDiscrete, n: int) -> int
    decreases n,
{
    if n <= 0 {
        0
    } else {
        imax(hmax_store(s, n - 1), s.h@[n - 1] as int)
    }
}

/// Least `x` over all particles of the first `w` stores.
pub open spec fn xmin_world(world: Seq<&DemDiscrete>, w: int) -> int
    decreases w,
{
    if w <= 0 {
        B_KIN as int + 1
    } else {
        imin(xmin_world(world, w - 1), xmin_store(world[w - 1], world[w - 1].len as int))
    }
}

/// Greatest `x` over all particles of the first `w` stores.
pub open spec fn xmax_world(world: Seq<&DemDiscrete>, w: int) -> int
    decreases w,
{
    if w <= 0 {
        -(B_KIN as int) - 1
    } else {
        imax(xmax_world(world, w - 1), xmax_store(world[w - 1], world[w - 1].len as int))
    }
}

/// Least `y` over all particles of the first `w` stores.
pub open spec fn ymin_world(world: Seq<&DemDiscrete>, w: int) -> int
    decreases w,
{
    if w <= 0 {
        B_KIN as int + 1
    } else {
        imin(ymin_world(world, w - 1), ymin_store(world[w - 1], world[w - 1].len as int))
    }
}

/// Greatest `y` over all particles of the first `w` stores.
pub open spec fn ymax_world(world: Seq<&DemDiscrete>, w: int) -> int
    decreases w,
{
    if w <= 0 {
        -(B_KIN as int) - 1
    } else {
        imax(ymax_world(world, w - 1), ymax_store(world[w - 1], world[w - 1].len as int))
    }
}

/// Greatest search radius over all particles of the first `w` stores.
pub open spec fn hmax_world(world: Seq<&DemDiscrete>, w: int) -> int
    decreases w,
{
    if w <= 0 {
        0
    } else {
        imax(hmax_world(world, w - 1), hmax_store(world[w - 1], world[w - 1].len as int))
    }
}

/// The entity ids of the first `w` stores, in order.
pub open spec fn ids_seq(world: Seq<&DemDiscrete>, w: int) -> Seq<usize>
    decreases w,
{
    if w <= 0 {
        Seq::empty()
    } else {
        ids_seq(world, w - 1).push(world[w - 1].id)
    }
}

/// Every store is well formed and within the fixed-point working range.
pub open spec fn stores_ok(world: Seq<&DemDiscrete>) -> bool {
    forall|w: int| 0 <= w < world.len()
        ==> (#[trigger] world[w]).wf() && world[w].kin_bounded()
}

/// Entity ids are pairwise distinct.
pub open spec fn ids_distinct(world: Seq<&DemDiscrete>) -> bool {
    forall|a: int, b: int| 0 <= a < b < world.len() ==> world[a].id != world[b].id
}

/// The cell edge the grid build resolves to: the largest search radius,
/// scaled.
pub open spec fn grid_cell_size(world: Seq<&DemDiscrete>, scale: int) -> int {
    tdiv(hmax_world(world, world.len() as int) * scale, SCALE as int)
}

/// `ids_seq` lists each store's id at the store's position.
pub proof fn lemma_ids_seq(world: Seq<&DemDiscrete>, w: int)
    requires
        0 <= w <= world.len(),
    ensures
        ids_seq(world, w).len() == w,
        forall|i: int| 0 <= i < w ==> #[trigger] ids_seq(world, w)[i] == world[i].id,
    decreases w,
{
    if w > 0 {
        lemma_ids_seq(world, w - 1);
    }
}

/// Ranges of the per-store folds under the working bounds.
pub proof fn lemma_store_fold_range(s: &DemDiscrete, n: int)
    requires
        s.wf(),
        s.kin_bounded(),
        0 <= n <= s.len,
    ensures
        -(B_KIN as int) <= xmin_store(s, n) <= B_KIN as int + 1,
        -(B_KIN as int) - 1 <= xmax_store(s, n) <= B_KIN as int,
        -(B_KIN as int) <= ymin_store(s, n) <= B_KIN as int + 1,
        -(B_KIN as int) - 1 <= ymax_store(s, n) <= B_KIN as int,
        0 <= hmax_store(s, n) <= B_RAD as int,
    decreases n,
{
    if n > 0 {
        lemma_store_fold_range(s, n - 1);
        assert(s.kin_ok_at(n - 1));
    }
}

/// The per-store folds bound each particle they cover.
pub proof fn lemma_store_fold_le(s: &DemDiscrete, n: int, p: int)
    requires
        s.wf(),
        s.kin_bounded(),
        0 <= p < n <= s.len,
    ensures
        xmin_store(s, n) <= s.x@[p] as int <= xmax_store(s, n),
        ymin_store(s, n) <= s.y@[p] as int <= ymax_store(s, n),
        s.h@[p] as int <= hmax_store(s, n),
    decreases n,
{
    if p < n - 1 {
        lemma_store_fold_le(s, n - 1, p);
    }
}

/// Ranges of the world-level folds.
pub proof fn lemma_world_fold_range(world: Seq<&DemDiscrete>, w: int)
    requires
        stores_ok(world),
        0 <= w <= world.len(),
    ensures
        -(B_KIN as int) <= xmin_world(world, w) <= B_KIN as int + 1,
        -(B_KIN as int) - 1 <= xmax_world(world, w) <= B_KIN as int,
        -(B_KIN as int) <= ymin_world(world, w) <= B_KIN as int + 1,
        -(B_KIN as int) - 1 <= ymax_world(world, w) <= B_KIN as int,
        0 <= hmax_world(world, w) <= B_RAD as int,
    decreases w,
{
    if w > 0 {
        lemma_world_fold_range(world, w - 1);
        lemma_store_fold_range(world[w - 1], world[w - 1].len as int);
    }
}

/// The world-level folds bound each particle of each covered store.
pub proof fn lemma_world_fold_le(world: Seq<&DemDiscrete>, w: int, wi: int, p: int)
    requires
        stores_ok(world),
        0 <= wi < w <= world.len(),
        0 <= p < world[wi].len,
    ensures
        xmin_world(world, w) <= world[wi].x@[p] as int <= xmax_world(world, w),
        ymin_world(world, w) <= world[wi].y@[p] as int <= ymax_world(world, w),
        world[wi].h@[p] as int <= hmax_world(world, w),
    decreases w,
{
    if wi == w - 1 {
        lemma_store_fold_le(world[wi], world[wi].len as int, p);
    } else {
        lemma_world_fold_le(world, w - 1, wi, p);
    }
}

/// A positive radius fold names a particle that realises it.
pub proof fn lemma_hmax_store_witness(s: &DemDiscrete, n: int)
    requires
        0 <= n,
    ensures
        hmax_store(s, n) > 0 ==> exists|p: int| 0 <= p < n
            && #[trigger] s.h@[p] as int == hmax_store(s, n),
    decreases n,
{
    if n > 0 {
        lemma_hmax_store_witness(s, n - 1);
        if hmax_store(s, n) > 0 {
            if s.h@[n - 1] as int == hmax_store(s, n) {
                assert(0 <= n - 1 < n && s.h@[n - 1] as int == hmax_store(s, n));
            } else {
                let p = choose|p: int| 0 <= p < n - 1
                    && #[trigger] s.h@[p] as int == hmax_store(s, n - 1);
                assert(0 <= p < n && s.h@[p] as int == hmax_store(s, n));
            }
        }
    }
}

/// A positive world radius fold names a store and particle that realise it.
pub proof fn lemma_hmax_world_witness(world: Seq<&DemDiscrete>, w: int)
    requires
        0 <= w <= world.len(),
    ensures
        hmax_world(world, w) > 0 ==> exists|wi: int, p: int| 0 <= wi < w
            && 0 <= p < world[wi].len
            && #[trigger] world[wi].h@[p] as int == hmax_world(world, w),
    decreases w,
{
    if w > 0 {
        lemma_hmax_world_witness(world, w - 1);
        if hmax_world(world, w) > 0 {
            let s = world[w - 1];
            if hmax_store(s, s.len as int) == hmax_world(world, w) {
                lemma_hmax_store_witness(s, s.len as int);
                let p = choose|p: int| 0 <= p < s.len
                    && #[trigger] s.h@[p] as int == hmax_store(s, s.len as int);
                assert(0 <= w - 1 < w && 0 <= p < world[w - 1].len
                    && world[w - 1].h@[p] as int == hmax_world(world, w));
            } else {
                let (wi, p) = choose|wi: int, p: int| 0 <= wi < w - 1
                    && 0 <= p < world[wi].len
                    && #[trigger] world[wi].h@[p] as int == hmax_world(world, w - 1);
                assert(0 <= wi < w && 0 <= p < world[wi].len
                    && world[wi].h@[p] as int == hmax_world(world, w));
            }
        }
    }
}

/// The uniform grid: a padded bounding box, a cell edge `size`, and
/// `no_x_cells * no_y_cells` cells in row-major order
/// (`x_index * no_y_cells + y_index`).
pub struct LinkedListGrid {
    pub no_x_cells: usize,
    pub no_y_cells: usize,
    pub x_min: i64,
    pub x_max: i64,
    pub y_min: i64,
    pub y_max: i64,
    pub size: i64,
    pub cells: Vec<CellGrid>,
}

impl LinkedListGrid {
    /// Structural invariant: a positive cell edge, at least one cell per
    /// axis, one `CellGrid` per cell, every cell knowing the same entities,
    /// and box corners inside the working range.
    pub open spec fn wf(&self) -> bool {
        &&& 1 <= self.size
        &&& 1 <= self.no_x_cells
        &&& 1 <= self.no_y_cells
        &&& self.cells@.len() == self.no_x_cells * self.no_y_cells
        &&& self.cells@.len() <= B_CELLS
        &&& forall|c: int| 0 <= c < self.cells@.len() ==> (#[trigger] self.cells@[c]).wf()
        &&& forall|c: int| 0 <= c < self.cells@.len()
            ==> (#[trigger] self.cells@[c]).ids@ == self.cells@[0].ids@
        &&& mag(self.x_min as int) <= 2 * B_KIN as int
        &&& mag(self.y_min as int) <= 2 * B_KIN as int
    }

    /// The grid keeps lists for entity `e`.
    pub open spec fn entity_known(&self, e: usize) -> bool {
        find_id(self.cells@[0].ids@, e) >= 0
    }

    /// Column of a position: clamped to zero below the box, flooring
    /// otherwise (consistent with build-time binning).
    pub open spec fn cell_x(&self, x: int) -> int {
        if x <= self.x_min as int {
            0
        } else {
            (x - self.x_min as int) / self.size as int
        }
    }

    /// Row of a position.
    pub open spec fn cell_y(&self, y: int) -> int {
        if y <= self.y_min as int {
            0
        } else {
            (y - self.y_min as int) / self.size as int
        }
    }

    /// Linearised cell index of a position (may fall outside the cell array
    /// for positions outside the box).
    pub open spec fn cell_of(&self, x: int, y: int) -> int {
        self.cell_x(x) * self.no_y_cells as int + self.cell_y(y)
    }
}

/// The list that cell `c` keeps for the entity of store `s` is consistent
/// with the first `n` particles of `s`: indices below `n`, each binned in
/// `c`, strictly increasing.
pub open spec fn cell_list_ok(g: &LinkedListGrid, s: &DemDiscrete, n: int, c: int) -> bool {
    let l = g.cells@[c].list_for(s.id);
    &&& forall|k: int| 0 <= k < l.len() ==> 0 <= #[trigger] l[k] < n
        && g.cell_of(s.x@[l[k] as int] as int, s.y@[l[k] as int] as int) == c
    &&& forall|k1: int, k2: int| 0 <= k1 < k2 < l.len() ==> l[k1] < l[k2]
}

/// The first `n` particles of store `s` are each recorded in exactly the
/// cell their position bins to, and in no other.
pub open spec fn placed(g: &LinkedListGrid, s: &DemDiscrete, n: int) -> bool {
    &&& forall|p: int| #![trigger s.x@[p]] 0 <= p < n ==> {
        let c = g.cell_of(s.x@[p] as int, s.y@[p] as int);
        0 <= c < g.cells@.len() && g.cells@[c].list_for(s.id).contains(p as usize)
    }
    &&& forall|c: int| 0 <= c < g.cells@.len() ==> #[trigger] cell_list_ok(g, s, n, c)
}

/// No cell keeps anything yet for entity `e`.
pub open spec fn empty_for(g: &LinkedListGrid, e: usize) -> bool {
    forall|c: int| 0 <= c < g.cells@.len()
        ==> (#[trigger] g.cells@[c].list_for(e)).len() == 0
}

impl LinkedListGrid {
    /// Build the grid over every particle of every store.
    ///
    /// The cell edge is `scale` times the largest search radius `h`; the
    /// bounding box of all positions is padded by a tenth of the edge on
    /// every side.  Degenerate input (no particles, or every `h` so small
    /// that the edge truncates to zero) is reported, as is a box that would
    /// need more cells than the machine limit admits.  On success every
    /// particle index sits in exactly the cell its position bins to.
    #[verifier::loop_isolation(false)]
    #[verifier::rlimit(60)]
    pub fn new(world: &Vec<&DemDiscrete>, scale: i64) -> (r: Result<LinkedListGrid, DemError>)
        requires
            stores_ok(world@),
            ids_distinct(world@),
            0 < scale <= B_SCALE_FACTOR,
        ensures
            r is Err ==> (r matches Err(e) ==> e == DemError::DegenerateGrid
                || e == DemError::GridTooLarge),
            r matches Err(e) ==> (e == DemError::DegenerateGrid
                <==> grid_cell_size(world@, scale as int) <= 0),
            grid_cell_size(world@, scale as int) <= 0 ==> r == Result::<LinkedListGrid, DemError>::Err(DemError::DegenerateGrid),
            ({
                let size = grid_cell_size(world@, scale as int);
                let pad = tdiv(size, 10);
                let nxs = (xmax_world(world@, world@.len() as int) + pad - (xmin_world(world@,
                    world@.len() as int) - pad)) / size + 1;
                let nys = (ymax_world(world@, world@.len() as int) + pad - (ymin_world(world@,
                    world@.len() as int) - pad)) / size + 1;
                r is Ok <==> size > 0 && nxs * nys <= B_CELLS as int
            }),
            r matches Ok(g) ==> {
                &&& g.wf()
                &&& g.size as int == grid_cell_size(world@, scale as int)
                &&& g.x_min as int == xmin_world(world@, world@.len() as int)
                    - tdiv(g.size as int, 10)
                &&& g.x_max as int == xmax_world(world@, world@.len() as int)
                    + tdiv(g.size as int, 10)
                &&& g.y_min as int == ymin_world(world@, world@.len() as int)
                    - tdiv(g.size as int, 10)
                &&& g.y_max as int == ymax_world(world@, world@.len() as int)
                    + tdiv(g.size as int, 10)
                &&& g.no_x_cells as int
                    == (g.x_max as int - g.x_min as int) / g.size as int + 1
                &&& g.no_y_cells as int
                    == (g.y_max as int - g.y_min as int) / g.size as int + 1
                &&& g.cells@[0].ids@ == ids_seq(world@, world@.len() as int)
                &&& forall|w: int| 0 <= w < world@.len()
                    ==> g.entity_known((#[trigger] world@[w]).id)
                &&& forall|w: int| 0 <= w < world@.len()
                    ==> placed(&g, #[trigger] world@[w], world@[w].len as int)
            },
    {
        let nw = world.len();
        let mut x_min: i64 = B_KIN + 1;
        let mut x_max: i64 = -B_KIN - 1;
        let mut y_min: i64 = B_KIN + 1;
        let mut y_max: i64 = -B_KIN - 1;
        let mut hmax: i64 = 0;
        let mut w: usize = 0;
        while w < nw
            invariant
                0 <= w <= nw,
                x_min as int == xmin_world(world@, w as int),
                x_max as int == xmax_world(world@, w as int),
                y_min as int == ymin_world(world@, w as int),
                y_max as int == ymax_world(world@, w as int),
                hmax as int == hmax_world(world@, w as int),
            decreases nw - w,
        {
            let ent = world[w];
            proof {
                assert(world@[w as int].wf());
                lemma_world_fold_range(world@, w as int);
                lemma_store_fold_range(ent, 0);
            }
            let np = ent.len;
            let mut p: usize = 0;
            while p < np
                invariant
                    0 <= p <= np,
                    0 <= w < nw,
                    ent == world@[w as int],
                    np == ent.len,
                    x_min as int == imin(xmin_world(world@, w as int), xmin_store(ent, p as int)),
                    x_max as int == imax(xmax_world(world@, w as int), xmax_store(ent, p as int)),
                    y_min as int == imin(ymin_world(world@, w as int), ymin_store(ent, p as int)),
                    y_max as int == imax(ymax_world(world@, w as int), ymax_store(ent, p as int)),
                    hmax as int == imax(hmax_world(world@, w as int), hmax_store(ent, p as int)),
                decreases np - p,
            {
                proof {
                    assert(world@[w as int].wf());
                    assert(world@[w as int].kin_ok_at(p as int));
                }
                let xv = ent.x[p];
                if xv < x_min {
                    x_min = xv;
                }
                if xv > x_max {
                    x_max = xv;
                }
                let yv = ent.y[p];
                if yv < y_min {
                    y_min = yv;
                }
                if yv > y_max {
                    y_max = yv;
                }
                let hv = ent.h[p];
                if hv > hmax {
                    hmax = hv;
                }
                p = p + 1;
            }
            w = w + 1;
        }
        proof {
            lemma_world_fold_range(world@, nw as int);
            crate::fixed::lemma_mag_mul_bound(hmax as int, scale as int, B_RAD as int,
                B_SCALE_FACTOR as int);
            crate::fixed::lemma_tdiv_bound(hmax as int * scale as int, SCALE as int,
                B_RAD as int * B_SCALE_FACTOR as int);
        }
        let size = muldiv(hmax, scale, SCALE);
        if size <= 0 {
            proof {
                if hmax as int * scale as int >= 0 {
                    vstd::arithmetic::div_mod::lemma_div_is_ordered(0,
                        hmax as int * scale as int, SCALE as int);
                }
            }
            return Err(DemError::DegenerateGrid);
        }
        proof {
            // a positive cell edge names a particle, so the box is non-empty
            assert(hmax as int * scale as int > 0) by (nonlinear_arith)
                requires hmax as int >= 0, scale as int > 0,
                    tdiv(hmax as int * scale as int, SCALE as int) > 0;
            assert(hmax > 0) by (nonlinear_arith)
                requires hmax as int * scale as int > 0, scale as int > 0;
            lemma_hmax_world_witness(world@, nw as int);
            let (wi, p) = choose|wi: int, p: int| 0 <= wi < nw as int
                && 0 <= p < world@[wi].len
                && #[trigger] world@[wi].h@[p] as int == hmax_world(world@, nw as int);
            lemma_world_fold_le(world@, nw as int, wi, p);
            assert(x_min <= x_max);
            assert(y_min <= y_max);
        }
        let pad = muldiv(size, 1, 10);
        proof {
            crate::fixed::lemma_tdiv_bound(size as int, 10, B_RAD as int * B_SCALE_FACTOR as int
                / SCALE as int);
        }
        let gx_min = x_min - pad;
        let gx_max = x_max + pad;
        let gy_min = y_min - pad;
        let gy_max = y_max + pad;
        let wx = gx_max - gx_min;
        let wy = gy_max - gy_min;
        proof {
            crate::fixed::lemma_tdiv_bound(wx as int, size as int, wx as int);
            crate::fixed::lemma_tdiv_bound(wy as int, size as int, wy as int);
        }
        let nx64 = muldiv(wx, 1, size) + 1;
        let ny64 = muldiv(wy, 1, size) + 1;
        proof {
            assert((nx64 as int) * (ny64 as int) <= 0x1_0000_0000_0000_0000_0000_0000)
                by (nonlinear_arith)
                requires 1 <= nx64 as int <= 0x1_0000_0000_0000, 1 <= ny64 as int <= 0x1_0000_0000_0000;
        }
        let ncells128: i128 = (nx64 as i128) * (ny64 as i128);
        if ncells128 > B_CELLS as i128 {
            return Err(DemError::GridTooLarge);
        }
        proof {
            assert(nx64 as int * ny64 as int >= nx64 as int) by (nonlinear_arith)
                requires nx64 as int >= 1, ny64 as int >= 1;
            assert(nx64 as int * ny64 as int >= ny64 as int) by (nonlinear_arith)
                requires nx64 as int >= 1, ny64 as int >= 1;
        }
        let nx: usize = nx64 as usize;
        let ny: usize = ny64 as usize;
        let ncells: usize = nx * ny;

        let mut keys: Vec<usize> = Vec::new();
        let mut w2: usize = 0;
        while w2 < nw
            invariant
                0 <= w2 <= nw,
                keys@ == ids_seq(world@, w2 as int),
            decreases nw - w2,
        {
            keys.push(world[w2].id);
            proof {
                assert(keys@ =~= ids_seq(world@, w2 as int + 1));
            }
            w2 = w2 + 1;
        }
        proof {
            lemma_ids_seq(world@, nw as int);
        }
        let mut cells: Vec<CellGrid> = Vec::new();
        let mut c: usize = 0;
        while c < ncells
            invariant
                0 <= c <= ncells,
                cells@.len() == c,
                keys@ == ids_seq(world@, nw as int),
                forall|m: int| 0 <= m < c ==> (#[trigger] cells@[m]).wf(),
                forall|m: int| 0 <= m < c ==> (#[trigger] cells@[m]).ids@ == keys@,
                forall|m: int, e: usize| 0 <= m < c
                    ==> (#[trigger] cells@[m].list_for(e)).len() == 0,
            decreases ncells - c,
        {
            let cg = CellGrid::new(&keys);
            cells.push(cg);
            c = c + 1;
        }

        let mut grid = LinkedListGrid {
            no_x_cells: nx,
            no_y_cells: ny,
            x_min: gx_min,
            x_max: gx_max,
            y_min: gy_min,
            y_max: gy_max,
            size,
            cells,
        };
        proof {
            assert(grid.wf());
            assert forall|w3: int| 0 <= w3 < nw as int
                implies grid.entity_known((#[trigger] world@[w3]).id) by {
                lemma_find_id(grid.cells@[0].ids@, world@[w3].id);
                assert(ids_seq(world@, nw as int)[w3] == world@[w3].id);
            }
        }

        let ghost gfix = (grid.no_x_cells, grid.no_y_cells, grid.x_min, grid.x_max, grid.y_min,
            grid.y_max, grid.size, grid.cells@[0].ids@);
        let mut w4: usize = 0;
        while w4 < nw
            invariant
                0 <= w4 <= nw,
                grid.wf(),
                (grid.no_x_cells, grid.no_y_cells, grid.x_min, grid.x_max, grid.y_min,
                    grid.y_max, grid.size, grid.cells@[0].ids@) == gfix,
                gfix == (nx, ny, gx_min, gx_max, gy_min, gy_max, size,
                    ids_seq(world@, nw as int)),
                grid.cells@.len() == ncells,
                ncells == nx * ny,
                nx as int == (gx_max as int - gx_min as int) / size as int + 1,
                ny as int == (gy_max as int - gy_min as int) / size as int + 1,
                gx_min as int == xmin_world(world@, nw as int) - tdiv(size as int, 10),
                gx_max as int == xmax_world(world@, nw as int) + tdiv(size as int, 10),
                gy_min as int == ymin_world(world@, nw as int) - tdiv(size as int, 10),
                gy_max as int == ymax_world(world@, nw as int) + tdiv(size as int, 10),
                forall|wd: int| 0 <= wd < w4 as int
                    ==> placed(&grid, #[trigger] world@[wd], world@[wd].len as int),
                forall|wd: int| w4 as int <= wd < nw as int
                    ==> empty_for(&grid, (#[trigger] world@[wd]).id),
                forall|w3: int| 0 <= w3 < nw as int
                    ==> grid.entity_known((#[trigger] world@[w3]).id),
            decreases nw - w4,
        {
            let ent = world[w4];
            let np = ent.len;
            let mut p: usize = 0;
            while p < np
                invariant
                    0 <= p <= np,
                    0 <= w4 < nw,
                    ent == world@[w4 as int],
                    np == ent.len,
                    grid.wf(),
                    (grid.no_x_cells, grid.no_y_cells, grid.x_min, grid.x_max, grid.y_min,
                        grid.y_max, grid.size, grid.cells@[0].ids@) == gfix,
                    gfix == (nx, ny, gx_min, gx_max, gy_min, gy_max, size,
                        ids_seq(world@, nw as int)),
                    grid.cells@.len() == ncells,
                    ncells == nx * ny,
                    nx as int == (gx_max as int - gx_min as int) / size as int + 1,
                    ny as int == (gy_max as int - gy_min as int) / size as int + 1,
                    gx_min as int == xmin_world(world@, nw as int) - tdiv(size as int, 10),
                    gx_max as int == xmax_world(world@, nw as int) + tdiv(size as int, 10),
                    gy_min as int == ymin_world(world@, nw as int) - tdiv(size as int, 10),
                    gy_max as int == ymax_world(world@, nw as int) + tdiv(size as int, 10),
                    forall|wd: int| 0 <= wd < w4 as int
                        ==> placed(&grid, #[trigger] world@[wd], world@[wd].len as int),
                    placed(&grid, world@[w4 as int], p as int),
                    forall|wd: int| (w4 as int) < wd < nw as int
                        ==> empty_for(&grid, (#[trigger] world@[wd]).id),
                    forall|w3: int| 0 <= w3 < nw as int
                        ==> grid.entity_known((#[trigger] world@[w3]).id),
                decreases np - p,
            {
                proof {
                    assert(world@[w4 as int].wf());
                    assert(world@[w4 as int].kin_ok_at(p as int));
                    lemma_world_fold_le(world@, nw as int, w4 as int, p as int);
                    crate::fixed::lemma_tdiv_bound(size as int, 10,
                        B_RAD as int * B_SCALE_FACTOR as int / SCALE as int);
                }
                let xv = ent.x[p];
                let yv = ent.y[p];
                proof {
                    vstd::arithmetic::div_mod::lemma_div_is_ordered(xv as int - gx_min as int,
                        gx_max as int - gx_min as int, size as int);
                    vstd::arithmetic::div_mod::lemma_div_is_ordered(0,
                        xv as int - gx_min as int, size as int);
                    vstd::arithmetic::div_mod::lemma_div_is_ordered(yv as int - gy_min as int,
                        gy_max as int - gy_min as int, size as int);
                    vstd::arithmetic::div_mod::lemma_div_is_ordered(0,
                        yv as int - gy_min as int, size as int);
                }
                let cx = muldiv(xv - gx_min, 1, size);
                let cy = muldiv(yv - gy_min, 1, size);
                proof {
                    assert(cx as int == grid.cell_x(xv as int));
                    assert(cy as int == grid.cell_y(yv as int));
                    assert(cx < nx64);
                    assert(cy < ny64);
                    assert((cx as int) * (ny as int) + (cy as int) < (nx as int) * (ny as int))
                        by (nonlinear_arith)
                        requires 0 <= cx as int, (cx as int) <= nx as int - 1, 0 <= cy as int,
                            (cy as int) <= ny as int - 1, 1 <= ny as int;
                    vstd::arithmetic::mul::lemma_mul_inequality(0, cx as int, ny as int);
                }
                let idx: usize = (cx as usize) * ny + (cy as usize);
                proof {
                    assert(idx as int == grid.cell_of(xv as int, yv as int));
                    assert(idx < ncells);
                    lemma_find_id(grid.cells@[idx as int].ids@, ent.id);
                    lemma_ids_seq(world@, nw as int);
                }
                let ghost gsnap = grid;
                let mut cg = grid.cells.remove(idx);
                cg.push_for(ent.id, p);
                grid.cells.insert(idx, cg);
                proof {
                    let e = ent.id;
                    let ii = idx as int;
                    assert(grid.cells@ =~= gsnap.cells@.update(ii, grid.cells@[ii]));
                    assert(grid.cells@[ii].list_for(e) == gsnap.cells@[ii].list_for(e).push(p));
                    assert(grid.cells@[ii].ids@ == gsnap.cells@[ii].ids@);
                    // scalar grid fields are untouched, so binning is unchanged
                    assert(forall|xq: int, yq: int| grid.cell_of(xq, yq)
                        == gsnap.cell_of(xq, yq));
                    // every other entity's lists are untouched everywhere
                    assert forall|c2: int, e2: usize| 0 <= c2 < grid.cells@.len() && e2 != e
                        implies #[trigger] grid.cells@[c2].list_for(e2)
                            == gsnap.cells@[c2].list_for(e2) by {
                        if c2 != ii {
                            assert(grid.cells@[c2] == gsnap.cells@[c2]);
                        }
                    }
                    // this entity's lists in the other cells are untouched
                    assert forall|c2: int| 0 <= c2 < grid.cells@.len() && c2 != ii
                        implies #[trigger] grid.cells@[c2].list_for(e)
                            == gsnap.cells@[c2].list_for(e) by {
                        assert(grid.cells@[c2] == gsnap.cells@[c2]);
                    }
                    assert(grid.wf());
                    assert(grid.cells@[0].ids@ == gsnap.cells@[0].ids@);
                    // previously processed stores keep their placement
                    assert forall|wd: int| 0 <= wd < w4 as int
                        implies placed(&grid, #[trigger] world@[wd], world@[wd].len as int) by {
                        let sd = world@[wd];
                        assert(sd.id != e);
                        assert forall|c2: int| 0 <= c2 < grid.cells@.len()
                            implies #[trigger] grid.cells@[c2].list_for(sd.id)
                                == gsnap.cells@[c2].list_for(sd.id) by {
                            if c2 != ii {
                                assert(grid.cells@[c2] == gsnap.cells@[c2]);
                            }
                        }
                        assert(placed(&gsnap, sd, sd.len as int));
                        assert forall|q: int| #![trigger sd.x@[q]] 0 <= q < sd.len as int
                            implies {
                            let cq = grid.cell_of(sd.x@[q] as int, sd.y@[q] as int);
                            0 <= cq < grid.cells@.len()
                                && grid.cells@[cq].list_for(sd.id).contains(q as usize)
                        } by {
                            let cq = gsnap.cell_of(sd.x@[q] as int, sd.y@[q] as int);
                            assert(0 <= cq < gsnap.cells@.len()
                                && gsnap.cells@[cq].list_for(sd.id).contains(q as usize));
                        }
                        assert forall|c2: int| 0 <= c2 < grid.cells@.len()
                            implies #[trigger] cell_list_ok(&grid, sd, sd.len as int, c2) by {
                            assert(cell_list_ok(&gsnap, sd, sd.len as int, c2));
                        }
                    }
                    // later stores still have empty lists
                    assert forall|wd: int| (w4 as int) < wd < nw as int
                        implies empty_for(&grid, (#[trigger] world@[wd]).id) by {
                        let ed = world@[wd].id;
                        assert(ed != e);
                        assert forall|c2: int| 0 <= c2 < grid.cells@.len()
                            implies (#[trigger] grid.cells@[c2].list_for(ed)).len() == 0 by {
                            if c2 != ii {
                                assert(grid.cells@[c2] == gsnap.cells@[c2]);
                            }
                            assert(gsnap.cells@[c2].list_for(ed).len() == 0);
                        }
                    }
                    // the current store is placed one particle further
                    assert forall|q: int| #![trigger ent.x@[q]] 0 <= q < p as int + 1
                        implies {
                        let cq = grid.cell_of(ent.x@[q] as int, ent.y@[q] as int);
                        0 <= cq < grid.cells@.len()
                            && grid.cells@[cq].list_for(e).contains(q as usize)
                    } by {
                        if q < p as int {
                            let cq = gsnap.cell_of(ent.x@[q] as int, ent.y@[q] as int);
                            assert(0 <= cq < gsnap.cells@.len()
                                && gsnap.cells@[cq].list_for(e).contains(q as usize));
                            if cq == ii {
                                let l0 = gsnap.cells@[ii].list_for(e);
                                let k = choose|k: int| 0 <= k < l0.len() && l0[k] == q as usize;
                                assert(grid.cells@[ii].list_for(e)[k] == q as usize);
                            }
                        } else {
                            let l1 = grid.cells@[ii].list_for(e);
                            assert(l1[l1.len() - 1] == p);
                            assert(l1.contains(p));
                        }
                    }
                    assert forall|c2: int| 0 <= c2 < grid.cells@.len()
                        implies #[trigger] cell_list_ok(&grid, ent, p as int + 1, c2) by {
                        assert(cell_list_ok(&gsnap, ent, p as int, c2));
                        if c2 == ii {
                            let l0 = gsnap.cells@[ii].list_for(e);
                            let l1 = grid.cells@[ii].list_for(e);
                            assert(l1 == l0.push(p));
                            assert forall|k: int| 0 <= k < l1.len() implies 0 <= #[trigger] l1[k]
                                < p as int + 1
                                && grid.cell_of(ent.x@[l1[k] as int] as int,
                                    ent.y@[l1[k] as int] as int) == c2 by {
                                if k < l0.len() {
                                    assert(l1[k] == l0[k]);
                                } else {
                                    assert(l1[k] == p);
                                }
                            }
                        }
                    }
                    assert(placed(&grid, world@[w4 as int], p as int + 1));
                }
                p = p + 1;
            }
            proof {
                assert(placed(&grid, world@[w4 as int], world@[w4 as int].len as int));
            }
            w4 = w4 + 1;
        }
        Ok(grid)
    }
}

impl CellGrid {
    /// Position of entity `e`'s list in this cell.
    pub fn find_pos(&self, e: usize) -> (ix: usize)
        requires
            self.wf(),
            find_id(self.ids@, e) >= 0,
        ensures
            ix < self.lists@.len(),
            self.lists@[ix as int]@ == self.list_for(e),
    {
        proof {
            lemma_find_id(self.ids@, e);
        }
        let ghost m = find_id(self.ids@, e);
        let mut idx: usize = 0;
        while idx < self.ids.len()
            invariant
                self.wf(),
                0 <= idx <= self.ids@.len(),
                forall|k: int| 0 <= k < idx ==> self.ids@[k] != e,
                m == find_id(self.ids@, e),
                0 <= m < self.ids@.len(),
                self.ids@[m] == e,
            decreases self.ids@.len() - idx,
        {
            if self.ids[idx] == e {
                proof {
                    if idx as int != m {
                        assert(self.ids@[idx as int] == self.ids@[m]);
                        assert(false);
                    }
                }
                return idx;
            }
            idx = idx + 1;
        }
        proof {
            assert(false);
        }
        vstd::pervasive::unreached()
    }
}

/// The nine candidate cell indices of the probe, in probe order: the cell
/// itself, then the offsets -1, +1, -ny, -(ny-1), -(ny+1), +ny, +(ny-1),
/// +(ny+1) of the linearised index.
pub open spec fn probe_candidates(idx: int, ny: int) -> Seq<int> {
    seq![idx, idx - 1, idx + 1, idx - ny, idx - ny + 1, idx - ny - 1, idx + ny, idx + ny - 1,
        idx + ny + 1]
}

/// Keep the candidates that land inside the cell array, first occurrence
/// only, in order.
pub open spec fn dedup_valid(cands: Seq<int>, ncells: int) -> Seq<int>
    decreases cands.len(),
{
    if cands.len() == 0 {
        Seq::empty()
    } else {
        let rest = dedup_valid(cands.drop_last(), ncells);
        let c = cands.last();
        if 0 <= c < ncells && !rest.contains(c) {
            rest.push(c)
        } else {
            rest
        }
    }
}

/// The distinct valid cells a query at `(x, y)` probes.
pub open spec fn probe_cells(g: &LinkedListGrid, x: int, y: int) -> Seq<int> {
    dedup_valid(probe_candidates(g.cell_of(x, y), g.no_y_cells as int), g.cells@.len() as int)
}

/// The concatenation of entity `e`'s lists over the probed cells, in probe
/// order.
pub open spec fn gather(g: &LinkedListGrid, probes: Seq<int>, e: usize) -> Seq<usize>
    decreases probes.len(),
{
    if probes.len() == 0 {
        Seq::empty()
    } else {
        gather(g, probes.drop_last(), e) + g.cells@[probes.last()].list_for(e)
    }
}

/// All probed cells are valid.
pub proof fn lemma_dedup_valid_range(cands: Seq<int>, ncells: int)
    ensures
        dedup_valid(cands, ncells).len() <= cands.len(),
        forall|k: int| 0 <= k < dedup_valid(cands, ncells).len()
            ==> 0 <= #[trigger] dedup_valid(cands, ncells)[k] < ncells,
    decreases cands.len(),
{
    if cands.len() > 0 {
        lemma_dedup_valid_range(cands.drop_last(), ncells);
    }
}

/// A gather over lists that `cell_list_ok` bounds has at most nine list
/// lengths of `n` each.
pub proof fn lemma_gather_len(g: &LinkedListGrid, probes: Seq<int>, s: &DemDiscrete, n: int)
    requires
        forall|c: int| 0 <= c < g.cells@.len() ==> #[trigger] cell_list_ok(g, s, n, c),
        forall|k: int| 0 <= k < probes.len() ==> 0 <= #[trigger] probes[k] < g.cells@.len(),
        0 <= n,
    ensures
        gather(g, probes, s.id).len() <= probes.len() * n,
    decreases probes.len(),
{
    if probes.len() > 0 {
        lemma_gather_len(g, probes.drop_last(), s, n);
        let c = probes.last();
        assert(cell_list_ok(g, s, n, c));
        let l = g.cells@[c].list_for(s.id);
        lemma_increasing_list_len(l, n);
        assert((probes.len() - 1) * n + n == probes.len() * n) by (nonlinear_arith);
    }
}

/// A strictly increasing list of indices below `n` has at most `n` entries.
pub proof fn lemma_increasing_list_len(l: Seq<usize>, n: int)
    requires
        0 <= n,
        forall|k: int| 0 <= k < l.len() ==> 0 <= #[trigger] l[k] < n,
        forall|k1: int, k2: int| 0 <= k1 < k2 < l.len() ==> l[k1] < l[k2],
    ensures
        l.len() <= n,
    decreases l.len(),
{
    if l.len() > 0 {
        assert(0 <= l[l.len() - 1] < n);
        let prefix = l.drop_last();
        assert forall|k: int| 0 <= k < prefix.len()
            implies 0 <= #[trigger] prefix[k] < n - 1 by {
            assert(prefix[k] == l[k]);
            assert(l[k] < l[l.len() - 1]);
        }
        assert forall|k1: int, k2: int| 0 <= k1 < k2 < prefix.len()
            implies prefix[k1] < prefix[k2] by {
            assert(prefix[k1] == l[k1]);
            assert(prefix[k2] == l[k2]);
        }
        lemma_increasing_list_len(prefix, n - 1);
    }
}

/// Indices in the 3x3 neighbourhood of a position, flattened in probe
/// order: each valid probed cell contributes its whole list for the entity,
/// cells outside the array are skipped, no cell is read twice.
#[verifier::loop_isolation(false)]
pub fn get_neighbours_ll(pos: [i64; 2], grid: &LinkedListGrid, src_id: &usize) -> (r: Vec<
    usize,
>)
    requires
        grid.wf(),
        grid.entity_known(*src_id),
        mag(pos[0] as int) <= B_KIN as int,
        mag(pos[1] as int) <= B_KIN as int,
    ensures
        r@ == gather(grid, probe_cells(grid, pos[0] as int, pos[1] as int), *src_id),
{
    let cx: i64 = if pos[0] <= grid.x_min {
        0
    } else {
        proof {
            vstd::arithmetic::div_mod::lemma_div_is_ordered(0, pos[0] as int - grid.x_min as int,
                grid.size as int);
            crate::fixed::lemma_tdiv_bound(pos[0] as int - grid.x_min as int, grid.size as int,
                3 * B_KIN as int);
        }
        muldiv(pos[0] - grid.x_min, 1, grid.size)
    };
    let cy: i64 = if pos[1] <= grid.y_min {
        0
    } else {
        proof {
            vstd::arithmetic::div_mod::lemma_div_is_ordered(0, pos[1] as int - grid.y_min as int,
                grid.size as int);
            crate::fixed::lemma_tdiv_bound(pos[1] as int - grid.y_min as int, grid.size as int,
                3 * B_KIN as int);
        }
        muldiv(pos[1] - grid.y_min, 1, grid.size)
    };
    let ny: i128 = grid.no_y_cells as i128;
    proof {
        assert((grid.no_y_cells as int) <= (grid.no_x_cells as int) * (grid.no_y_cells as int))
            by (nonlinear_arith)
            requires 1 <= grid.no_x_cells as int, 0 <= grid.no_y_cells as int;
        assert((cx as int) * (ny as int) <= 3_000_000_000_000 * 10_000_000)
            by (nonlinear_arith)
            requires 0 <= cx as int <= 3_000_000_000_000, 0 <= ny as int <= 10_000_000;
    }
    let idx: i128 = (cx as i128) * ny + (cy as i128);
    let ghost cand_spec = probe_candidates(grid.cell_of(pos[0] as int, pos[1] as int),
        grid.no_y_cells as int);
    let mut cands: Vec<i128> = Vec::new();
    cands.push(idx);
    cands.push(idx - 1);
    cands.push(idx + 1);
    cands.push(idx - ny);
    cands.push(idx - ny + 1);
    cands.push(idx - ny - 1);
    cands.push(idx + ny);
    cands.push(idx + ny - 1);
    cands.push(idx + ny + 1);
    proof {
        assert(idx as int == grid.cell_of(pos[0] as int, pos[1] as int));
        assert(cands@.len() == 9);
        assert(forall|k: int| 0 <= k < 9 ==> #[trigger] cands@[k] as int == cand_spec[k]);
    }
    let ncells: i128 = grid.cells.len() as i128;
    let mut probed: Vec<i128> = Vec::new();
    let ghost mut pspec = Seq::<int>::empty();
    let mut out: Vec<usize> = Vec::new();
    let mut k: usize = 0;
    while k < 9
        invariant
            0 <= k <= 9,
            pspec == dedup_valid(cand_spec.take(k as int), grid.cells@.len() as int),
            probed@.len() == pspec.len(),
            forall|m: int| 0 <= m < pspec.len() ==> #[trigger] probed@[m] as int == pspec[m],
            out@ == gather(grid, pspec, *src_id),
        decreases 9 - k,
    {
        let c = cands[k];
        proof {
            assert(cand_spec.take(k as int + 1).drop_last() =~= cand_spec.take(k as int));
            assert(cand_spec.take(k as int + 1).last() == cand_spec[k as int]);
        }
        if 0 <= c && c < ncells {
            let mut seen = false;
            let mut m: usize = 0;
            while m < probed.len()
                invariant
                    0 <= m <= probed@.len(),
                    seen == exists|j: int| 0 <= j < m && #[trigger] probed@[j] == c,
                decreases probed@.len() - m,
            {
                if probed[m] == c {
                    seen = true;
                }
                m = m + 1;
            }
            proof {
                if seen {
                    let j = choose|j: int| 0 <= j < probed@.len() && #[trigger] probed@[j] == c;
                    assert(pspec[j] == c as int);
                    assert(pspec.contains(c as int));
                } else {
                    if pspec.contains(c as int) {
                        let j = choose|j: int| 0 <= j < pspec.len()
                            && #[trigger] pspec[j] == c as int;
                        assert(probed@[j] as int == c as int);
                        assert(probed@[j] == c);
                        assert(false);
                    }
                }
            }
            if !seen {
                probed.push(c);
                proof {
                    pspec = pspec.push(c as int);
                }
                let ci = c as usize;
                let li = grid.cells[ci].find_pos(*src_id);
                let cell = &grid.cells[ci];
                out.extend_from_slice(cell.lists[li].as_slice());
                proof {
                    assert(grid.cells@[ci as int].ids@ == grid.cells@[0].ids@);
                    assert(pspec.drop_last() =~= dedup_valid(cand_spec.take(k as int),
                        grid.cells@.len() as int));
                    assert(out@ == gather(grid, pspec, *src_id));
                }
            }
        }
        k = k + 1;
    }
    proof {
        assert(cand_spec.take(9) =~= cand_spec);
    }
    out
}

/// Every index a gather yields is a valid particle index of the store.
pub proof fn lemma_gather_elems(g: &LinkedListGrid, probes: Seq<int>, s: &DemDiscrete, n: int)
    requires
        forall|c: int| 0 <= c < g.cells@.len() ==> #[trigger] cell_list_ok(g, s, n, c),
        forall|k: int| 0 <= k < probes.len() ==> 0 <= #[trigger] probes[k] < g.cells@.len(),
    ensures
        forall|k: int| 0 <= k < gather(g, probes, s.id).len()
            ==> 0 <= #[trigger] gather(g, probes, s.id)[k] < n,
    decreases probes.len(),
{
    if probes.len() > 0 {
        lemma_gather_elems(g, probes.drop_last(), s, n);
        let c = probes.last();
        assert(cell_list_ok(g, s, n, c));
        let pre = gather(g, probes.drop_last(), s.id);
        let l = g.cells@[c].list_for(s.id);
        assert forall|k: int| 0 <= k < gather(g, probes, s.id).len()
            implies 0 <= #[trigger] gather(g, probes, s.id)[k] < n by {
            if k < pre.len() {
                assert(gather(g, probes, s.id)[k] == pre[k]);
            } else {
                assert(gather(g, probes, s.id)[k] == l[k - pre.len()]);
            }
        }
    }
}

/// The probed cells are pairwise distinct.
pub proof fn lemma_dedup_valid_no_dup(cands: Seq<int>, ncells: int)
    ensures
        forall|a: int, b: int| 0 <= a < b < dedup_valid(cands, ncells).len()
            ==> dedup_valid(cands, ncells)[a] != dedup_valid(cands, ncells)[b],
    decreases cands.len(),
{
    if cands.len() > 0 {
        lemma_dedup_valid_no_dup(cands.drop_last(), ncells);
        let rest = dedup_valid(cands.drop_last(), ncells);
        let c = cands.last();
        if 0 <= c < ncells && !rest.contains(c) {
            assert forall|a: int, b: int| 0 <= a < b < dedup_valid(cands, ncells).len()
                implies dedup_valid(cands, ncells)[a] != dedup_valid(cands, ncells)[b] by {
                if b < rest.len() {
                    assert(rest[a] != rest[b]);
                } else {
                    assert(dedup_valid(cands, ncells)[b] == c);
                    assert(dedup_valid(cands, ncells)[a] == rest[a]);
                    assert(rest.contains(rest[a]));
                }
            }
        }
    }
}

/// Grid bucketing, in full: for a store the grid was built over, a gather
/// over distinct valid probes returns a particle exactly when the cell its
/// position bins to is among the probes.  The neighbour query is complete
/// over its 3x3 block and returns nothing from elsewhere.
pub proof fn lemma_gather_membership(
    g: &LinkedListGrid,
    probes: Seq<int>,
    s: &DemDiscrete,
    p: usize,
)
    requires
        placed(g, s, s.len as int),
        (p as int) < s.len,
        forall|m: int| 0 <= m < probes.len() ==> 0 <= #[trigger] probes[m] < g.cells@.len(),
    ensures
        gather(g, probes, s.id).contains(p) <==> exists|m: int| 0 <= m < probes.len()
            && g.cell_of(s.x@[p as int] as int, s.y@[p as int] as int) == #[trigger] probes[m],
    decreases probes.len(),
{
    let ga = gather(g, probes, s.id);
    let cp = g.cell_of(s.x@[p as int] as int, s.y@[p as int] as int);
    if probes.len() == 0 {
    } else {
        let pp = probes.drop_last();
        assert(forall|m: int| 0 <= m < pp.len() ==> pp[m] == probes[m]);
        lemma_gather_membership(g, pp, s, p);
        let pre = gather(g, pp, s.id);
        let c = probes.last();
        let l = g.cells@[c].list_for(s.id);
        assert(cell_list_ok(g, s, s.len as int, c));
        if ga.contains(p) {
            let a = choose|a: int| 0 <= a < ga.len() && ga[a] == p;
            if a < pre.len() {
                assert(pre[a] == p);
                assert(pre.contains(p));
                let m = choose|m: int| 0 <= m < pp.len() && cp == pp[m];
                assert(cp == probes[m]);
            } else {
                assert(ga[a] == l[a - pre.len()]);
                assert(cp == c);
                assert(cp == probes[probes.len() - 1]);
            }
        }
        if exists|m: int| 0 <= m < probes.len() && cp == #[trigger] probes[m] {
            let m = choose|m: int| 0 <= m < probes.len() && cp == probes[m];
            if m < probes.len() - 1 {
                assert(cp == pp[m]);
                assert(pre.contains(p));
                let a = choose|a: int| 0 <= a < pre.len() && pre[a] == p;
                assert(ga[a] == p);
                assert(ga.contains(p));
            } else {
                assert(cp == c);
                assert(g.cells@[cp].list_for(s.id).contains(p));
                let k = choose|k: int| 0 <= k < l.len() && l[k] == p;
                assert(ga[pre.len() + k] == p);
                assert(ga.contains(p));
            }
        }
    }
}

}
