use vstd::prelude::*;
use crate::physical::in_i32;

verus! {

/// The identity of a game object; `0` is the nil identity.
#[derive(Clone, Copy, Debug, PartialEq, Eq, Structural)]
pub struct Id {
    pub value: u64,
}

impl Id {
    /// The nil identity, which owns free cells.
    pub fn nil() -> (r: Id)
        ensures
            r == nil_id(),
    {
        Id { value: 0 }
    }
}

pub open spec fn nil_id() -> Id {
    Id { value: 0 }
}

/// The occupancy grid: `width * height` cells in row-major order, each
/// recording whether it is obstructed and by which object.
pub struct GridMap {
    pub width: u32,
    pub height: u32,
    pub storage: Vec<(bool, Id)>,
}

/// `true` when the cell lies inside a grid of `width` by `height`, the
/// bounds being read as `i32` (as the cell coordinates are).
pub open spec fn in_grid(width: u32, height: u32, c: (i32, i32)) -> bool {
    &&& c.0 >= 0
    &&& c.1 >= 0
    &&& c.0 < width as i32
    &&& c.1 < height as i32
}

/// The storage index of a cell: `x + y * width`.
pub open spec fn cell_index(width: u32, c: (i32, i32)) -> int {
    c.0 + c.1 * (width as i32)
}

/// `true` when the index of cell `c` can be computed in `i32` and names an
/// existing storage slot.
pub open spec fn indexable(map: GridMap, c: (i32, i32)) -> bool {
    indexable_in(map.width, map.storage.len() as nat, c)
}

/// `true` when the index of cell `c` in a grid of the given width can be
/// computed in `i32` and is below `len`.
pub open spec fn indexable_in(width: u32, len: nat, c: (i32, i32)) -> bool {
    &&& in_i32(c.1 * (width as i32))
    &&& in_i32(cell_index(width, c))
    &&& 0 <= cell_index(width, c) < len
}

/// `storage` with every slot covered by an in-grid cell of `cells` marked
/// as obstructed by `id`.
pub open spec fn marked(storage: Seq<(bool, Id)>, width: u32, height: u32, cells: Seq<(i32, i32)>, id: Id) -> Seq<(bool, Id)> {
    Seq::new(storage.len(), |k: int| if covers(width, height, cells, k) { (true, id) } else { storage[k] })
}

/// The storage of a grid of `width` by `height` rebuilt from the objects
/// `objs` (each its cells and its identity): cleared, then every object
/// marked in turn. It depends on nothing the grid held before.
pub open spec fn rebuilt(width: u32, height: u32, objs: Seq<(Seq<(i32, i32)>, Id)>) -> Seq<(bool, Id)>
    decreases objs.len(),
{
    if objs.len() == 0 {
        cleared_storage(width, height)
    } else {
        marked(rebuilt(width, height, objs.drop_last()), width, height, objs.last().0, objs.last().1)
    }
}

/// The objects handed to a rebuild, each as its cells and its identity.
pub open spec fn placed_view(placed: Seq<(Vec<(i32, i32)>, Id)>) -> Seq<(Seq<(i32, i32)>, Id)> {
    placed.map_values(|e: (Vec<(i32, i32)>, Id)| (e.0@, e.1))
}

/// `true` when every in-grid cell of every object has an index that
/// computes in `i32` and is below `width * height`.
pub open spec fn objects_markable(width: u32, height: u32, objs: Seq<(Seq<(i32, i32)>, Id)>) -> bool {
    forall|i: int, j: int| 0 <= i < objs.len() && 0 <= j < objs[i].0.len() && in_grid(width, height, #[trigger] objs[i].0[j])
        ==> indexable_in(width, (width * height) as nat, objs[i].0[j])
}

/// The storage of a freshly cleared grid: every cell free and owned by nil.
pub open spec fn cleared_storage(width: u32, height: u32) -> Seq<(bool, Id)> {
    Seq::new((width * height) as nat, |k: int| (false, nil_id()))
}

/// `true` when some in-grid cell of `cells` has storage index `k`.
pub open spec fn covers(width: u32, height: u32, cells: Seq<(i32, i32)>, k: int) -> bool {
    exists|j: int| 0 <= j < cells.len() && in_grid(width, height, #[trigger] cells[j]) && cell_index(width, cells[j]) == k
}

/// What a rebuilt grid holds in slot `k`, whatever the grid held before:
/// there are `width * height` slots; a slot no object covers is free and
/// owned by nil; a slot some object covers is obstructed; a slot the last
/// object covers is owned by it.
pub proof fn lemma_rebuilt_cells(width: u32, height: u32, objs: Seq<(Seq<(i32, i32)>, Id)>, k: int)
    requires
        0 <= k < width * height,
    ensures
        rebuilt(width, height, objs).len() == width * height,
        (forall|i: int| 0 <= i < objs.len() ==> !covers(width, height, #[trigger] objs[i].0, k))
            ==> rebuilt(width, height, objs)[k] == (false, nil_id()),
        (exists|i: int| 0 <= i < objs.len() && covers(width, height, #[trigger] objs[i].0, k))
            ==> rebuilt(width, height, objs)[k].0,
        objs.len() > 0 && covers(width, height, objs.last().0, k)
            ==> rebuilt(width, height, objs)[k] == (true, objs.last().1),
    decreases objs.len(),
{
    if objs.len() > 0 {
        let rest = objs.drop_last();
        lemma_rebuilt_cells(width, height, rest, k);
        let last = objs.last();
        assert forall|i: int| 0 <= i < rest.len() implies #[trigger] rest[i] == objs[i] by {}
        if forall|i: int| 0 <= i < objs.len() ==> !covers(width, height, #[trigger] objs[i].0, k) {
            assert(!covers(width, height, objs[objs.len() - 1].0, k));
            assert forall|i: int| 0 <= i < rest.len() implies !covers(width, height, #[trigger] rest[i].0, k) by {
                assert(rest[i] == objs[i]);
                assert(!covers(width, height, objs[i].0, k));
            }
        }
        if exists|i: int| 0 <= i < objs.len() && covers(width, height, #[trigger] objs[i].0, k) {
            let i = choose|i: int| 0 <= i < objs.len() && covers(width, height, #[trigger] objs[i].0, k);
            if i < rest.len() {
                assert(rest[i] == objs[i]);
                assert(covers(width, height, rest[i].0, k));
            } else {
                assert(objs[i] == last);
            }
        }
    } else {
        assert(cleared_storage(width, height)[k] == (false, nil_id()));
    }
}

/// Rebuilding two grids of the same size from the same objects gives the
/// same storage, whatever each held before; in particular a second rebuild
/// leaves what the first one wrote.
pub proof fn lemma_rebuild_forgets_old_storage(first: GridMap, second: GridMap, objs: Seq<(Seq<(i32, i32)>, Id)>)
    requires
        first.width == second.width,
        first.height == second.height,
    ensures
        rebuilt(first.width, first.height, objs) == rebuilt(second.width, second.height, objs),
{
}

/// Cells are stored row by row: the origin is slot 0, a step right is the
/// next slot, and a step down skips a whole row of `width` slots.
pub proof fn lemma_cell_index_row_major(width: u32, c: (i32, i32))
    requires
        0 <= width <= i32::MAX,
    ensures
        cell_index(width, (0, 0)) == 0,
        in_i32(c.0 + 1) ==> cell_index(width, ((c.0 + 1) as i32, c.1)) == cell_index(width, c) + 1,
        in_i32(c.1 + 1) ==> cell_index(width, (c.0, (c.1 + 1) as i32)) == cell_index(width, c) + width,
{
    let w = width as i32;
    assert(w == width);
    if in_i32(c.1 + 1) {
        assert((c.1 + 1) * w == c.1 * w + w) by (nonlinear_arith);
    }
}

/// Every in-grid cell handed to `mark_cells` is covered, so it ends up
/// obstructed by the object that was marked.
pub proof fn lemma_listed_cells_covered(width: u32, height: u32, cells: Seq<(i32, i32)>)
    ensures
        forall|j: int| 0 <= j < cells.len() && in_grid(width, height, #[trigger] cells[j])
            ==> covers(width, height, cells, cell_index(width, cells[j])),
{
}

/// Distinct in-grid cells have distinct storage indices, so marking one
/// cell never obstructs another.
pub proof fn lemma_cell_index_injective(width: u32, height: u32, a: (i32, i32), b: (i32, i32))
    requires
        in_grid(width, height, a),
        in_grid(width, height, b),
        cell_index(width, a) == cell_index(width, b),
    ensures
        a == b,
{
    let w = width as i32;
    assert(a.1 == b.1) by (nonlinear_arith)
        requires
            0 <= a.0 < w,
            0 <= b.0 < w,
            a.0 + a.1 * w == b.0 + b.1 * w,
            a.1 >= 0,
            b.1 >= 0,
    {
        if a.1 < b.1 {
            assert(a.1 * w + w <= b.1 * w);
        } else if a.1 > b.1 {
            assert(b.1 * w + w <= a.1 * w);
        }
    }
}

/// `true` exactly when the index of `c` computes in `i32` and names an
/// existing storage slot of `map`.
pub fn cell_indexable(map: &GridMap, c: (i32, i32)) -> (r: bool)
    ensures
        r == indexable(*map, c),
{
    cell_indexable_in(map.width, map.storage.len(), c)
}

/// `true` exactly when the index of `c` in a grid of width `width` computes
/// in `i32` and is below `len`.
pub fn cell_indexable_in(width: u32, len: usize, c: (i32, i32)) -> (r: bool)
    ensures
        r == indexable_in(width, len as nat, c),
{
    let w: i32 = width as i32;
    proof {
        assert(-0x8000_0000 * 0x8000_0000 <= (c.1 as int) * (w as int) <= 0x8000_0000 * 0x8000_0000) by (nonlinear_arith)
            requires
                -0x8000_0000 <= c.1 <= 0x7fff_ffff,
                -0x8000_0000 <= w <= 0x7fff_ffff,
        ;
    }
    let row: i64 = (c.1 as i64) * (w as i64);
    if row < -0x8000_0000 || row > 0x7fff_ffff {
        return false;
    }
    let index: i64 = (c.0 as i64) + row;
    if index > 0x7fff_ffff || index < 0 {
        return false;
    }
    (index as usize) < len
}

/// Writes the occupancy of the physical objects into the grid.
pub struct PhysicalSystem;

impl PhysicalSystem {
    /// Frees every cell: the storage becomes `width * height` free cells
    /// owned by nil.
    pub fn clear_map(map: &mut GridMap)
        requires
            old(map).width * old(map).height <= u32::MAX,
        ensures
            final(map).width == old(map).width,
            final(map).height == old(map).height,
            final(map).storage@ == cleared_storage(old(map).width, old(map).height),
    {
        let n: u32 = map.width * map.height;
        let mut storage: Vec<(bool, Id)> = Vec::new();
        let mut k: u32 = 0;
        while k < n
            invariant
                k <= n,
                n == map.width * map.height,
                storage@ == Seq::new(k as nat, |i: int| (false, nil_id())),
            decreases n - k,
        {
            storage.push((false, Id::nil()));
            k = k + 1;
            proof {
                assert(storage@ =~= Seq::new(k as nat, |i: int| (false, nil_id())));
            }
        }
        map.storage = storage;
    }

    /// `true` exactly when every in-grid cell of `cells` has an index that
    /// computes in `i32` and names an existing slot, so that
    /// [`PhysicalSystem::mark_cells`] can mark them.
    pub fn cells_markable(map: &GridMap, cells: &Vec<(i32, i32)>) -> (r: bool)
        ensures
            r == (forall|j: int| 0 <= j < cells.len() && in_grid(map.width, map.height, #[trigger] cells@[j])
                ==> indexable(*map, cells@[j])),
    {
        let w: i32 = map.width as i32;
        let h: i32 = map.height as i32;
        let mut j: usize = 0;
        while j < cells.len()
            invariant
                j <= cells.len(),
                w == map.width as i32,
                h == map.height as i32,
                forall|i: int| 0 <= i < j && in_grid(map.width, map.height, #[trigger] cells@[i]) ==> indexable(*map, cells@[i]),
            decreases cells.len() - j,
        {
            let (x, y) = cells[j];
            proof {
                assert(cells@[j as int] == (x, y));
            }
            if x >= 0 && y >= 0 && x < w && y < h {
                if !cell_indexable(map, (x, y)) {
                    proof {
                        assert(in_grid(map.width, map.height, cells@[j as int]));
                    }
                    return false;
                }
            }
            j = j + 1;
        }
        true
    }

    /// Rebuilds the grid from the objects in `placed` (each its cells and
    /// its identity): frees every cell, then marks each object's in-grid
    /// cells in turn, so a later object owns a cell it shares with an
    /// earlier one. The result does not depend on what the grid held.
    pub fn rebuild(map: &mut GridMap, placed: &Vec<(Vec<(i32, i32)>, Id)>)
        requires
            old(map).width * old(map).height <= u32::MAX,
            objects_markable(old(map).width, old(map).height, placed_view(placed@)),
        ensures
            final(map).width == old(map).width,
            final(map).height == old(map).height,
            final(map).storage@ == rebuilt(old(map).width, old(map).height, placed_view(placed@)),
    {
        PhysicalSystem::clear_map(map);
        let ghost w = map.width;
        let ghost h = map.height;
        let ghost objs = placed_view(placed@);
        proof {
            assert(placed_view(placed@.take(0)) =~= Seq::<(Seq<(i32, i32)>, Id)>::empty());
        }
        let mut i: usize = 0;
        while i < placed.len()
            invariant
                i <= placed.len(),
                map.width == w,
                map.height == h,
                objs == placed_view(placed@),
                objects_markable(w, h, objs),
                map.storage.len() == w * h,
                map.storage@ == rebuilt(w, h, placed_view(placed@.take(i as int))),
            decreases placed.len() - i,
        {
            let entry = &placed[i];
            proof {
                assert(objs[i as int] == (entry.0@, entry.1));
                assert forall|j: int| 0 <= j < entry.0.len() && in_grid(w, h, #[trigger] entry.0@[j])
                    implies indexable(*map, entry.0@[j]) by {
                    assert(objs[i as int].0[j] == entry.0@[j]);
                }
            }
            let ghost before = map.storage@;
            PhysicalSystem::mark_cells(map, &entry.0, entry.1);
            proof {
                let pv = placed_view(placed@.take(i + 1));
                assert(pv.drop_last() =~= placed_view(placed@.take(i as int)));
                assert(pv.last() == (entry.0@, entry.1));
                assert(map.storage@ =~= marked(before, w, h, entry.0@, entry.1));
            }
            i = i + 1;
        }
        proof {
            assert(placed@.take(placed.len() as int) =~= placed@);
        }
    }

    /// `true` exactly when [`PhysicalSystem::rebuild`] can rebuild `map` from
    /// `placed`: the cell count fits a `u32` and every in-grid cell has an
    /// index that computes in `i32` and names a slot of the rebuilt grid.
    pub fn rebuild_possible(map: &GridMap, placed: &Vec<(Vec<(i32, i32)>, Id)>) -> (r: bool)
        ensures
            r == (map.width * map.height <= u32::MAX && objects_markable(map.width, map.height, placed_view(placed@))),
    {
        proof {
            assert((map.width as int) * (map.height as int) <= 0xffff_ffff * 0xffff_ffff) by (nonlinear_arith)
                requires
                    map.width <= 0xffff_ffff,
                    map.height <= 0xffff_ffff,
            ;
        }
        let n: u64 = map.width as u64 * map.height as u64;
        if n > 0xffff_ffff {
            return false;
        }
        let len: usize = n as usize;
        let w: i32 = map.width as i32;
        let h: i32 = map.height as i32;
        let ghost objs = placed_view(placed@);
        let mut i: usize = 0;
        while i < placed.len()
            invariant
                i <= placed.len(),
                len == map.width * map.height,
                w == map.width as i32,
                h == map.height as i32,
                objs == placed_view(placed@),
                forall|a: int, j: int| 0 <= a < i && 0 <= j < objs[a].0.len() && in_grid(map.width, map.height, #[trigger] objs[a].0[j])
                    ==> indexable_in(map.width, len as nat, objs[a].0[j]),
            decreases placed.len() - i,
        {
            let cells = &placed[i].0;
            proof {
                assert(objs[i as int].0 == cells@);
            }
            let mut j: usize = 0;
            while j < cells.len()
                invariant
                    i < placed.len(),
                    j <= cells.len(),
                    len == map.width * map.height,
                    w == map.width as i32,
                    h == map.height as i32,
                    objs == placed_view(placed@),
                    objs[i as int].0 == cells@,
                    forall|a: int, b: int| 0 <= a < i && 0 <= b < objs[a].0.len() && in_grid(map.width, map.height, #[trigger] objs[a].0[b])
                        ==> indexable_in(map.width, len as nat, objs[a].0[b]),
                    forall|b: int| 0 <= b < j && in_grid(map.width, map.height, #[trigger] cells@[b])
                        ==> indexable_in(map.width, len as nat, cells@[b]),
                decreases cells.len() - j,
            {
                let c = cells[j];
                if c.0 >= 0 && c.1 >= 0 && c.0 < w && c.1 < h {
                    if !cell_indexable_in(map.width, len, c) {
                        proof {
                            assert(objs[i as int].0[j as int] == c);
                            assert(in_grid(map.width, map.height, objs[i as int].0[j as int]));
                        }
                        return false;
                    }
                }
                j = j + 1;
            }
            proof {
                assert forall|a: int, b: int| 0 <= a < i + 1 && 0 <= b < objs[a].0.len() && in_grid(map.width, map.height, #[trigger] objs[a].0[b])
                    implies indexable_in(map.width, len as nat, objs[a].0[b]) by {
                    if a == i {
                        assert(objs[a].0[b] == cells@[b]);
                    }
                }
            }
            i = i + 1;
        }
        true
    }

    /// Marks the in-grid cells of `cells` as obstructed by `id`; cells
    /// outside the grid are skipped and every other cell is left as it was.
    pub fn mark_cells(map: &mut GridMap, cells: &Vec<(i32, i32)>, id: Id)
        requires
            forall|j: int| 0 <= j < cells.len() && in_grid(old(map).width, old(map).height, #[trigger] cells@[j])
                ==> indexable(*old(map), cells@[j]),
        ensures
            final(map).width == old(map).width,
            final(map).height == old(map).height,
            final(map).storage.len() == old(map).storage.len(),
            forall|k: int| 0 <= k < old(map).storage.len() ==> #[trigger] final(map).storage@[k] == (if covers(old(map).width, old(map).height, cells@, k) {
                (true, id)
            } else {
                old(map).storage@[k]
            }),
    {
        let ghost w = map.width;
        let ghost h = map.height;
        let ghost start = map.storage@;
        let mut j: usize = 0;
        while j < cells.len()
            invariant
                j <= cells.len(),
                map.width == w,
                map.height == h,
                map.storage.len() == start.len(),
                forall|i: int| 0 <= i < cells.len() && in_grid(w, h, #[trigger] cells@[i]) ==> {
                    &&& in_i32(cells@[i].1 * (w as i32))
                    &&& in_i32(cell_index(w, cells@[i]))
                    &&& 0 <= cell_index(w, cells@[i]) < start.len()
                },
                forall|k: int| 0 <= k < start.len() ==> #[trigger] map.storage@[k] == (if covers(w, h, cells@.take(j as int), k) {
                    (true, id)
                } else {
                    start[k]
                }),
            decreases cells.len() - j,
        {
            let (x, y) = cells[j];
            let ghost prev = map.storage@;
            proof {
                assert(cells@[j as int] == (x, y));
            }
            if x < 0 || y < 0 || x >= map.width as i32 || y >= map.height as i32 {
                proof {
                    assert forall|k: int| 0 <= k < start.len() implies covers(w, h, cells@.take(j + 1), k) == covers(w, h, cells@.take(j as int), k) by {
                        if covers(w, h, cells@.take(j + 1), k) {
                            let i = choose|i: int| 0 <= i < cells@.take(j + 1).len() && in_grid(w, h, #[trigger] cells@.take(j + 1)[i]) && cell_index(w, cells@.take(j + 1)[i]) == k;
                            assert(i < j);
                            assert(cells@.take(j as int)[i] == cells@.take(j + 1)[i]);
                        }
                        if covers(w, h, cells@.take(j as int), k) {
                            let i = choose|i: int| 0 <= i < cells@.take(j as int).len() && in_grid(w, h, #[trigger] cells@.take(j as int)[i]) && cell_index(w, cells@.take(j as int)[i]) == k;
                            assert(cells@.take(j + 1)[i] == cells@.take(j as int)[i]);
                        }
                    }
                }
            } else {
                let index: i32 = x + y * (map.width as i32);
                map.storage.set(index as usize, (true, id));
                proof {
                    assert forall|k: int| 0 <= k < start.len() implies #[trigger] map.storage@[k] == (if covers(w, h, cells@.take(j + 1), k) {
                        (true, id)
                    } else {
                        start[k]
                    }) by {
                        if k == index {
                            assert(cells@.take(j + 1)[j as int] == (x, y));
                            assert(covers(w, h, cells@.take(j + 1), k));
                        } else {
                            if covers(w, h, cells@.take(j + 1), k) {
                                let i = choose|i: int| 0 <= i < cells@.take(j + 1).len() && in_grid(w, h, #[trigger] cells@.take(j + 1)[i]) && cell_index(w, cells@.take(j + 1)[i]) == k;
                                assert(i < j);
                                assert(cells@.take(j as int)[i] == cells@.take(j + 1)[i]);
                            }
                            if covers(w, h, cells@.take(j as int), k) {
                                let i = choose|i: int| 0 <= i < cells@.take(j as int).len() && in_grid(w, h, #[trigger] cells@.take(j as int)[i]) && cell_index(w, cells@.take(j as int)[i]) == k;
                                assert(cells@.take(j + 1)[i] == cells@.take(j as int)[i]);
                            }
                            assert(map.storage@[k] == prev[k]);
                        }
                    }
                }
            }
            j = j + 1;
        }
        proof {
            assert(cells@.take(cells.len() as int) =~= cells@);
        }
    }
}

} // verus!
