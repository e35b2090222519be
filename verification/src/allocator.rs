//! A growable 2D bin-packing structure.
//!
//! The allocator assigns non-overlapping rectangular regions to size
//! requests within a bounded canvas, supports resizing the canvas, and can
//! rearrange (defragment) existing allocations.
//!
//! Internally it packs on shelves: horizontal bands stacked from the top of
//! the canvas. A request is placed at the cursor of the first shelf it
//! fits, or on a fresh shelf below the last one, and refused only when
//! neither is possible. A resize or rearrange pass places every live
//! allocation again in its original order and reports the ones that could
//! not be placed, so that the caller can check, and refuse to lose, any of
//! them.

use vstd::prelude::*;

use crate::geometry::{disjoint, within, Extent, Rect, MAX_DIM};

verus! {

/// Opaque identifier of a placed rectangle. Handles are allocator-internal
/// and are invalidated and replaced by resize and rearrange passes.
#[derive(Clone, Copy, Debug, PartialEq, Eq, Structural)]
pub struct AllocationHandle {
    id: u64,
}

impl AllocationHandle {
    /// The raw identifier; a fresh handle always carries an identifier
    /// larger than that of every live allocation.
    pub closed spec fn spec_id(self) -> int {
        self.id as int
    }
}

/// A placed rectangle together with the handle under which the allocator
/// currently knows it.
#[derive(Clone, Copy, Debug, PartialEq, Eq, Structural)]
pub struct Allocation {
    pub handle: AllocationHandle,
    pub rect: Rect,
}

/// One relocation performed by a resize or rearrange pass: the allocation
/// that was known under `old_handle` now lives at `new`.
#[derive(Clone, Copy, Debug, PartialEq, Eq, Structural)]
pub struct Change {
    pub old_handle: AllocationHandle,
    pub new: Allocation,
}

/// Everything a resize or rearrange pass did: the relocations, and the
/// allocations that could not be placed again and fell out of the
/// allocator.
pub struct ChangeList {
    pub changes: Vec<Change>,
    pub failures: Vec<Allocation>,
}

/// A horizontal band of the canvas. Items sit side by side from `x == 0`
/// up to `cursor`.
#[derive(Clone, Copy)]
struct Shelf {
    y: u32,
    height: u32,
    cursor: u32,
}

/// A live allocation and the shelf it sits on.
#[derive(Clone, Copy)]
struct AllocRecord {
    handle: AllocationHandle,
    rect: Rect,
    shelf: usize,
}

/// Top edge of the unused band below all shelves.
spec fn spec_used(shelves: Seq<Shelf>) -> int {
    if shelves.len() == 0 {
        0
    } else {
        shelves.last().y + shelves.last().height
    }
}

/// The shelves tile the canvas from the top, without gaps.
spec fn shelves_ok(shelves: Seq<Shelf>, canvas: Extent) -> bool {
    &&& forall|s: int|
        0 <= s < shelves.len() ==> {
            &&& (#[trigger] shelves[s]).height >= 1
            &&& shelves[s].y == if s == 0 {
                0int
            } else {
                shelves[s - 1].y + shelves[s - 1].height
            }
            &&& shelves[s].cursor <= canvas.width
        }
    &&& spec_used(shelves) <= canvas.height
}

/// A later shelf's band starts below the end of an earlier shelf's band.
proof fn lemma_shelf_monotone(shelves: Seq<Shelf>, canvas: Extent, s1: int, s2: int)
    requires
        shelves_ok(shelves, canvas),
        0 <= s1 < s2 < shelves.len(),
    ensures
        shelves[s1].y + shelves[s1].height <= shelves[s2].y,
    decreases s2 - s1,
{
    if s2 == s1 + 1 {
    } else {
        lemma_shelf_monotone(shelves, canvas, s1, s2 - 1);
    }
}

/// Every shelf's band ends at or above the used mark.
#[verifier::rlimit(50)]
proof fn lemma_shelf_end_le_used(shelves: Seq<Shelf>, canvas: Extent, s: int)
    requires
        shelves_ok(shelves, canvas),
        0 <= s < shelves.len(),
    ensures
        shelves[s].y + shelves[s].height <= spec_used(shelves),
{
    if s < shelves.len() - 1 {
        lemma_shelf_monotone(shelves, canvas, s, shelves.len() - 1);
    }
}

/// The record sits inside its shelf: same top edge, no taller than the
/// shelf, fully left of the shelf's cursor.
spec fn record_ok(r: AllocRecord, shelves: Seq<Shelf>) -> bool {
    &&& r.shelf < shelves.len()
    &&& r.rect.y == shelves[r.shelf as int].y
    &&& 1 <= r.rect.height <= shelves[r.shelf as int].height
    &&& 1 <= r.rect.width
    &&& r.rect.x + r.rect.width <= shelves[r.shelf as int].cursor
}

spec fn records_ok(records: Seq<AllocRecord>, shelves: Seq<Shelf>) -> bool {
    &&& forall|k: int| 0 <= k < records.len() ==> record_ok(#[trigger] records[k], shelves)
    &&& forall|k: int, l: int|
        #![trigger records[k], records[l]]
        0 <= k < l < records.len() && records[k].shelf == records[l].shelf ==> records[k].rect.x
            + records[k].rect.width <= records[l].rect.x
    &&& forall|k: int, l: int|
        #![trigger records[k], records[l]]
        0 <= k < l < records.len() ==> records[k].handle.spec_id() < records[l].handle.spec_id()
}

/// Well-formed records on well-formed shelves never overlap: two records of
/// one shelf are ordered left to right, records of different shelves sit in
/// disjoint bands.
proof fn lemma_records_disjoint(
    records: Seq<AllocRecord>,
    shelves: Seq<Shelf>,
    canvas: Extent,
    k: int,
    l: int,
)
    requires
        shelves_ok(shelves, canvas),
        records_ok(records, shelves),
        0 <= k < records.len(),
        0 <= l < records.len(),
        k != l,
    ensures
        disjoint(records[k].rect, records[l].rect),
{
    let a = records[k];
    let b = records[l];
    if a.shelf == b.shelf {
    } else if a.shelf < b.shelf {
        lemma_shelf_monotone(shelves, canvas, a.shelf as int, b.shelf as int);
    } else {
        lemma_shelf_monotone(shelves, canvas, b.shelf as int, a.shelf as int);
    }
}

/// A well-formed record's rectangle lies inside the canvas.
proof fn lemma_record_within(records: Seq<AllocRecord>, shelves: Seq<Shelf>, canvas: Extent, k: int)
    requires
        shelves_ok(shelves, canvas),
        records_ok(records, shelves),
        0 <= k < records.len(),
    ensures
        within(records[k].rect, canvas),
{
    lemma_shelf_end_le_used(shelves, canvas, records[k].shelf as int);
}

/// The request fits on this shelf as it stands.
spec fn shelf_fits(shelf: Shelf, canvas_width: int, size: Extent) -> bool {
    size.height <= shelf.height && shelf.cursor + size.width <= canvas_width
}

/// A ghost snapshot of one shelf: its band and its fill cursor.
pub ghost struct ShelfModel {
    pub y: u32,
    pub height: u32,
    pub cursor: u32,
}

/// A ghost snapshot of the allocator: everything its observable behavior
/// depends on. Every mutating method's contract pins its whole outcome as
/// a function of this snapshot and the arguments, which is what makes the
/// allocator — and everything built on it — deterministic.
pub ghost struct AllocModel {
    pub width: u32,
    pub height: u32,
    pub shelves: Seq<ShelfModel>,
    pub allocs: Seq<Allocation>,
    pub next_id: u64,
}

/// The request fits this shelf of the model as it stands.
pub open spec fn model_fits(shelf: ShelfModel, width: int, size: Extent) -> bool {
    size.height <= shelf.height && shelf.cursor + size.width <= width
}

/// The first shelf at or after `i` the request fits, if any.
spec fn model_find_fit(shelves: Seq<ShelfModel>, width: int, size: Extent, i: int) -> Option<int>
    decreases shelves.len() - i,
{
    if !(0 <= i < shelves.len()) {
        None
    } else if model_fits(shelves[i], width, size) {
        Some(i)
    } else {
        model_find_fit(shelves, width, size, i + 1)
    }
}

/// The search for the first fitting shelf can skip any prefix of shelves
/// that do not fit.
proof fn lemma_model_find_fit_skip(shelves: Seq<ShelfModel>, width: int, size: Extent, i: int)
    requires
        0 <= i <= shelves.len(),
        forall|s: int| 0 <= s < i ==> !model_fits(#[trigger] shelves[s], width, size),
    ensures
        model_find_fit(shelves, width, size, 0) == model_find_fit(shelves, width, size, i),
    decreases i,
{
    if i > 0 {
        lemma_model_find_fit_skip(shelves, width, size, i - 1);
        assert(model_find_fit(shelves, width, size, i - 1) == model_find_fit(
            shelves,
            width,
            size,
            i,
        ));
    }
}

/// Top edge of the unused band below all shelves of the model.
pub open spec fn model_used(shelves: Seq<ShelfModel>) -> int {
    if shelves.len() == 0 {
        0
    } else {
        shelves.last().y + shelves.last().height
    }
}

/// One placement on the model: the first shelf the request fits, else a
/// fresh shelf below the last one, else nothing. A request is also refused
/// when the sequentially minted handle identifiers are exhausted, a machine
/// limit of the 64-bit handle space that a rearrange pass resets.
pub closed spec fn spec_place(m: AllocModel, size: Extent) -> (AllocModel, Option<Allocation>) {
    let handle = AllocationHandle { id: m.next_id };
    if m.next_id == u64::MAX {
        (m, None)
    } else {
        match model_find_fit(m.shelves, m.width as int, size, 0) {
        Some(si) => {
            let shelf = m.shelves[si];
            let rect = Rect { x: shelf.cursor, y: shelf.y, width: size.width, height: size.height };
            (
                AllocModel {
                    shelves: m.shelves.update(
                        si,
                        ShelfModel {
                            y: shelf.y,
                            height: shelf.height,
                            cursor: (shelf.cursor + size.width) as u32,
                        },
                    ),
                    allocs: m.allocs.push(Allocation { handle, rect }),
                    next_id: (m.next_id + 1) as u64,
                    ..m
                },
                Some(Allocation { handle, rect }),
            )
        },
        None => {
            let used = model_used(m.shelves);
            if size.width > m.width || used + size.height > m.height {
                (m, None)
            } else {
                let rect = Rect { x: 0, y: used as u32, width: size.width, height: size.height };
                (
                    AllocModel {
                        shelves: m.shelves.push(
                            ShelfModel { y: used as u32, height: size.height, cursor: size.width },
                        ),
                        allocs: m.allocs.push(Allocation { handle, rect }),
                        next_id: (m.next_id + 1) as u64,
                        ..m
                    },
                    Some(Allocation { handle, rect }),
                )
            }
        },
        }
    }
}

/// An empty model over a new canvas.
pub closed spec fn spec_reset(m: AllocModel, new_size: Extent) -> AllocModel {
    AllocModel {
        width: new_size.width,
        height: new_size.height,
        shelves: Seq::<ShelfModel>::empty(),
        allocs: Seq::<Allocation>::empty(),
        next_id: 0,
    }
}

/// Place the first `i` of the given allocations again, in order, on top of
/// `m0`, collecting relocations and failures.
spec fn spec_repack(m0: AllocModel, items: Seq<Allocation>, i: int) -> (
    AllocModel,
    Seq<Change>,
    Seq<Allocation>,
)
    decreases i,
{
    if i <= 0 {
        (m0, Seq::<Change>::empty(), Seq::<Allocation>::empty())
    } else {
        let prev = spec_repack(m0, items, i - 1);
        let it = items[i - 1];
        let step = spec_place(prev.0, Extent { width: it.rect.width, height: it.rect.height });
        match step.1 {
            Some(a) => (step.0, prev.1.push(Change { old_handle: it.handle, new: a }), prev.2),
            None => (prev.0, prev.1, prev.2.push(it)),
        }
    }
}

/// What `resize_and_rearrange` does to the model: empty the new canvas,
/// then place every live allocation again in order.
pub closed spec fn spec_resize(m: AllocModel, new_size: Extent) -> (
    AllocModel,
    Seq<Change>,
    Seq<Allocation>,
) {
    spec_repack(spec_reset(m, new_size), m.allocs, m.allocs.len() as int)
}

/// Placement never changes the canvas extent of the model.
proof fn lemma_spec_place_canvas(m: AllocModel, size: Extent)
    ensures
        spec_place(m, size).0.width == m.width,
        spec_place(m, size).0.height == m.height,
{
}

/// A repack fold keeps the canvas extent it started from.
proof fn lemma_spec_repack_canvas(base: AllocModel, items: Seq<Allocation>, i: int)
    ensures
        spec_repack(base, items, i).0.width == base.width,
        spec_repack(base, items, i).0.height == base.height,
    decreases i,
{
    if i > 0 {
        lemma_spec_repack_canvas(base, items, i - 1);
        let prev = spec_repack(base, items, i - 1);
        lemma_spec_place_canvas(prev.0, Extent { width: items[i - 1].rect.width, height: items[i - 1].rect.height });
    }
}

/// A resize pass leaves the model's canvas at exactly the requested extent.
pub proof fn lemma_spec_resize_canvas(m: AllocModel, new_size: Extent)
    ensures
        spec_resize(m, new_size).0.width == new_size.width,
        spec_resize(m, new_size).0.height == new_size.height,
{
    lemma_spec_repack_canvas(spec_reset(m, new_size), m.allocs, m.allocs.len() as int);
}

/// Unfolds one step of the repack fold: what placing allocation `i` adds
/// to the state reached after the first `i` allocations.
proof fn lemma_repack_step(
    base: AllocModel,
    items: Seq<Allocation>,
    i: int,
    pre: (AllocModel, Seq<Change>, Seq<Allocation>),
    m2: AllocModel,
    r: Option<Allocation>,
)
    requires
        0 <= i < items.len(),
        pre == spec_repack(base, items, i),
        (m2, r) == spec_place(
            pre.0,
            Extent { width: items[i].rect.width, height: items[i].rect.height },
        ),
    ensures
        r matches Some(a) ==> spec_repack(base, items, i + 1) == (
            m2,
            pre.1.push(Change { old_handle: items[i].handle, new: a }),
            pre.2,
        ),
        r is None ==> spec_repack(base, items, i + 1) == (pre.0, pre.1, pre.2.push(items[i]))
            && m2 == pre.0,
{
}

/// The empty prefix of a repack fold is the base state with nothing done.
proof fn lemma_repack_zero(base: AllocModel, items: Seq<Allocation>)
    ensures
        spec_repack(base, items, 0) == (base, Seq::<Change>::empty(), Seq::<Allocation>::empty()),
{
}

/// The growable rectangle allocator.
pub struct AtlasAllocator {
    width: u32,
    height: u32,
    shelves: Vec<Shelf>,
    records: Vec<AllocRecord>,
    next_id: u64,
}

impl AtlasAllocator {
    /// The current canvas extent.
    pub closed spec fn canvas(self) -> Extent {
        Extent { width: self.width, height: self.height }
    }

    /// The live allocations, oldest first.
    pub closed spec fn allocs(self) -> Seq<Allocation> {
        self.records@.map(|k: int, r: AllocRecord| Allocation { handle: r.handle, rect: r.rect })
    }

    /// A ghost snapshot of the allocator's whole observable state.
    pub closed spec fn model(self) -> AllocModel {
        AllocModel {
            width: self.width,
            height: self.height,
            shelves: self.shelves@.map(
                |i: int, s: Shelf| ShelfModel { y: s.y, height: s.height, cursor: s.cursor },
            ),
            allocs: self.allocs(),
            next_id: self.next_id,
        }
    }

    /// The allocator's internal invariant.
    pub closed spec fn wf(self) -> bool {
        &&& 1 <= self.width <= MAX_DIM
        &&& 1 <= self.height <= MAX_DIM
        &&& shelves_ok(self.shelves@, self.canvas())
        &&& records_ok(self.records@, self.shelves@)
        &&& forall|k: int|
            0 <= k < self.records@.len() ==> (#[trigger] self.records@[k]).handle.spec_id()
                < self.next_id
    }

    /// A fresh allocator over an empty canvas of the given extent.
    pub fn new(size: Extent) -> (r: AtlasAllocator)
        requires
            1 <= size.width <= MAX_DIM,
            1 <= size.height <= MAX_DIM,
        ensures
            r.wf(),
            r.canvas() == size,
            r.allocs() =~= Seq::<Allocation>::empty(),
            r.model() == (AllocModel {
                width: size.width,
                height: size.height,
                shelves: Seq::<ShelfModel>::empty(),
                allocs: Seq::<Allocation>::empty(),
                next_id: 0,
            }),
    {
        proof {
            assert(Seq::<Shelf>::empty().map(
                |i: int, s: Shelf| ShelfModel { y: s.y, height: s.height, cursor: s.cursor },
            ) =~= Seq::<ShelfModel>::empty());
        }
        AtlasAllocator {
            width: size.width,
            height: size.height,
            shelves: Vec::new(),
            records: Vec::new(),
            next_id: 0,
        }
    }

    /// The current canvas extent.
    pub fn size(&self) -> (r: Extent)
        ensures
            r == self.canvas(),
    {
        Extent { width: self.width, height: self.height }
    }

    /// An identical copy of the allocator's state, so that a caller can
    /// treat a resize or rearrange pass as a transaction and restore the
    /// last known-good state when the pass reports failures.
    pub fn snapshot(&self) -> (r: AtlasAllocator)
        ensures
            r.model() == self.model(),
            r.wf() == self.wf(),
    {
        let mut shelves: Vec<Shelf> = Vec::new();
        let mut i: usize = 0;
        while i < self.shelves.len()
            invariant
                i <= self.shelves@.len(),
                shelves@ =~= self.shelves@.take(i as int),
            decreases self.shelves@.len() - i,
        {
            shelves.push(self.shelves[i]);
            proof {
                assert(shelves@ =~= self.shelves@.take(i + 1 as int));
            }
            i = i + 1;
        }
        let mut records: Vec<AllocRecord> = Vec::new();
        let mut k: usize = 0;
        while k < self.records.len()
            invariant
                k <= self.records@.len(),
                records@ =~= self.records@.take(k as int),
            decreases self.records@.len() - k,
        {
            records.push(self.records[k]);
            proof {
                assert(records@ =~= self.records@.take(k + 1 as int));
            }
            k = k + 1;
        }
        proof {
            assert(shelves@ =~= self.shelves@);
            assert(records@ =~= self.records@);
        }
        let r = AtlasAllocator {
            width: self.width,
            height: self.height,
            shelves,
            records,
            next_id: self.next_id,
        };
        proof {
            assert(r.model().shelves =~= self.model().shelves);
            assert(r.model().allocs =~= self.model().allocs);
            assert(r.model() == self.model());
        }
        r
    }

    /// How many allocations are live.
    pub fn len(&self) -> (n: usize)
        ensures
            n == self.allocs().len(),
    {
        self.records.len()
    }

    /// Two distinct live allocations never overlap.
    pub proof fn lemma_allocs_disjoint(self, k: int, l: int)
        requires
            self.wf(),
            0 <= k < self.allocs().len(),
            0 <= l < self.allocs().len(),
            k != l,
        ensures
            disjoint(self.allocs()[k].rect, self.allocs()[l].rect),
    {
        lemma_records_disjoint(self.records@, self.shelves@, self.canvas(), k, l);
    }

    /// Every live allocation lies fully inside the canvas.
    pub proof fn lemma_allocs_within(self, k: int)
        requires
            self.wf(),
            0 <= k < self.allocs().len(),
        ensures
            within(self.allocs()[k].rect, self.canvas()),
    {
        lemma_record_within(self.records@, self.shelves@, self.canvas(), k);
    }

    /// How the ghost snapshot reflects the public views of the allocator.
    pub proof fn lemma_model_fields(self)
        ensures
            self.model().width == self.canvas().width,
            self.model().height == self.canvas().height,
            self.model().allocs == self.allocs(),
    {
    }

    /// The canvas extent stays within the supported bounds.
    pub proof fn lemma_canvas_bounds(self)
        requires
            self.wf(),
        ensures
            1 <= self.canvas().width <= MAX_DIM,
            1 <= self.canvas().height <= MAX_DIM,
    {
    }

    /// Live handles are distinct.
    pub proof fn lemma_handles_distinct(self, k: int, l: int)
        requires
            self.wf(),
            0 <= k < self.allocs().len(),
            0 <= l < self.allocs().len(),
            k != l,
        ensures
            self.allocs()[k].handle != self.allocs()[l].handle,
    {
    }

    /// The first shelf the request fits on as the shelves stand, if any.
    fn find_fit(shelves: &Vec<Shelf>, canvas_width: u32, size: Extent) -> (r: Option<usize>)
        ensures
            match r {
                Some(si) => si < shelves@.len() && shelf_fits(
                    shelves@[si as int],
                    canvas_width as int,
                    size,
                ) && forall|s: int|
                    0 <= s < si ==> !shelf_fits(#[trigger] shelves@[s], canvas_width as int, size),
                None => forall|s: int|
                    0 <= s < shelves@.len() ==> !shelf_fits(
                        #[trigger] shelves@[s],
                        canvas_width as int,
                        size,
                    ),
            },
    {
        let n = shelves.len();
        let mut si: usize = 0;
        while si < n
            invariant
                si <= n,
                n == shelves@.len(),
                forall|s: int|
                    0 <= s < si ==> !shelf_fits(#[trigger] shelves@[s], canvas_width as int, size),
            decreases n - si,
        {
            let shelf = shelves[si];
            if size.height <= shelf.height && shelf.cursor <= canvas_width && size.width
                <= canvas_width - shelf.cursor {
                return Some(si);
            }
            si = si + 1;
        }
        None
    }

    /// Assign a region of the given extent inside the canvas: the first
    /// shelf the request fits, else a fresh shelf below the last one.
    ///
    /// Returns `None`, the normal signal to grow the canvas, exactly when
    /// neither placement is possible — or when the sequentially minted
    /// 64-bit handle identifiers are exhausted, a machine limit that a
    /// resize or rearrange pass resets. Every region this hands out is
    /// disjoint from every live region.
    pub fn allocate(&mut self, size: Extent) -> (r: Option<Allocation>)
        requires
            old(self).wf(),
            1 <= size.width,
            1 <= size.height,
        ensures
            final(self).wf(),
            final(self).canvas() == old(self).canvas(),
            r is None <==> (old(self).model().next_id == u64::MAX || ((forall|s: int|
                0 <= s < old(self).model().shelves.len() ==> !model_fits(
                    #[trigger] old(self).model().shelves[s],
                    old(self).canvas().width as int,
                    size,
                )) && (size.width > old(self).canvas().width || model_used(
                old(self).model().shelves,
            ) + size.height > old(self).canvas().height))),
            r is None ==> *final(self) == *old(self),
            r matches Some(a) ==> {
                &&& a.rect.width == size.width
                &&& a.rect.height == size.height
                &&& within(a.rect, old(self).canvas())
                &&& final(self).allocs() =~= old(self).allocs().push(a)
                &&& a.handle.spec_id() == old(self).model().next_id
                &&& final(self).model().next_id == old(self).model().next_id + 1
                &&& forall|k: int|
                    0 <= k < old(self).allocs().len() ==> disjoint(
                        a.rect,
                        (#[trigger] old(self).allocs()[k]).rect,
                    ) && old(self).allocs()[k].handle != a.handle
            },
            final(self).model() == spec_place(old(self).model(), size).0,
            r == spec_place(old(self).model(), size).1,
    {
        let ghost pre = *self;
        if self.next_id == u64::MAX {
            proof {
                assert(spec_place(pre.model(), size) == (pre.model(), Option::<Allocation>::None));
            }
            return None;
        }
        let handle = AllocationHandle { id: self.next_id };
        let rect: Rect;
        let shelf_index: usize;
        match Self::find_fit(&self.shelves, self.width, size) {
            Some(si) => {
                proof {
                    let m = pre.model();
                    assert forall|s: int| 0 <= s < si implies !model_fits(
                        #[trigger] m.shelves[s],
                        m.width as int,
                        size,
                    ) by {
                        assert(!shelf_fits(pre.shelves@[s], pre.canvas().width as int, size));
                    }
                    lemma_model_find_fit_skip(m.shelves, m.width as int, size, si as int);
                    assert(model_fits(m.shelves[si as int], m.width as int, size));
                    assert(model_find_fit(m.shelves, m.width as int, size, 0) == Some(si as int));
                }
                let shelf = self.shelves[si];
                rect = Rect { x: shelf.cursor, y: shelf.y, width: size.width, height: size.height };
                shelf_index = si;
                self.shelves[si] = Shelf {
                    y: shelf.y,
                    height: shelf.height,
                    cursor: shelf.cursor + size.width,
                };
                proof {
                    assert(shelves_ok(self.shelves@, self.canvas())) by {
                        assert forall|s: int| 0 <= s < self.shelves@.len() implies {
                            &&& (#[trigger] self.shelves@[s]).height >= 1
                            &&& self.shelves@[s].y == if s == 0 {
                                0int
                            } else {
                                self.shelves@[s - 1].y + self.shelves@[s - 1].height
                            }
                            &&& self.shelves@[s].cursor <= self.canvas().width
                        } by {
                            assert(pre.shelves@[s].height == self.shelves@[s].height);
                        }
                        assert(spec_used(self.shelves@) == spec_used(pre.shelves@));
                    }
                }
            },
            None => {
                proof {
                    let m = pre.model();
                    assert forall|s: int| 0 <= s < m.shelves.len() implies !model_fits(
                        #[trigger] m.shelves[s],
                        m.width as int,
                        size,
                    ) by {
                        assert(!shelf_fits(pre.shelves@[s], pre.canvas().width as int, size));
                    }
                    lemma_model_find_fit_skip(m.shelves, m.width as int, size, m.shelves.len() as int);
                    assert(model_find_fit(m.shelves, m.width as int, size, 0) is None);
                    assert(model_used(m.shelves) == spec_used(pre.shelves@));
                }
                let used = if self.shelves.len() == 0 {
                    0
                } else {
                    let last = self.shelves[self.shelves.len() - 1];
                    last.y + last.height
                };
                if size.width > self.width || size.height > self.height - used {
                    proof {
                        assert(spec_place(pre.model(), size) == (
                            pre.model(),
                            Option::<Allocation>::None,
                        ));
                    }
                    return None;
                }
                rect = Rect { x: 0, y: used, width: size.width, height: size.height };
                shelf_index = self.shelves.len();
                self.shelves.push(Shelf { y: used, height: size.height, cursor: size.width });
                proof {
                    assert(shelves_ok(self.shelves@, self.canvas())) by {
                        assert forall|s: int| 0 <= s < self.shelves@.len() implies {
                            &&& (#[trigger] self.shelves@[s]).height >= 1
                            &&& self.shelves@[s].y == if s == 0 {
                                0int
                            } else {
                                self.shelves@[s - 1].y + self.shelves@[s - 1].height
                            }
                            &&& self.shelves@[s].cursor <= self.canvas().width
                        } by {
                            if s < pre.shelves@.len() {
                                assert(self.shelves@[s] == pre.shelves@[s]);
                            }
                        }
                    }
                }
            },
        }
        let record = AllocRecord { handle, rect, shelf: shelf_index };
        proof {
            // Old records still sit inside their shelves: at most one cursor
            // moved, and only to the right.
            assert forall|k: int| 0 <= k < self.records@.len() implies record_ok(
                #[trigger] self.records@[k],
                self.shelves@,
            ) by {
                assert(record_ok(pre.records@[k], pre.shelves@));
            }
            assert(record_ok(record, self.shelves@));
        }
        self.records.push(record);
        proof {
            assert(records_ok(self.records@, self.shelves@)) by {
                assert forall|k: int, l: int|
                    #![trigger self.records@[k], self.records@[l]]
                    0 <= k < l < self.records@.len() implies ((self.records@[k].shelf
                    == self.records@[l].shelf ==> self.records@[k].rect.x
                    + self.records@[k].rect.width <= self.records@[l].rect.x) && (
                self.records@[k].handle.spec_id() < self.records@[l].handle.spec_id())) by {
                    if l < pre.records@.len() {
                        assert(self.records@[k] == pre.records@[k]);
                        assert(self.records@[l] == pre.records@[l]);
                    } else {
                        assert(self.records@[k] == pre.records@[k]);
                        assert(self.records@[l] == record);
                        assert(record_ok(pre.records@[k], pre.shelves@));
                    }
                }
            }
        }
        self.next_id = self.next_id + 1;
        proof {
            assert(final(self).wf());
            lemma_record_within(self.records@, self.shelves@, self.canvas(), self.records@.len() - 1);
            assert(final(self).allocs() =~= pre.allocs().push(Allocation { handle, rect }));
            assert forall|k: int| 0 <= k < pre.allocs().len() implies disjoint(
                rect,
                (#[trigger] pre.allocs()[k]).rect,
            ) && pre.allocs()[k].handle != AllocationHandle { id: pre.next_id } by {
                lemma_records_disjoint(
                    self.records@,
                    self.shelves@,
                    self.canvas(),
                    self.records@.len() - 1,
                    k,
                );
                assert(pre.allocs()[k].rect == self.records@[k].rect);
            }
            assert(final(self).model().shelves =~= spec_place(pre.model(), size).0.shelves);
            assert(final(self).model().allocs =~= spec_place(pre.model(), size).0.allocs);
            assert(final(self).model() == spec_place(pre.model(), size).0);
            assert(Some(Allocation { handle, rect }) == spec_place(pre.model(), size).1);
        }
        Some(Allocation { handle, rect })
    }

    /// Resize the canvas and place every live allocation again, tightly
    /// packed in their original order.
    ///
    /// Returns the relocation of every allocation that could be placed,
    /// under a fresh handle, and the allocations that could not; the
    /// latter fall out of the allocator. When nothing fails, change `i`
    /// relocates the `i`-th oldest allocation and keeps its size.
    #[verifier::rlimit(100)]
    pub fn resize_and_rearrange(&mut self, new_size: Extent) -> (r: ChangeList)
        requires
            old(self).wf(),
            1 <= new_size.width <= MAX_DIM,
            1 <= new_size.height <= MAX_DIM,
        ensures
            final(self).wf(),
            final(self).canvas() == new_size,
            r.changes@.len() + r.failures@.len() == old(self).allocs().len(),
            r.changes@.len() == final(self).allocs().len(),
            forall|i: int|
                0 <= i < r.changes@.len() ==> (#[trigger] r.changes@[i]).new == final(self).allocs()[i],
            r.failures@.len() == 0 ==> {
                &&& r.changes@.len() == old(self).allocs().len()
                &&& forall|i: int|
                    0 <= i < r.changes@.len() ==> (#[trigger] r.changes@[i]).old_handle == old(
                        self,
                    ).allocs()[i].handle && r.changes@[i].new.rect.width == old(
                        self,
                    ).allocs()[i].rect.width && r.changes@[i].new.rect.height == old(
                        self,
                    ).allocs()[i].rect.height
            },
            final(self).model() == spec_resize(old(self).model(), new_size).0,
            r.changes@ == spec_resize(old(self).model(), new_size).1,
            r.failures@ == spec_resize(old(self).model(), new_size).2,
    {
        let ghost orig = *self;
        self.width = new_size.width;
        self.height = new_size.height;
        let mut old_records: Vec<AllocRecord> = Vec::new();
        core::mem::swap(&mut self.records, &mut old_records);
        self.shelves = Vec::new();
        self.next_id = 0;
        let mut changes: Vec<Change> = Vec::new();
        let mut failures: Vec<Allocation> = Vec::new();
        proof {
            assert(self.model().shelves =~= spec_reset(orig.model(), new_size).shelves);
            assert(self.model().allocs =~= spec_reset(orig.model(), new_size).allocs);
            assert(self.model() == spec_reset(orig.model(), new_size));
            lemma_repack_zero(spec_reset(orig.model(), new_size), orig.allocs());
        }
        let n = old_records.len();
        let mut i: usize = 0;
        while i < n
            invariant
                self.wf(),
                self.canvas() == new_size,
                1 <= new_size.width <= MAX_DIM,
                1 <= new_size.height <= MAX_DIM,
                orig.wf(),
                i <= n,
                n == old_records@.len(),
                old_records@ == orig.records@,
                changes@.len() == self.records@.len(),
                changes@.len() + failures@.len() == i,
                (self.model(), changes@, failures@) == spec_repack(
                    spec_reset(orig.model(), new_size),
                    orig.allocs(),
                    i as int,
                ),
                forall|j: int|
                    0 <= j < changes@.len() ==> (#[trigger] changes@[j]).new == self.allocs()[j],
                failures@.len() == 0 ==> changes@.len() == i && (forall|j: int|
                    0 <= j < changes@.len() ==> (#[trigger] changes@[j]).old_handle
                        == orig.allocs()[j].handle && changes@[j].new.rect.width
                        == orig.allocs()[j].rect.width && changes@[j].new.rect.height
                        == orig.allocs()[j].rect.height),
            decreases n - i,
        {
            let rec = old_records[i];
            let size = Extent { width: rec.rect.width, height: rec.rect.height };
            proof {
                assert(record_ok(orig.records@[i as int], orig.shelves@));
                assert(orig.allocs()[i as int] == Allocation { handle: rec.handle, rect: rec.rect });
            }
            let ghost pre_state = (self.model(), changes@, failures@);
            match self.allocate(size) {
                Some(a) => {
                    changes.push(Change { old_handle: rec.handle, new: a });
                    proof {
                        assert(orig.allocs()[i as int].handle == rec.handle);
                        assert(orig.allocs()[i as int].rect == rec.rect);
                        lemma_repack_step(
                            spec_reset(orig.model(), new_size),
                            orig.allocs(),
                            i as int,
                            pre_state,
                            self.model(),
                            Some(a),
                        );
                    }
                },
                None => {
                    failures.push(Allocation { handle: rec.handle, rect: rec.rect });
                    proof {
                        assert(orig.allocs()[i as int] == Allocation {
                            handle: rec.handle,
                            rect: rec.rect,
                        });
                        lemma_repack_step(
                            spec_reset(orig.model(), new_size),
                            orig.allocs(),
                            i as int,
                            pre_state,
                            self.model(),
                            Option::<Allocation>::None,
                        );
                    }
                },
            }
            i = i + 1;
        }
        proof {
            assert(old_records@.take(n as int) =~= old_records@);
        }
        ChangeList { changes, failures }
    }

    /// Place every live allocation again inside the unchanged canvas,
    /// tightly packed in their original order, to reclaim fragmented
    /// space. Allocations the pass cannot place come back as failures and
    /// fall out of the allocator, for the caller to check.
    #[verifier::rlimit(100)]
    pub fn rearrange(&mut self) -> (r: ChangeList)
        requires
            old(self).wf(),
        ensures
            final(self).wf(),
            final(self).canvas() == old(self).canvas(),
            r.changes@.len() + r.failures@.len() == old(self).allocs().len(),
            r.changes@.len() == final(self).allocs().len(),
            forall|i: int|
                0 <= i < r.changes@.len() ==> (#[trigger] r.changes@[i]).new == final(self).allocs()[i],
            r.failures@.len() == 0 ==> {
                &&& r.changes@.len() == old(self).allocs().len()
                &&& forall|i: int|
                    0 <= i < r.changes@.len() ==> (#[trigger] r.changes@[i]).old_handle == old(self).allocs()[i].handle && r.changes@[i].new.rect.width == old(self).allocs()[i].rect.width
                        && r.changes@[i].new.rect.height == old(self).allocs()[i].rect.height
            },
            final(self).model() == spec_resize(old(self).model(), old(self).canvas()).0,
            r.changes@ == spec_resize(old(self).model(), old(self).canvas()).1,
            r.failures@ == spec_resize(old(self).model(), old(self).canvas()).2,
    {
        let size = Extent { width: self.width, height: self.height };
        proof {
            assert(size == old(self).canvas());
        }
        let r = self.resize_and_rearrange(size);
        proof {
            assert(spec_resize(old(self).model(), size) == spec_resize(
                old(self).model(),
                old(self).canvas(),
            ));
        }
        r
    }
}

} // verus!
