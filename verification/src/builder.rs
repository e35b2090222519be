//! The atlas builder: deduplicates submitted images by content
//! fingerprint, packs every distinct image into the canvas through the
//! rectangle allocator, keeps the fingerprint-to-region registry consistent
//! across growth and rearrange passes, and finally composes the atlas
//! pixel buffer and the sprite sheet.

use vstd::prelude::*;

use crate::allocator::{
    spec_place, spec_resize, AllocModel, Allocation, AllocationHandle, AtlasAllocator, Change,
    ChangeList, ShelfModel,
};
use crate::arena::{Arena, Index};
use crate::compose::{
    blit, byte_pos_x, byte_pos_y, pixel_byte_index, region_covers, region_matches,
};
use crate::fingerprint::{content_id_of, ContentId};
use crate::geometry::{disjoint, within, Extent, Rect, MAX_DIM};

verus! {

/// Width and height of the canvas a fresh builder starts with.
pub const INITIAL_DIM: u32 = 1024;

/// A decoded pixel buffer: four bytes per pixel, row after row.
///
/// Decoding raw bytes into one of these is the caller's concern; the
/// builder only stores and copies them.
#[derive(Clone, Debug)]
pub struct StoredImage {
    pub width: u32,
    pub height: u32,
    pub pixels: Vec<u8>,
}

impl StoredImage {
    /// The buffer is consistent: positive extent within the supported
    /// bounds, and exactly four bytes for each of its pixels.
    pub open spec fn wf(self) -> bool {
        &&& 1 <= self.width <= MAX_DIM
        &&& 1 <= self.height <= MAX_DIM
        &&& self.pixels@.len() == 4 * self.width * self.height
    }

    /// The image's extent.
    pub open spec fn extent(self) -> Extent {
        Extent { width: self.width, height: self.height }
    }
}

/// What the builder returns and changes can fail with.
#[derive(Debug)]
pub enum Error {
    /// A resize or rearrange pass could not place one or more existing
    /// allocations; the payload carries them. The registry and the
    /// allocator are restored to the last known-good state when this is
    /// returned.
    AllocationsFailed(Vec<Allocation>),
    /// The request cannot be placed even on the largest supported canvas.
    /// Growth is unbounded by design and resource exhaustion is fatal; this
    /// value is the panic-free surface of that fatal condition at the
    /// machine cap on canvas dimensions.
    AtlasFull,
}

/// What a submission needs next.
#[derive(Clone, Copy, Debug, PartialEq, Eq, Structural)]
pub enum SubmitOutcome {
    /// The content is already stored under this fingerprint; the identity
    /// was recorded. No decoding is needed.
    Existing(ContentId),
    /// The content is new. The caller must decode the bytes and hand the
    /// pixel buffer to [`AtlasBuilder::submit_decoded`] under this
    /// fingerprint; nothing was recorded yet.
    NeedsDecode(ContentId),
}

/// One named region of the finished atlas.
#[derive(Clone, Copy, Debug, PartialEq, Eq, Structural)]
pub struct Sprite {
    pub rect: Rect,
}

/// The final artifact next to the atlas image: for every submitted
/// identity, in submission order, the region its content ended up in.
#[derive(Debug)]
pub struct SpriteSheet {
    pub sprites: Vec<(String, Sprite)>,
}

impl SpriteSheet {
    /// The sheet as a sequence of (identity, sprite) pairs.
    pub open spec fn view_pairs(self) -> Seq<(Seq<char>, Sprite)> {
        self.sprites@.map(|j: int, p: (String, Sprite)| (p.0@, p.1))
    }

    /// The sprite recorded for this identity, if any.
    pub fn get(&self, identity: &String) -> (r: Option<Sprite>)
        ensures
            r matches Some(s) ==> exists|j: int|
                0 <= j < self.view_pairs().len() && self.view_pairs()[j] == (identity@, s),
            r is None ==> forall|j: int|
                0 <= j < self.view_pairs().len() ==> (#[trigger] self.view_pairs()[j]).0
                    != identity@,
    {
        let n = self.sprites.len();
        let mut j: usize = 0;
        while j < n
            invariant
                j <= n,
                n == self.sprites@.len(),
                forall|i: int| 0 <= i < j ==> (#[trigger] self.view_pairs()[i]).0 != identity@,
            decreases n - j,
        {
            if self.sprites[j].0 == *identity {
                let s = self.sprites[j].1;
                proof {
                    assert(self.view_pairs()[j as int] == (identity@, s));
                }
                return Some(s);
            }
            j = j + 1;
        }
        None
    }

    /// How many identities the sheet names.
    pub fn len(&self) -> (n: usize)
        ensures
            n == self.view_pairs().len(),
    {
        self.sprites.len()
    }
}

/// A registry entry: one distinct content, the arena slot of its pixels,
/// and its current region and allocator handle.
#[derive(Clone, Copy)]
struct RegEntry {
    id: ContentId,
    image: Index,
    alloc: Allocation,
}

/// Some change in the list relocates the allocation known under `h`.
spec fn has_change(changes: Seq<Change>, h: AllocationHandle) -> bool {
    exists|i: int| 0 <= i < changes.len() && changes[i].old_handle == h
}

/// The position of the change that relocates `h`.
spec fn change_index(changes: Seq<Change>, h: AllocationHandle) -> int {
    choose|i: int| 0 <= i < changes.len() && changes[i].old_handle == h
}

/// A dimension after one growth step: doubled, but never beyond the
/// supported maximum.
pub open spec fn grown_dim(d: int) -> int {
    if 2 * d > MAX_DIM {
        MAX_DIM as int
    } else {
        2 * d
    }
}

/// The extent a stored image occupies in the canvas: the explicit size
/// when one was submitted with it, else the image's own extent.
pub open spec fn alloc_extent(image: StoredImage, explicit_size: Option<Extent>) -> Extent {
    match explicit_size {
        Some(e) => e,
        None => image.extent(),
    }
}

/// A ghost snapshot of the builder: everything its observable behavior
/// depends on. The mutating methods pin their whole outcome as a function
/// of this snapshot and their arguments, so equal submissions always take
/// a builder through equal states.
pub ghost struct BuilderModel {
    pub alloc: AllocModel,
    pub entries: Seq<(ContentId, Allocation)>,
    pub images: Seq<StoredImage>,
    pub identities: Seq<(Seq<char>, ContentId)>,
    pub dirty: bool,
}

/// A fingerprint is stored in the model's registry.
spec fn model_contains(entries: Seq<(ContentId, Allocation)>, id: ContentId) -> bool {
    exists|k: int| 0 <= k < entries.len() && entries[k].0 == id
}

/// This identity is recorded in the model.
spec fn model_has_identity(identities: Seq<(Seq<char>, ContentId)>, name: Seq<char>) -> bool {
    exists|j: int| 0 <= j < identities.len() && identities[j].0 == name
}

/// The position of this identity's record in the model.
spec fn model_identity_index(identities: Seq<(Seq<char>, ContentId)>, name: Seq<char>) -> int {
    choose|j: int| 0 <= j < identities.len() && identities[j].0 == name
}

/// Record an identity in the model: a fresh name is appended, a known one
/// keeps its place and takes the fingerprint.
spec fn model_record(m: BuilderModel, name: Seq<char>, id: ContentId) -> BuilderModel {
    BuilderModel {
        identities: if model_has_identity(m.identities, name) {
            m.identities.update(model_identity_index(m.identities, name), (name, id))
        } else {
            m.identities.push((name, id))
        },
        ..m
    }
}

/// What `submit` does to the model, and what it returns.
pub closed spec fn spec_submit(m: BuilderModel, name: Seq<char>, data: Seq<u8>) -> (
    BuilderModel,
    SubmitOutcome,
) {
    let id = content_id_of(data);
    if model_contains(m.entries, id) {
        (model_record(m, name, id), SubmitOutcome::Existing(id))
    } else {
        (m, SubmitOutcome::NeedsDecode(id))
    }
}

/// What one growth step does to the model: double the canvas (clamped),
/// place every allocation again and rewrite the registry along the
/// relocations.
pub closed spec fn spec_grow(m: BuilderModel) -> BuilderModel {
    let new_size = Extent {
        width: grown_dim(m.alloc.width as int) as u32,
        height: grown_dim(m.alloc.height as int) as u32,
    };
    let resized = spec_resize(m.alloc, new_size);
    BuilderModel {
        alloc: resized.0,
        entries: Seq::new(m.entries.len(), |k: int| (m.entries[k].0, resized.1[k].new)),
        dirty: true,
        ..m
    }
}

/// The model's canvas dimensions are sane.
spec fn model_dims_ok(m: BuilderModel) -> bool {
    1 <= m.alloc.width <= MAX_DIM && 1 <= m.alloc.height <= MAX_DIM
}

/// The model's canvas is at the largest supported extent.
spec fn model_at_max(m: BuilderModel) -> bool {
    m.alloc.width == MAX_DIM && m.alloc.height == MAX_DIM
}

/// The model after placing the request, growing the canvas as often as
/// needed: the final model, the placement if one was found, and the
/// relocation failures of the growth step that was refused, if any.
///
/// The run ends without a placement when the canvas is already at the
/// largest supported extent and the request still cannot be placed, or
/// when a growth step would lose allocations (its failure set comes back
/// and the model stays at the last known-good state).
pub closed spec fn spec_grow_loop(m: BuilderModel, ext: Extent) -> (
    BuilderModel,
    Option<Allocation>,
    Seq<Allocation>,
)
    decreases 2 * MAX_DIM - m.alloc.width - m.alloc.height,
    via check_spec_grow_loop
{
    let placed = spec_place(m.alloc, ext);
    match placed.1 {
        Some(a) => (
            BuilderModel { alloc: placed.0, ..m },
            Some(a),
            Seq::<Allocation>::empty(),
        ),
        None => {
            if !model_dims_ok(m) || model_at_max(m) {
                (m, None, Seq::<Allocation>::empty())
            } else {
                let new_size = Extent {
                    width: grown_dim(m.alloc.width as int) as u32,
                    height: grown_dim(m.alloc.height as int) as u32,
                };
                let failures = spec_resize(m.alloc, new_size).2;
                if failures.len() > 0 {
                    (m, None, failures)
                } else {
                    spec_grow_loop(spec_grow(m), ext)
                }
            }
        },
    }
}

#[via_fn]
proof fn check_spec_grow_loop(m: BuilderModel, ext: Extent) {
    if spec_place(m.alloc, ext).1 is None && model_dims_ok(m) && !model_at_max(m) {
        let new_size = Extent {
            width: grown_dim(m.alloc.width as int) as u32,
            height: grown_dim(m.alloc.height as int) as u32,
        };
        crate::allocator::lemma_spec_resize_canvas(m.alloc, new_size);
        assert(spec_grow(m).alloc.width == new_size.width);
        assert(spec_grow(m).alloc.height == new_size.height);
        assert(m.alloc.width < MAX_DIM || m.alloc.height < MAX_DIM);
    }
}

/// What `submit_decoded` does to the model: place the request, growing as
/// needed, then store the image and record the identity. The placement and
/// failure channels say how the run ended.
pub closed spec fn spec_submit_decoded(
    m: BuilderModel,
    name: Seq<char>,
    id: ContentId,
    image: StoredImage,
    explicit_size: Option<Extent>,
) -> (BuilderModel, Option<Allocation>, Seq<Allocation>) {
    let ext = alloc_extent(image, explicit_size);
    let run = spec_grow_loop(m, ext);
    match run.1 {
        Some(a) => (
            model_record(
                BuilderModel {
                    entries: run.0.entries.push((id, a)),
                    images: run.0.images.push(image),
                    ..run.0
                },
                name,
                id,
            ),
            Some(a),
            Seq::<Allocation>::empty(),
        ),
        None => run,
    }
}

/// What the pre-build rearrange pass does to the model: nothing when the
/// layout is clean; else a full repack at the unchanged canvas with the
/// registry rewritten along the relocations — unless the pass would lose
/// allocations, in which case its failure set comes back and the model
/// stays at the last known-good state.
pub closed spec fn spec_rearrange_if_dirty(m: BuilderModel) -> (BuilderModel, Seq<Allocation>) {
    if m.dirty {
        let resized = spec_resize(
            m.alloc,
            Extent { width: m.alloc.width, height: m.alloc.height },
        );
        if resized.2.len() > 0 {
            (m, resized.2)
        } else {
            (
                BuilderModel {
                    alloc: resized.0,
                    entries: Seq::new(
                        m.entries.len(),
                        |k: int| (m.entries[k].0, resized.1[k].new),
                    ),
                    dirty: false,
                    ..m
                },
                Seq::<Allocation>::empty(),
            )
        }
    } else {
        (m, Seq::<Allocation>::empty())
    }
}

/// The registry position of a fingerprint in the model.
spec fn model_entry_index(entries: Seq<(ContentId, Allocation)>, id: ContentId) -> int {
    choose|k: int| 0 <= k < entries.len() && entries[k].0 == id
}

/// The region assigned to a fingerprint in the model.
spec fn model_rect_of(entries: Seq<(ContentId, Allocation)>, id: ContentId) -> Rect {
    entries[model_entry_index(entries, id)].1.rect
}

/// The sprite sheet the model yields: every identity, in order, mapped to
/// its content's region.
spec fn spec_sheet(m: BuilderModel) -> Seq<(Seq<char>, Sprite)> {
    Seq::new(
        m.identities.len(),
        |j: int|
            (m.identities[j].0, Sprite { rect: model_rect_of(m.entries, m.identities[j].1) }),
    )
}

/// One region of the model covers byte position `p`.
spec fn model_covers(
    entries: Seq<(ContentId, Allocation)>,
    images: Seq<StoredImage>,
    width: int,
    k: int,
    p: int,
) -> bool {
    region_covers(
        width,
        entries[k].1.rect.x as int,
        entries[k].1.rect.y as int,
        images[k].extent(),
        p,
    )
}

/// The byte at position `p` of the composed atlas: the corresponding
/// channel of the image whose region covers `p`, or zero where no region
/// does.
spec fn spec_pixel(
    entries: Seq<(ContentId, Allocation)>,
    images: Seq<StoredImage>,
    width: int,
    p: int,
) -> u8 {
    if exists|k: int| 0 <= k < entries.len() && model_covers(entries, images, width, k, p) {
        let k = choose|k: int|
            0 <= k < entries.len() && model_covers(entries, images, width, k, p);
        images[k].pixels@[pixel_byte_index(
            images[k].width as int,
            byte_pos_x(width, p) - entries[k].1.rect.x,
            byte_pos_y(width, p) - entries[k].1.rect.y,
            p % 4,
        )]
    } else {
        0
    }
}

/// The whole composed atlas buffer of the model.
spec fn spec_atlas(m: BuilderModel) -> Seq<u8> {
    Seq::new(
        (4 * m.alloc.width * m.alloc.height) as nat,
        |p: int| spec_pixel(m.entries, m.images, m.alloc.width as int, p),
    )
}

/// What `build` produces when its rearrange pass loses nothing, as a
/// function of the model alone: the atlas extent, the atlas bytes and the
/// sheet.
pub closed spec fn spec_build(m: BuilderModel) -> (Extent, Seq<u8>, Seq<(Seq<char>, Sprite)>) {
    let m1 = spec_rearrange_if_dirty(m).0;
    (Extent { width: m1.alloc.width, height: m1.alloc.height }, spec_atlas(m1), spec_sheet(m1))
}

/// The region a stored content occupies in the finished atlas: its
/// registry rectangle after the pre-build rearrange pass.
pub closed spec fn spec_build_rect(m: BuilderModel, id: ContentId) -> Rect {
    model_rect_of(spec_rearrange_if_dirty(m).0.entries, id)
}

/// The atlas builder. Push images one at a time with
/// [`AtlasBuilder::submit`] and [`AtlasBuilder::submit_decoded`], then
/// turn the whole batch into an atlas image and a sprite sheet with
/// [`AtlasBuilder::build`].
pub struct AtlasBuilder {
    images: Arena<StoredImage>,
    entries: Vec<RegEntry>,
    allocator: AtlasAllocator,
    identities: Vec<(String, ContentId)>,
    dirty: bool,
}

impl AtlasBuilder {
    /// The current canvas extent.
    pub closed spec fn canvas(self) -> Extent {
        self.allocator.canvas()
    }

    /// The fingerprints of all stored contents, oldest first.
    pub closed spec fn ids(self) -> Seq<ContentId> {
        self.entries@.map(|k: int, e: RegEntry| e.id)
    }

    /// Whether content with this fingerprint is stored.
    pub closed spec fn contains_id(self, id: ContentId) -> bool {
        exists|k: int| 0 <= k < self.entries@.len() && self.entries@[k].id == id
    }

    /// The registry position of the entry stored under `id`.
    pub closed spec fn entry_index(self, id: ContentId) -> int {
        choose|k: int| 0 <= k < self.entries@.len() && self.entries@[k].id == id
    }

    /// The region currently assigned to the content stored under `id`.
    pub closed spec fn rect_of(self, id: ContentId) -> Rect {
        self.entries@[self.entry_index(id)].alloc.rect
    }

    /// The pixel buffer stored under `id`.
    pub closed spec fn image_of(self, id: ContentId) -> StoredImage {
        self.images@[self.entry_index(id)]
    }

    /// The submitted identities with their fingerprints, in submission
    /// order, each identity once (a resubmitted identity keeps its place
    /// and takes the new fingerprint).
    pub closed spec fn identities(self) -> Seq<(Seq<char>, ContentId)> {
        self.identities@.map(|j: int, p: (String, ContentId)| (p.0@, p.1))
    }

    /// Whether this identity was recorded.
    pub closed spec fn has_identity(self, name: Seq<char>) -> bool {
        exists|j: int| 0 <= j < self.identities().len() && self.identities()[j].0 == name
    }

    /// The position of this identity's record.
    pub closed spec fn identity_index(self, name: Seq<char>) -> int {
        choose|j: int| 0 <= j < self.identities().len() && self.identities()[j].0 == name
    }

    /// Whether the layout may be fragmented: set by growth, cleared by a
    /// successful rearrange pass, which runs at the start of the final
    /// build.
    pub closed spec fn dirty(self) -> bool {
        self.dirty
    }

    /// The registry's own consistency: distinct fingerprints, one stored
    /// image per entry at the entry's position, every image consistent and
    /// no larger than its region, every identity resolved and recorded
    /// once.
    spec fn wf_registry(self) -> bool {
        &&& self.entries@.len() <= 0xffff
        &&& forall|k: int, l: int|
            #![trigger self.entries@[k], self.entries@[l]]
            0 <= k < l < self.entries@.len() ==> self.entries@[k].id != self.entries@[l].id
        &&& self.images@.len() == self.entries@.len()
        &&& forall|k: int|
            0 <= k < self.entries@.len() ==> (#[trigger] self.entries@[k]).image.spec_index() == k
        &&& forall|k: int| 0 <= k < self.images@.len() ==> (#[trigger] self.images@[k]).wf()
        &&& forall|k: int|
            0 <= k < self.entries@.len() ==> (#[trigger] self.images@[k]).width
                <= self.entries@[k].alloc.rect.width && self.images@[k].height
                <= self.entries@[k].alloc.rect.height
        &&& forall|j: int|
            0 <= j < self.identities@.len() ==> self.contains_id(
                (#[trigger] self.identities@[j]).1,
            )
        &&& forall|i: int, j: int|
            #![trigger self.identities@[i], self.identities@[j]]
            0 <= i < j < self.identities@.len() ==> self.identities@[i].0@
                != self.identities@[j].0@
    }

    /// A ghost snapshot of the builder's whole observable state.
    pub closed spec fn model(self) -> BuilderModel {
        BuilderModel {
            alloc: self.allocator.model(),
            entries: self.entries@.map(|k: int, e: RegEntry| (e.id, e.alloc)),
            images: self.images@,
            identities: self.identities(),
            dirty: self.dirty,
        }
    }

    /// A fingerprint is stored exactly when the model's registry holds it.
    proof fn lemma_model_contains(self, id: ContentId)
        ensures
            self.contains_id(id) == model_contains(self.model().entries, id),
    {
        if self.contains_id(id) {
            let k = self.entry_index(id);
            assert(self.entries@[k].id == id);
            assert(self.model().entries[k].0 == id);
        }
        if model_contains(self.model().entries, id) {
            let k = choose|k: int|
                0 <= k < self.model().entries.len() && self.model().entries[k].0 == id;
            assert(self.entries@[k].id == id);
        }
    }

    /// The builder and its model agree on where an identity is recorded.
    proof fn lemma_model_identity_index(self, name: Seq<char>)
        requires
            self.wf(),
            self.has_identity(name),
        ensures
            model_has_identity(self.model().identities, name),
            model_identity_index(self.model().identities, name) == self.identity_index(name),
    {
        let j1 = self.identity_index(name);
        assert(self.identities()[j1].0 == name);
        assert(model_has_identity(self.model().identities, name));
        let j2 = model_identity_index(self.model().identities, name);
        assert(self.identities()[j2].0 == name);
        if j1 != j2 {
            assert(self.identities@[j1].0@ == self.identities@[j2].0@);
            assert(false);
        }
    }

    /// The builder and its model agree on where a fingerprint is stored
    /// and which region it holds.
    proof fn lemma_model_rect(self, id: ContentId)
        requires
            self.wf(),
            self.contains_id(id),
        ensures
            model_contains(self.model().entries, id),
            model_entry_index(self.model().entries, id) == self.entry_index(id),
            model_rect_of(self.model().entries, id) == self.rect_of(id),
    {
        let k1 = self.entry_index(id);
        assert(self.entries@[k1].id == id);
        assert(self.model().entries[k1].0 == id);
        assert(model_contains(self.model().entries, id));
        let k2 = model_entry_index(self.model().entries, id);
        assert(self.model().entries[k2].0 == id);
        assert(self.entries@[k2].id == id);
        if k1 != k2 {
            assert(false);
        }
    }

    /// The builder's internal invariant: a consistent registry whose
    /// entries mirror the allocator's live allocations one for one.
    pub closed spec fn wf(self) -> bool {
        &&& self.wf_registry()
        &&& self.allocator.wf()
        &&& self.entries@.len() == self.allocator.allocs().len()
        &&& forall|k: int|
            0 <= k < self.entries@.len() ==> (#[trigger] self.entries@[k]).alloc
                == self.allocator.allocs()[k]
    }

    /// A fresh, empty builder over the default canvas: nothing is stored
    /// yet, and the whole starting state is pinned, so that two fresh
    /// builders given the same submissions pass through the same states.
    pub fn new() -> (r: AtlasBuilder)
        ensures
            r.wf(),
            r.canvas() == (Extent { width: INITIAL_DIM, height: INITIAL_DIM }),
            r.ids() =~= Seq::<ContentId>::empty(),
            r.identities() =~= Seq::<(Seq<char>, ContentId)>::empty(),
            !r.dirty(),
            forall|id: ContentId| !r.contains_id(id),
            r.model() == (BuilderModel {
                alloc: AllocModel {
                    width: INITIAL_DIM,
                    height: INITIAL_DIM,
                    shelves: Seq::<ShelfModel>::empty(),
                    allocs: Seq::<Allocation>::empty(),
                    next_id: 0,
                },
                entries: Seq::<(ContentId, Allocation)>::empty(),
                images: Seq::<StoredImage>::empty(),
                identities: Seq::<(Seq<char>, ContentId)>::empty(),
                dirty: false,
            }),
    {
        let r = AtlasBuilder {
            images: Arena::default(),
            entries: Vec::new(),
            allocator: AtlasAllocator::new(Extent { width: INITIAL_DIM, height: INITIAL_DIM }),
            identities: Vec::new(),
            dirty: false,
        };
        proof {
            assert(r.model().entries =~= Seq::<(ContentId, Allocation)>::empty());
            assert(r.model().identities =~= Seq::<(Seq<char>, ContentId)>::empty());
            assert(r.ids() =~= Seq::<ContentId>::empty());
            assert(r.identities() =~= Seq::<(Seq<char>, ContentId)>::empty());
        }
        r
    }

    /// The current canvas extent.
    pub fn canvas_size(&self) -> (r: Extent)
        ensures
            r == self.canvas(),
    {
        self.allocator.size()
    }

    /// How many distinct contents are stored.
    pub fn stored_count(&self) -> (n: usize)
        ensures
            n == self.ids().len(),
    {
        self.entries.len()
    }

    /// How many identities were recorded.
    pub fn identity_count(&self) -> (n: usize)
        ensures
            n == self.identities().len(),
    {
        self.identities.len()
    }

    /// Whether the layout may be fragmented.
    pub fn is_dirty(&self) -> (r: bool)
        ensures
            r == self.dirty(),
    {
        self.dirty
    }

    /// Whether content with this fingerprint is already stored.
    pub fn contains(&self, id: ContentId) -> (r: bool)
        ensures
            r == self.contains_id(id),
    {
        let n = self.entries.len();
        let mut k: usize = 0;
        while k < n
            invariant
                k <= n,
                n == self.entries@.len(),
                forall|i: int| 0 <= i < k ==> (#[trigger] self.entries@[i]).id != id,
            decreases n - k,
        {
            if self.entries[k].id == id {
                return true;
            }
            k = k + 1;
        }
        false
    }

    /// The region currently assigned to this fingerprint, if stored.
    pub fn rect_for(&self, id: ContentId) -> (r: Option<Rect>)
        requires
            self.wf(),
        ensures
            self.contains_id(id) ==> r == Some(self.rect_of(id)),
            !self.contains_id(id) ==> r is None,
    {
        let n = self.entries.len();
        let mut k: usize = 0;
        while k < n
            invariant
                self.wf(),
                k <= n,
                n == self.entries@.len(),
                forall|i: int| 0 <= i < k ==> (#[trigger] self.entries@[i]).id != id,
            decreases n - k,
        {
            if self.entries[k].id == id {
                proof {
                    assert(self.entries@[self.entry_index(id)].id == id);
                    assert(self.entry_index(id) == k);
                }
                return Some(self.entries[k].alloc.rect);
            }
            k = k + 1;
        }
        None
    }

    /// Two builder values with the same registry agree on every lookup:
    /// `choose` picks the one position the distinct fingerprints allow.
    proof fn lemma_same_entries_lookup(pre: AtlasBuilder, post: AtlasBuilder, id: ContentId)
        requires
            pre.entries@ == post.entries@,
            pre.images@ == post.images@,
            pre.contains_id(id),
            forall|k: int, l: int|
                #![trigger pre.entries@[k], pre.entries@[l]]
                0 <= k < l < pre.entries@.len() ==> pre.entries@[k].id != pre.entries@[l].id,
        ensures
            post.contains_id(id),
            post.entry_index(id) == pre.entry_index(id),
            post.rect_of(id) == pre.rect_of(id),
            post.image_of(id) == pre.image_of(id),
    {
        let k1 = pre.entry_index(id);
        assert(pre.entries@[k1].id == id);
        assert(post.entries@[k1].id == id);
        assert(post.contains_id(id));
        let k2 = post.entry_index(id);
        assert(post.entries@[k2].id == id);
        if k1 != k2 {
            assert(pre.entries@[k2].id == id);
            assert(false);
        }
    }

    /// The registry position of a stored fingerprint is the one holding it.
    proof fn lemma_entry_index_of(self, id: ContentId, k: int)
        requires
            self.wf(),
            0 <= k < self.entries@.len(),
            self.entries@[k].id == id,
        ensures
            self.contains_id(id),
            self.entry_index(id) == k,
    {
        assert(self.contains_id(id));
        let k2 = self.entry_index(id);
        assert(self.entries@[k2].id == id);
        if k2 != k {
            assert(self.entries@[k2].id != self.entries@[k].id);
            assert(false);
        }
    }

    /// Deduplication correctness: identities recorded for one fingerprint
    /// share one region. Together with the fingerprint being a pure
    /// function of the raw bytes ([`crate::fingerprint::fingerprint`]) and
    /// [`AtlasBuilder::submit`] recording exactly that fingerprint, two
    /// identities submitted with byte-identical content always resolve to
    /// the same rectangle.
    pub proof fn lemma_dedup(self, i: int, j: int)
        requires
            self.wf(),
            0 <= i < self.identities().len(),
            0 <= j < self.identities().len(),
            self.identities()[i].1 == self.identities()[j].1,
        ensures
            self.rect_of(self.identities()[i].1) == self.rect_of(self.identities()[j].1),
            self.contains_id(self.identities()[i].1),
    {
        assert(self.contains_id(self.identities@[i].1));
    }

    /// Non-overlap invariant: after any sequence of submissions, growth
    /// and rearrange passes, the regions of two distinct stored contents
    /// never overlap, and every region lies fully inside the current
    /// canvas.
    pub proof fn lemma_non_overlap(self, id1: ContentId, id2: ContentId)
        requires
            self.wf(),
            self.contains_id(id1),
            self.contains_id(id2),
            id1 != id2,
        ensures
            disjoint(self.rect_of(id1), self.rect_of(id2)),
            within(self.rect_of(id1), self.canvas()),
            within(self.rect_of(id2), self.canvas()),
    {
        let k1 = self.entry_index(id1);
        let k2 = self.entry_index(id2);
        assert(self.entries@[k1].id == id1);
        assert(self.entries@[k2].id == id2);
        assert(k1 != k2);
        assert(self.entries@[k1].alloc == self.allocator.allocs()[k1]);
        assert(self.entries@[k2].alloc == self.allocator.allocs()[k2]);
        self.allocator.lemma_allocs_disjoint(k1, k2);
        self.allocator.lemma_allocs_within(k1);
        self.allocator.lemma_allocs_within(k2);
    }

    /// Record `identity` as naming the content stored under `id`: a fresh
    /// identity is appended, a known one keeps its place and takes `id`.
    fn record_identity(&mut self, identity: String, id: ContentId)
        requires
            old(self).wf(),
            old(self).contains_id(id),
        ensures
            final(self).wf(),
            final(self).identities() =~= if old(self).has_identity(identity@) {
                old(self).identities().update(
                    old(self).identity_index(identity@),
                    (identity@, id),
                )
            } else {
                old(self).identities().push((identity@, id))
            },
            final(self).ids() == old(self).ids(),
            final(self).entries@ == old(self).entries@,
            final(self).images@ == old(self).images@,
            final(self).allocator == old(self).allocator,
            final(self).dirty() == old(self).dirty(),
            final(self).model() == model_record(old(self).model(), identity@, id),
    {
        let n = self.identities.len();
        let mut j: usize = 0;
        while j < n
            invariant
                old(self).wf(),
                old(self).contains_id(id),
                *self == *old(self),
                j <= n,
                n == self.identities@.len(),
                forall|i: int| 0 <= i < j ==> (#[trigger] self.identities@[i]).0@ != identity@,
            decreases n - j,
        {
            if self.identities[j].0 == identity {
                proof {
                    assert(old(self).identities()[j as int].0 == identity@);
                    assert(old(self).has_identity(identity@));
                    assert(old(self).identity_index(identity@) == j) by {
                        let jj = old(self).identity_index(identity@);
                        if jj != j {
                            assert(old(self).identities@[jj].0@ == old(self).identities@[
                                j as int].0@);
                        }
                    }
                }
                self.identities[j] = (identity, id);
                proof {
                    assert(final(self).identities() =~= old(self).identities().update(
                        j as int,
                        (identity@, id),
                    ));
                    assert forall|jj: int| 0 <= jj < self.identities@.len() implies self.contains_id(
                        (#[trigger] self.identities@[jj]).1,
                    ) by {
                        if jj == j {
                            Self::lemma_same_entries_lookup(*old(self), *self, id);
                        } else {
                            assert(old(self).contains_id(old(self).identities@[jj].1));
                            Self::lemma_same_entries_lookup(
                                *old(self),
                                *self,
                                old(self).identities@[jj].1,
                            );
                        }
                    }
                    assert(final(self).wf());
                    Self::lemma_model_identity_index(*old(self), identity@);
                    assert(final(self).model().identities =~= model_record(
                        old(self).model(),
                        identity@,
                        id,
                    ).identities);
                    assert(final(self).model() == model_record(old(self).model(), identity@, id));
                }
                return ;
            }
            j = j + 1;
        }
        proof {
            assert(!old(self).has_identity(identity@));
        }
        self.identities.push((identity, id));
        proof {
            assert(final(self).identities() =~= old(self).identities().push((identity@, id)));
            assert forall|jj: int| 0 <= jj < self.identities@.len() implies self.contains_id(
                (#[trigger] self.identities@[jj]).1,
            ) by {
                if jj == self.identities@.len() - 1 {
                    Self::lemma_same_entries_lookup(*old(self), *self, id);
                } else {
                    assert(old(self).contains_id(old(self).identities@[jj].1));
                    Self::lemma_same_entries_lookup(*old(self), *self, old(self).identities@[jj].1);
                }
            }
            assert(final(self).wf());
            assert(!model_has_identity(old(self).model().identities, identity@)) by {
                if model_has_identity(old(self).model().identities, identity@) {
                    let w = model_identity_index(old(self).model().identities, identity@);
                    assert(old(self).identities()[w].0 == identity@);
                    assert(old(self).has_identity(identity@));
                }
            }
            assert(final(self).model().identities =~= model_record(
                old(self).model(),
                identity@,
                id,
            ).identities);
            assert(final(self).model() == model_record(old(self).model(), identity@, id));
        }
    }

    /// Submit raw image bytes under an identity: the deduplication fast
    /// path.
    ///
    /// The bytes are fingerprinted; if their content is already stored the
    /// identity is recorded at once and no decoding is needed. Otherwise
    /// nothing is recorded yet: the caller must decode the bytes and hand
    /// the pixel buffer, the same identity and the returned fingerprint to
    /// [`AtlasBuilder::submit_decoded`].
    pub fn submit(&mut self, identity: String, data: &[u8]) -> (r: SubmitOutcome)
        requires
            old(self).wf(),
        ensures
            final(self).wf(),
            r matches SubmitOutcome::Existing(id) ==> {
                &&& id == content_id_of(data@)
                &&& old(self).contains_id(id)
                &&& final(self).identities() =~= if old(self).has_identity(identity@) {
                    old(self).identities().update(
                        old(self).identity_index(identity@),
                        (identity@, id),
                    )
                } else {
                    old(self).identities().push((identity@, id))
                }
                &&& final(self).ids() == old(self).ids()
                &&& final(self).canvas() == old(self).canvas()
                &&& final(self).dirty() == old(self).dirty()
                &&& forall|other: ContentId|
                    old(self).contains_id(other) ==> final(self).rect_of(other) == old(self).rect_of(other) && final(self).image_of(other) == old(self).image_of(other)
                        && final(self).contains_id(other)
            },
            r matches SubmitOutcome::NeedsDecode(id) ==> {
                &&& id == content_id_of(data@)
                &&& !old(self).contains_id(id)
                &&& *final(self) == *old(self)
            },
            (r matches SubmitOutcome::Existing(id) && id == content_id_of(data@)) <==> old(self).contains_id(content_id_of(data@)),
            forall|other: ContentId|
                final(self).contains_id(other) == old(self).contains_id(other),
            final(self).model() == spec_submit(old(self).model(), identity@, data@).0,
            r == spec_submit(old(self).model(), identity@, data@).1,
    {
        let id = ContentId::of(data);
        proof {
            self.lemma_model_contains(id);
        }
        if self.contains(id) {
            self.record_identity(identity, id);
            proof {
                assert forall|other: ContentId|
                    final(self).contains_id(other) == old(self).contains_id(other) by {
                    if old(self).contains_id(other) {
                        let k = old(self).entry_index(other);
                        assert(old(self).entries@[k].id == other);
                        assert(self.entries@[k].id == other);
                    }
                    if self.contains_id(other) {
                        let k = self.entry_index(other);
                        assert(self.entries@[k].id == other);
                        assert(old(self).entries@[k].id == other);
                    }
                }
            }
            SubmitOutcome::Existing(id)
        } else {
            SubmitOutcome::NeedsDecode(id)
        }
    }

    /// A lookup survives any step that keeps every stored fingerprint at
    /// its registry position.
    proof fn lemma_lookup_preserved(pre: AtlasBuilder, post: AtlasBuilder, id: ContentId)
        requires
            pre.contains_id(id),
            pre.entries@.len() <= post.entries@.len(),
            forall|k: int|
                0 <= k < pre.entries@.len() ==> (#[trigger] post.entries@[k]).id
                    == pre.entries@[k].id,
            forall|k: int, l: int|
                #![trigger post.entries@[k], post.entries@[l]]
                0 <= k < l < post.entries@.len() ==> post.entries@[k].id != post.entries@[l].id,
        ensures
            post.contains_id(id),
            post.entry_index(id) == pre.entry_index(id),
            0 <= pre.entry_index(id) < pre.entries@.len(),
    {
        let k1 = pre.entry_index(id);
        assert(pre.entries@[k1].id == id);
        assert(post.entries@[k1].id == id);
        assert(post.contains_id(id));
        let k2 = post.entry_index(id);
        assert(post.entries@[k2].id == id);
        if k1 != k2 {
            assert(false);
        }
    }

    /// The position of the change that relocates the allocation known
    /// under `h`, if there is one.
    fn find_change(changes: &Vec<Change>, h: AllocationHandle) -> (r: Option<usize>)
        ensures
            match r {
                Some(i) => i < changes@.len() && changes@[i as int].old_handle == h,
                None => forall|j: int|
                    0 <= j < changes@.len() ==> (#[trigger] changes@[j]).old_handle != h,
            },
    {
        let m = changes.len();
        let mut i: usize = 0;
        while i < m
            invariant
                i <= m,
                m == changes@.len(),
                forall|j: int| 0 <= j < i ==> (#[trigger] changes@[j]).old_handle != h,
            decreases m - i,
        {
            if changes[i].old_handle == h {
                return Some(i);
            }
            i = i + 1;
        }
        None
    }

    /// Rewrite the registry along a change list, all or nothing.
    ///
    /// If the list carries failures, nothing is touched and the failures
    /// are returned in the error. Otherwise every entry whose handle the
    /// list relocates is rewritten to the new handle and rectangle, and
    /// every other entry stays as it is.
    fn apply_change_list(&mut self, list: &ChangeList) -> (r: Result<(), Error>)
        requires
            list.failures@.len() == 0 ==> forall|i: int, j: int|
                #![trigger list.changes@[i], list.changes@[j]]
                0 <= i < j < list.changes@.len() ==> list.changes@[i].old_handle
                    != list.changes@[j].old_handle,
        ensures
            r is Err <==> list.failures@.len() > 0,
            r matches Err(e) ==> *final(self) == *old(self) && (e matches Error::AllocationsFailed(
                v,
            ) && v@ == list.failures@),
            r is Ok ==> {
                &&& final(self).entries@.len() == old(self).entries@.len()
                &&& forall|k: int|
                    0 <= k < old(self).entries@.len() ==> {
                        &&& (#[trigger] final(self).entries@[k]).id == old(self).entries@[k].id
                        &&& final(self).entries@[k].image == old(self).entries@[k].image
                        &&& final(self).entries@[k].alloc == if has_change(
                            list.changes@,
                            old(self).entries@[k].alloc.handle,
                        ) {
                            list.changes@[change_index(
                                list.changes@,
                                old(self).entries@[k].alloc.handle,
                            )].new
                        } else {
                            old(self).entries@[k].alloc
                        }
                    }
                &&& final(self).images@ == old(self).images@
                &&& final(self).identities@ == old(self).identities@
                &&& final(self).allocator == old(self).allocator
                &&& final(self).dirty == old(self).dirty
            },
    {
        if list.failures.len() > 0 {
            let mut failed: Vec<Allocation> = Vec::new();
            let m = list.failures.len();
            let mut i: usize = 0;
            while i < m
                invariant
                    i <= m,
                    m == list.failures@.len(),
                    failed@ =~= list.failures@.take(i as int),
                decreases m - i,
            {
                failed.push(list.failures[i]);
                proof {
                    assert(failed@ =~= list.failures@.take(i + 1 as int));
                }
                i = i + 1;
            }
            proof {
                assert(failed@ =~= list.failures@);
            }
            return Err(Error::AllocationsFailed(failed));
        }
        let n = self.entries.len();
        let mut k: usize = 0;
        while k < n
            invariant
                k <= n,
                n == self.entries@.len(),
                n == old(self).entries@.len(),
                self.images@ == old(self).images@,
                self.identities@ == old(self).identities@,
                self.allocator == old(self).allocator,
                self.dirty == old(self).dirty,
                forall|i: int, j: int|
                    #![trigger list.changes@[i], list.changes@[j]]
                    0 <= i < j < list.changes@.len() ==> list.changes@[i].old_handle
                        != list.changes@[j].old_handle,
                forall|kk: int| k <= kk < n ==> self.entries@[kk] == old(self).entries@[kk],
                forall|kk: int|
                    0 <= kk < k ==> {
                        &&& (#[trigger] self.entries@[kk]).id == old(self).entries@[kk].id
                        &&& self.entries@[kk].image == old(self).entries@[kk].image
                        &&& self.entries@[kk].alloc == if has_change(
                            list.changes@,
                            old(self).entries@[kk].alloc.handle,
                        ) {
                            list.changes@[change_index(
                                list.changes@,
                                old(self).entries@[kk].alloc.handle,
                            )].new
                        } else {
                            old(self).entries@[kk].alloc
                        }
                    },
            decreases n - k,
        {
            let entry = self.entries[k];
            match Self::find_change(&list.changes, entry.alloc.handle) {
                Some(i) => {
                    self.entries[k] = RegEntry {
                        id: entry.id,
                        image: entry.image,
                        alloc: list.changes[i].new,
                    };
                    proof {
                        assert(has_change(list.changes@, entry.alloc.handle));
                        let ci = change_index(list.changes@, entry.alloc.handle);
                        assert(list.changes@[ci].old_handle == entry.alloc.handle);
                        if ci != i {
                            assert(false);
                        }
                    }
                },
                None => {
                    proof {
                        assert(!has_change(list.changes@, entry.alloc.handle)) by {
                            if has_change(list.changes@, entry.alloc.handle) {
                                let ci = change_index(list.changes@, entry.alloc.handle);
                                assert(list.changes@[ci].old_handle == entry.alloc.handle);
                            }
                        }
                    }
                },
            }
            k = k + 1;
        }
        Ok(())
    }

    /// Double the canvas (clamped to the supported maximum), place every
    /// live allocation again and rewrite the registry accordingly — all or
    /// nothing: when the pass cannot place every allocation, the failures
    /// come back and the allocator and the registry are restored to the
    /// last known-good state.
    fn grow(&mut self) -> (r: Result<(), Error>)
        requires
            old(self).wf(),
        ensures
            final(self).wf(),
            final(self).images@ == old(self).images@,
            final(self).identities@ == old(self).identities@,
            r is Ok <==> spec_resize(
                old(self).model().alloc,
                (Extent {
                    width: grown_dim(old(self).canvas().width as int) as u32,
                    height: grown_dim(old(self).canvas().height as int) as u32,
                }),
            ).2.len() == 0,
            r matches Err(e) ==> {
                &&& final(self).model() == old(self).model()
                &&& final(self).entries@ == old(self).entries@
                &&& final(self).dirty() == old(self).dirty()
                &&& e matches Error::AllocationsFailed(v)
                &&& (e matches Error::AllocationsFailed(v) ==> v@ == spec_resize(
                    old(self).model().alloc,
                    (Extent {
                        width: grown_dim(old(self).canvas().width as int) as u32,
                        height: grown_dim(old(self).canvas().height as int) as u32,
                    }),
                ).2 && v@.len() > 0)
            },
            r is Ok ==> {
                &&& final(self).canvas().width == grown_dim(old(self).canvas().width as int)
                &&& final(self).canvas().height == grown_dim(old(self).canvas().height as int)
                &&& final(self).dirty()
                &&& final(self).entries@.len() == old(self).entries@.len()
                &&& (forall|k: int|
                    0 <= k < old(self).entries@.len() ==> {
                        &&& (#[trigger] final(self).entries@[k]).id == old(self).entries@[k].id
                        &&& final(self).entries@[k].image == old(self).entries@[k].image
                        &&& final(self).entries@[k].alloc.rect.width == old(self).entries@[k].alloc.rect.width
                        &&& final(self).entries@[k].alloc.rect.height == old(self).entries@[k].alloc.rect.height
                    })
                &&& final(self).model() == spec_grow(old(self).model())
            },
    {
        let ghost pre = *self;
        let cur = self.allocator.size();
        let new_width = if cur.width > MAX_DIM / 2 {
            MAX_DIM
        } else {
            cur.width * 2
        };
        let new_height = if cur.height > MAX_DIM / 2 {
            MAX_DIM
        } else {
            cur.height * 2
        };
        let new_size = Extent { width: new_width, height: new_height };
        proof {
            self.allocator.lemma_canvas_bounds();
            self.allocator.lemma_model_fields();
            assert(new_width == grown_dim(pre.canvas().width as int));
            assert(new_height == grown_dim(pre.canvas().height as int));
        }
        let saved = self.allocator.snapshot();
        let list = self.allocator.resize_and_rearrange(new_size);
        proof {
            if list.failures@.len() == 0 {
                assert forall|i: int, j: int|
                    #![trigger list.changes@[i], list.changes@[j]]
                    0 <= i < j < list.changes@.len() implies list.changes@[i].old_handle
                    != list.changes@[j].old_handle by {
                    pre.allocator.lemma_handles_distinct(i, j);
                }
            }
        }
        match self.apply_change_list(&list) {
            Err(e) => {
                self.allocator = saved;
                proof {
                    pre.allocator.lemma_model_fields();
                    self.allocator.lemma_model_fields();
                    assert(self.allocator.model() == pre.allocator.model());
                    assert(self.allocator.allocs() == pre.allocator.allocs());
                    assert(final(self).model() == pre.model());
                    assert(final(self).wf());
                }
                return Err(e);
            },
            Ok(()) => {},
        }
        self.dirty = true;
        proof {
            // Change `k` relocates what entry `k` referenced, so the
            // registry mirrors the allocator again, at the old sizes.
            assert forall|k: int| 0 <= k < self.entries@.len() implies {
                &&& (#[trigger] self.entries@[k]).alloc == self.allocator.allocs()[k]
                &&& self.entries@[k].id == pre.entries@[k].id
                &&& self.entries@[k].image == pre.entries@[k].image
                &&& self.entries@[k].alloc.rect.width == pre.entries@[k].alloc.rect.width
                &&& self.entries@[k].alloc.rect.height == pre.entries@[k].alloc.rect.height
            } by {
                let h = pre.entries@[k].alloc.handle;
                assert(list.changes@[k].old_handle == pre.allocator.allocs()[k].handle);
                assert(has_change(list.changes@, h));
                let ci = change_index(list.changes@, h);
                assert(list.changes@[ci].old_handle == h);
                if ci != k {
                    assert(false);
                }
                assert(self.entries@[k].alloc == list.changes@[k].new);
                assert(list.changes@[k].new.rect.width == pre.allocator.allocs()[k].rect.width);
                assert(pre.entries@[k].alloc == pre.allocator.allocs()[k]);
            }
            assert forall|j: int| 0 <= j < self.identities@.len() implies self.contains_id(
                (#[trigger] self.identities@[j]).1,
            ) by {
                assert(pre.contains_id(pre.identities@[j].1));
                let w = pre.entry_index(pre.identities@[j].1);
                assert(pre.entries@[w].id == pre.identities@[j].1);
                assert(self.entries@[w].id == pre.identities@[j].1);
            }
            assert forall|k: int| 0 <= k < self.images@.len() implies (
            #[trigger] self.images@[k]).width <= self.entries@[k].alloc.rect.width
                && self.images@[k].height <= self.entries@[k].alloc.rect.height by {
                assert(pre.images@[k].width <= pre.entries@[k].alloc.rect.width);
            }
            assert(final(self).wf());
            pre.allocator.lemma_model_fields();
            assert(pre.model().alloc.width == pre.canvas().width);
            assert(pre.model().alloc.height == pre.canvas().height);
            assert(1 <= grown_dim(pre.canvas().width as int) <= MAX_DIM);
            assert(1 <= grown_dim(pre.canvas().height as int) <= MAX_DIM);
            assert(new_size == Extent {
                width: grown_dim(pre.model().alloc.width as int) as u32,
                height: grown_dim(pre.model().alloc.height as int) as u32,
            });
            assert(final(self).model().entries =~= spec_grow(pre.model()).entries);
            assert(final(self).model() == spec_grow(pre.model()));
        }
        Ok(())
    }

    /// Store a decoded image under its fingerprint, allocate its region —
    /// growing the canvas by doubling until the request is placed — and
    /// record the identity.
    ///
    /// The caller obtains `id` from [`AtlasBuilder::submit`], decodes the
    /// bytes only when it said [`SubmitOutcome::NeedsDecode`], and may pass
    /// an explicit size no smaller than the image to reserve a larger
    /// region. Growth never loses stored content: a growth step that cannot
    /// place every existing allocation is refused, the builder stays at the
    /// last known-good state and the failures come back as
    /// [`Error::AllocationsFailed`]. A request that cannot be placed even on
    /// the largest supported canvas comes back as [`Error::AtlasFull`]: the
    /// design grows without bound, and that value is the panic-free surface
    /// of its fatal exhaustion at the machine cap on canvas dimensions.
    pub fn submit_decoded(
        &mut self,
        identity: String,
        id: ContentId,
        image: StoredImage,
        explicit_size: Option<Extent>,
    ) -> (r: Result<ContentId, Error>)
        requires
            old(self).wf(),
            !old(self).contains_id(id),
            image.wf(),
            explicit_size matches Some(e) ==> image.width <= e.width <= MAX_DIM && image.height
                <= e.height <= MAX_DIM,
            old(self).ids().len() < 0xffff,
        ensures
            final(self).wf(),
            final(self).canvas().width >= old(self).canvas().width,
            final(self).canvas().height >= old(self).canvas().height,
            forall|other: ContentId|
                other != id ==> final(self).contains_id(other) == old(self).contains_id(other),
            forall|other: ContentId|
                old(self).contains_id(other) ==> final(self).contains_id(other) && final(self).image_of(other) == old(self).image_of(other) && final(self).rect_of(other).width
                    == old(self).rect_of(other).width && final(self).rect_of(other).height == old(self).rect_of(other).height,
            final(self).model() == spec_submit_decoded(
                old(self).model(),
                identity@,
                id,
                image,
                explicit_size,
            ).0,
            r is Ok <==> spec_submit_decoded(
                old(self).model(),
                identity@,
                id,
                image,
                explicit_size,
            ).1 is Some,
            r matches Ok(rid) ==> rid == id,
            r is Ok ==> {
                &&& final(self).contains_id(id)
                &&& final(self).ids() =~= old(self).ids().push(id)
                &&& final(self).image_of(id) == image
                &&& final(self).rect_of(id).width == alloc_extent(image, explicit_size).width
                &&& final(self).rect_of(id).height == alloc_extent(image, explicit_size).height
                &&& within(final(self).rect_of(id), final(self).canvas())
                &&& final(self).identities() =~= (if old(self).has_identity(identity@) {
                    old(self).identities().update(
                        old(self).identity_index(identity@),
                        (identity@, id),
                    )
                } else {
                    old(self).identities().push((identity@, id))
                })
            },
            r is Err ==> final(self).ids() == old(self).ids() && final(self).identities() == old(self).identities() && !final(self).contains_id(id),
            r matches Err(e) ==> (match e {
                Error::AllocationsFailed(v) => v@ == spec_submit_decoded(
                    old(self).model(),
                    identity@,
                    id,
                    image,
                    explicit_size,
                ).2 && v@.len() > 0,
                Error::AtlasFull => spec_submit_decoded(
                    old(self).model(),
                    identity@,
                    id,
                    image,
                    explicit_size,
                ).2.len() == 0,
            }),
            spec_place(old(self).model().alloc, alloc_extent(image, explicit_size)).1 is Some
                ==> r is Ok && final(self).canvas() == old(self).canvas() && final(self).dirty()
                == old(self).dirty() && (forall|other: ContentId|
                old(self).contains_id(other) ==> final(self).rect_of(other) == old(self).rect_of(
                    other,
                )),
            (spec_place(old(self).model().alloc, alloc_extent(image, explicit_size)).1 is None
                && r is Ok) ==> final(self).dirty() && final(self).canvas().width >= grown_dim(
                old(self).canvas().width as int,
            ) && final(self).canvas().height >= grown_dim(old(self).canvas().height as int),
    {
        let ext = match explicit_size {
            Some(e) => e,
            None => Extent { width: image.width, height: image.height },
        };
        proof {
            self.allocator.lemma_canvas_bounds();
            self.allocator.lemma_model_fields();
        }
        let mut alloc_opt = self.allocator.allocate(ext);
        proof {
            match alloc_opt {
                None => {
                    assert(*self == *old(self));
                },
                Some(a) => {
                    assert(self.model().entries == old(self).model().entries);
                    assert(self.model().images == old(self).model().images);
                    assert(self.model().identities == old(self).model().identities);
                    assert(self.model().dirty == old(self).model().dirty);
                    assert(spec_grow_loop(old(self).model(), ext) == (
                        self.model(),
                        Some(a),
                        Seq::<Allocation>::empty(),
                    ));
                },
            }
        }
        while alloc_opt.is_none()
            invariant
                old(self).wf(),
                !old(self).contains_id(id),
                image.wf(),
                1 <= ext.width <= MAX_DIM,
                1 <= ext.height <= MAX_DIM,
                ext == alloc_extent(image, explicit_size),
                self.wf_registry(),
                self.allocator.wf(),
                self.entries@.len() == old(self).entries@.len(),
                forall|k: int|
                    0 <= k < old(self).entries@.len() ==> {
                        &&& (#[trigger] self.entries@[k]).id == old(self).entries@[k].id
                        &&& self.entries@[k].image == old(self).entries@[k].image
                        &&& self.entries@[k].alloc.rect.width == old(self).entries@[k].alloc.rect.width
                        &&& self.entries@[k].alloc.rect.height == old(self).entries@[k].alloc.rect.height
                    },
                self.images@ == old(self).images@,
                self.identities@ == old(self).identities@,
                spec_place(old(self).model().alloc, ext).1 is Some ==> (alloc_opt is Some
                    && self.canvas() == old(self).canvas() && self.dirty == old(self).dirty
                    && self.entries@ == old(self).entries@),
                (spec_place(old(self).model().alloc, ext).1 is None && alloc_opt is Some) ==> (
                self.dirty && self.canvas().width >= grown_dim(old(self).canvas().width as int)
                    && self.canvas().height >= grown_dim(old(self).canvas().height as int)),
                self.canvas().width >= old(self).canvas().width,
                self.canvas().height >= old(self).canvas().height,
                self.canvas().width <= MAX_DIM,
                self.canvas().height <= MAX_DIM,
                (self.canvas() == old(self).canvas() && self.dirty == old(self).dirty)
                    || (self.dirty && self.canvas().width >= grown_dim(
                    old(self).canvas().width as int,
                ) && self.canvas().height >= grown_dim(old(self).canvas().height as int)),
                match alloc_opt {
                    None => {
                        &&& self.wf()
                        &&& spec_place(self.model().alloc, ext).1 is None
                        &&& spec_grow_loop(old(self).model(), ext) == spec_grow_loop(
                            self.model(),
                            ext,
                        )
                    },
                    Some(a) => {
                        &&& spec_grow_loop(old(self).model(), ext) == (
                            self.model(),
                            Some(a),
                            Seq::<Allocation>::empty(),
                        )
                        &&& self.entries@.len() + 1 == self.allocator.allocs().len()
                        &&& forall|k: int|
                            0 <= k < self.entries@.len() ==> (#[trigger] self.entries@[k]).alloc
                                == self.allocator.allocs()[k]
                        &&& self.allocator.allocs().last() == a
                        &&& a.rect.width == ext.width
                        &&& a.rect.height == ext.height
                        &&& within(a.rect, self.canvas())
                        &&& forall|k: int|
                            0 <= k < self.entries@.len() ==> (#[trigger] self.entries@[k]).alloc.handle
                                != a.handle
                    },
                },
            decreases 2 * MAX_DIM - self.canvas().width - self.canvas().height,
        {
            let cur = self.allocator.size();
            if cur.width == MAX_DIM && cur.height == MAX_DIM {
                proof {
                    self.allocator.lemma_model_fields();
                    assert(spec_grow_loop(self.model(), ext) == (
                        self.model(),
                        Option::<Allocation>::None,
                        Seq::<Allocation>::empty(),
                    ));
                    assert(final(self).model() == spec_submit_decoded(
                        old(self).model(),
                        identity@,
                        id,
                        image,
                        explicit_size,
                    ).0);
                    assert forall|other: ContentId|
                        other != id implies final(self).contains_id(other) == old(self).contains_id(
                        other,
                    ) by {
                        if old(self).contains_id(other) {
                            let k = old(self).entry_index(other);
                            assert(old(self).entries@[k].id == other);
                            assert(self.entries@[k].id == other);
                        }
                        if self.contains_id(other) {
                            let k = self.entry_index(other);
                            assert(self.entries@[k].id == other);
                            assert(old(self).entries@[k].id == other);
                        }
                    }
                    assert forall|other: ContentId| old(self).contains_id(other) implies self.contains_id(other) && self.image_of(other) == old(self).image_of(other)
                        && self.rect_of(other).width == old(self).rect_of(other).width
                        && self.rect_of(other).height == old(self).rect_of(other).height by {
                        Self::lemma_lookup_preserved(*old(self), *self, other);
                    }
                    assert(final(self).ids() =~= old(self).ids());
                    assert(!final(self).contains_id(id)) by {
                        if self.contains_id(id) {
                            let k = self.entry_index(id);
                            assert(self.entries@[k].id == id);
                            assert(old(self).entries@[k].id == id);
                        }
                    }
                }
                return Err(Error::AtlasFull);
            }
            let ghost before = *self;
            proof {
                self.allocator.lemma_canvas_bounds();
                self.allocator.lemma_model_fields();
                assert(model_dims_ok(before.model()));
                assert(!model_at_max(before.model()));
            }
            match self.grow() {
                Ok(()) => {
                    proof {
                        assert(spec_grow_loop(before.model(), ext) == spec_grow_loop(
                            spec_grow(before.model()),
                            ext,
                        ));
                        assert(self.model() == spec_grow(before.model()));
                        assert(spec_grow_loop(old(self).model(), ext) == spec_grow_loop(
                            self.model(),
                            ext,
                        ));
                    }
                },
                Err(e) => {
                    proof {
                        before.allocator.lemma_model_fields();
                        self.allocator.lemma_model_fields();
                        assert(self.canvas() == before.canvas());
                        assert(spec_grow_loop(before.model(), ext) == (
                            before.model(),
                            Option::<Allocation>::None,
                            spec_resize(
                                before.model().alloc,
                                (Extent {
                                    width: grown_dim(before.canvas().width as int) as u32,
                                    height: grown_dim(before.canvas().height as int) as u32,
                                }),
                            ).2,
                        ));
                        assert(final(self).model() == spec_submit_decoded(
                            old(self).model(),
                            identity@,
                            id,
                            image,
                            explicit_size,
                        ).0);
                        assert forall|other: ContentId|
                            other != id implies final(self).contains_id(other) == old(self).contains_id(other) by {
                            if old(self).contains_id(other) {
                                let k = old(self).entry_index(other);
                                assert(old(self).entries@[k].id == other);
                                assert(self.entries@[k].id == other);
                            }
                            if self.contains_id(other) {
                                let k = self.entry_index(other);
                                assert(self.entries@[k].id == other);
                                assert(old(self).entries@[k].id == other);
                            }
                        }
                        assert forall|other: ContentId| old(self).contains_id(other) implies self.contains_id(other) && self.image_of(other) == old(self).image_of(other)
                            && self.rect_of(other).width == old(self).rect_of(other).width
                            && self.rect_of(other).height == old(self).rect_of(other).height by {
                            Self::lemma_lookup_preserved(*old(self), *self, other);
                        }
                        assert(final(self).ids() =~= old(self).ids());
                        assert(!final(self).contains_id(id)) by {
                            if self.contains_id(id) {
                                let k = self.entry_index(id);
                                assert(self.entries@[k].id == id);
                                assert(old(self).entries@[k].id == id);
                            }
                        }
                    }
                    return Err(e);
                },
            }
            proof {
                self.allocator.lemma_canvas_bounds();
                assert(self.canvas().width + self.canvas().height > before.canvas().width
                    + before.canvas().height);
            }
            let ghost before_alloc = *self;
            alloc_opt = self.allocator.allocate(ext);
            proof {
                before_alloc.allocator.lemma_model_fields();
                self.allocator.lemma_model_fields();
                match alloc_opt {
                    None => {
                        assert(*self == before_alloc);
                    },
                    Some(a) => {
                        assert(self.model().entries == before_alloc.model().entries);
                        assert(self.model().images == before_alloc.model().images);
                        assert(self.model().identities == before_alloc.model().identities);
                        assert(self.model().dirty == before_alloc.model().dirty);
                        assert(spec_grow_loop(before_alloc.model(), ext) == (
                            self.model(),
                            Some(a),
                            Seq::<Allocation>::empty(),
                        ));
                    },
                }
            }
        }
        let a = alloc_opt.unwrap();
        let ghost mid = *self;
        let ghost run = spec_grow_loop(old(self).model(), ext);
        let idx = self.images.insert(image);
        self.entries.push(RegEntry { id, image: idx, alloc: a });
        proof {
            assert forall|k: int, l: int|
                #![trigger self.entries@[k], self.entries@[l]]
                0 <= k < l < self.entries@.len() implies self.entries@[k].id
                != self.entries@[l].id by {
                if l == self.entries@.len() - 1 {
                    if self.entries@[k].id == id {
                        assert(old(self).entries@[k].id == id);
                        assert(old(self).contains_id(id));
                        assert(false);
                    }
                }
            }
            assert forall|j: int| 0 <= j < self.identities@.len() implies self.contains_id(
                (#[trigger] self.identities@[j]).1,
            ) by {
                assert(mid.contains_id(mid.identities@[j].1));
                let w = mid.entry_index(mid.identities@[j].1);
                assert(self.entries@[w].id == mid.identities@[j].1);
            }
            assert forall|k: int| 0 <= k < self.entries@.len() implies (
            #[trigger] self.entries@[k]).alloc == self.allocator.allocs()[k] by {
                if k == self.entries@.len() - 1 {
                    assert(self.allocator.allocs().last() == a);
                }
            }
            assert(self.wf());
            Self::lemma_entry_index_of(*self, id, self.entries@.len() - 1);
            assert forall|k: int| 0 <= k < old(self).entries@.len() implies self.ids()[k] == old(self).ids()[k] by {
                assert(self.entries@[k].id == old(self).entries@[k].id);
            }
            assert(self.ids() =~= old(self).ids().push(id));
            assert forall|other: ContentId| old(self).contains_id(other) implies self.contains_id(
                other,
            ) && self.image_of(other) == old(self).image_of(other) && self.rect_of(other).width
                == old(self).rect_of(other).width && self.rect_of(other).height == old(self).rect_of(other).height by {
                Self::lemma_lookup_preserved(*old(self), *self, other);
            }
            if spec_place(old(self).model().alloc, ext).1 is Some {
                assert(mid.entries@ == old(self).entries@);
                assert forall|other: ContentId| old(self).contains_id(other) implies self.rect_of(
                    other,
                ) == old(self).rect_of(other) by {
                    Self::lemma_lookup_preserved(*old(self), *self, other);
                }
            }
            assert(self.model().entries =~= run.0.entries.push((id, a)));
            assert(self.model().images == run.0.images.push(image));
            assert(self.model() == BuilderModel {
                entries: run.0.entries.push((id, a)),
                images: run.0.images.push(image),
                ..run.0
            });
        }
        self.record_identity(identity, id);
        proof {
            assert forall|other: ContentId| old(self).contains_id(other) implies self.contains_id(
                other,
            ) && self.image_of(other) == old(self).image_of(other) && self.rect_of(other).width
                == old(self).rect_of(other).width && self.rect_of(other).height == old(self).rect_of(other).height by {
                Self::lemma_lookup_preserved(*old(self), *self, other);
            }
            Self::lemma_entry_index_of(*self, id, self.entries@.len() - 1);
            assert forall|other: ContentId|
                other != id implies final(self).contains_id(other) == old(self).contains_id(
                other,
            ) by {
                if self.contains_id(other) {
                    let k = self.entry_index(other);
                    assert(self.entries@[k].id == other);
                    if k < old(self).entries@.len() {
                        assert(old(self).entries@[k].id == other);
                    }
                }
            }
            if spec_place(old(self).model().alloc, ext).1 is Some {
                assert forall|other: ContentId| old(self).contains_id(other) implies self.rect_of(
                    other,
                ) == old(self).rect_of(other) by {
                    Self::lemma_lookup_preserved(*old(self), *self, other);
                }
            }
            assert(final(self).model() == spec_submit_decoded(
                old(self).model(),
                identity@,
                id,
                image,
                explicit_size,
            ).0);
        }
        Ok(id)
    }

    /// Run a rearrange pass if growth left the layout possibly fragmented,
    /// and rewrite the registry along its change list — all or nothing: a
    /// pass that cannot place every allocation is refused, the builder
    /// stays at the last known-good state and the failures come back.
    fn rearrange_if_dirty(&mut self) -> (r: Result<(), Error>)
        requires
            old(self).wf(),
        ensures
            final(self).wf(),
            final(self).canvas() == old(self).canvas(),
            final(self).images@ == old(self).images@,
            final(self).identities@ == old(self).identities@,
            final(self).entries@.len() == old(self).entries@.len(),
            forall|k: int|
                0 <= k < old(self).entries@.len() ==> {
                    &&& (#[trigger] final(self).entries@[k]).id == old(self).entries@[k].id
                    &&& final(self).entries@[k].image == old(self).entries@[k].image
                    &&& final(self).entries@[k].alloc.rect.width == old(self).entries@[k].alloc.rect.width
                    &&& final(self).entries@[k].alloc.rect.height == old(self).entries@[k].alloc.rect.height
                },
            !old(self).dirty() ==> *final(self) == *old(self) && r is Ok,
            r is Ok <==> spec_rearrange_if_dirty(old(self).model()).1.len() == 0,
            r is Ok ==> !final(self).dirty(),
            r matches Err(e) ==> {
                &&& final(self).model() == old(self).model()
                &&& final(self).dirty() == old(self).dirty()
                &&& e matches Error::AllocationsFailed(v)
                &&& (e matches Error::AllocationsFailed(v) ==> v@ == spec_rearrange_if_dirty(
                    old(self).model(),
                ).1 && v@.len() > 0)
            },
            final(self).model() == spec_rearrange_if_dirty(old(self).model()).0,
    {
        if !self.dirty {
            return Ok(());
        }
        let ghost pre = *self;
        let saved = self.allocator.snapshot();
        let list = self.allocator.rearrange();
        proof {
            pre.allocator.lemma_model_fields();
            assert((Extent { width: pre.model().alloc.width, height: pre.model().alloc.height })
                == pre.canvas());
            if list.failures@.len() == 0 {
                assert forall|i: int, j: int|
                    #![trigger list.changes@[i], list.changes@[j]]
                    0 <= i < j < list.changes@.len() implies list.changes@[i].old_handle
                    != list.changes@[j].old_handle by {
                    pre.allocator.lemma_handles_distinct(i, j);
                }
            }
        }
        match self.apply_change_list(&list) {
            Err(e) => {
                self.allocator = saved;
                proof {
                    pre.allocator.lemma_model_fields();
                    self.allocator.lemma_model_fields();
                    assert(self.allocator.model() == pre.allocator.model());
                    assert(self.allocator.allocs() == pre.allocator.allocs());
                    assert(final(self).model() == pre.model());
                    assert(final(self).wf());
                }
                return Err(e);
            },
            Ok(()) => {},
        }
        self.dirty = false;
        proof {
            assert forall|k: int| 0 <= k < self.entries@.len() implies {
                &&& (#[trigger] self.entries@[k]).alloc == self.allocator.allocs()[k]
                &&& self.entries@[k].id == pre.entries@[k].id
                &&& self.entries@[k].image == pre.entries@[k].image
                &&& self.entries@[k].alloc.rect.width == pre.entries@[k].alloc.rect.width
                &&& self.entries@[k].alloc.rect.height == pre.entries@[k].alloc.rect.height
            } by {
                let h = pre.entries@[k].alloc.handle;
                assert(list.changes@[k].old_handle == pre.allocator.allocs()[k].handle);
                assert(has_change(list.changes@, h));
                let ci = change_index(list.changes@, h);
                assert(list.changes@[ci].old_handle == h);
                if ci != k {
                    assert(false);
                }
                assert(self.entries@[k].alloc == list.changes@[k].new);
                assert(list.changes@[k].new.rect.width == pre.allocator.allocs()[k].rect.width);
                assert(pre.entries@[k].alloc == pre.allocator.allocs()[k]);
            }
            assert forall|j: int| 0 <= j < self.identities@.len() implies self.contains_id(
                (#[trigger] self.identities@[j]).1,
            ) by {
                assert(pre.contains_id(pre.identities@[j].1));
                let w = pre.entry_index(pre.identities@[j].1);
                assert(pre.entries@[w].id == pre.identities@[j].1);
                assert(self.entries@[w].id == pre.identities@[j].1);
            }
            assert forall|k: int| 0 <= k < self.images@.len() implies (
            #[trigger] self.images@[k]).width <= self.entries@[k].alloc.rect.width
                && self.images@[k].height <= self.entries@[k].alloc.rect.height by {
                assert(pre.images@[k].width <= pre.entries@[k].alloc.rect.width);
            }
            assert(final(self).wf());
            assert(final(self).model().entries =~= spec_rearrange_if_dirty(pre.model()).0.entries);
            assert(final(self).model() == spec_rearrange_if_dirty(pre.model()).0);
        }
        Ok(())
    }

    /// Finish the batch: compose the atlas pixel buffer and emit the
    /// sprite sheet, consuming the builder.
    ///
    /// A rearrange pass runs first when growth left the layout possibly
    /// fragmented; if that pass cannot place every allocation, the failures
    /// come back as [`Error::AllocationsFailed`] and no partial atlas is
    /// exposed. On success the atlas buffer has the canvas extent and holds
    /// every stored image's pixels unmodified at its region's origin, with
    /// every byte outside all regions zero; the sheet maps every submitted
    /// identity, in submission order, to the region of its content, so
    /// identities with byte-identical content share one region, and regions
    /// of distinct contents never overlap.
    pub fn build(self) -> (r: Result<(StoredImage, SpriteSheet), Error>)
        requires
            self.wf(),
        ensures
            r is Ok <==> spec_rearrange_if_dirty(self.model()).1.len() == 0,
            r matches Err(e) ==> (match e {
                Error::AllocationsFailed(v) => v@ == spec_rearrange_if_dirty(self.model()).1
                    && v@.len() > 0,
                Error::AtlasFull => false,
            }),
            r matches Ok(out) ==> {
                &&& out.0.wf()
                &&& out.0.width == self.canvas().width
                &&& out.0.height == self.canvas().height
                &&& out.1.view_pairs().len() == self.identities().len()
                &&& forall|j: int|
                    0 <= j < self.identities().len() ==> {
                        &&& (#[trigger] out.1.view_pairs()[j]).0 == self.identities()[j].0
                        &&& out.1.view_pairs()[j].1.rect.width == self.rect_of(
                            self.identities()[j].1,
                        ).width
                        &&& out.1.view_pairs()[j].1.rect.height == self.rect_of(
                            self.identities()[j].1,
                        ).height
                        &&& within(out.1.view_pairs()[j].1.rect, out.0.extent())
                        &&& region_matches(
                            out.0,
                            out.1.view_pairs()[j].1.rect,
                            self.image_of(self.identities()[j].1),
                        )
                    }
                // a region reserved larger than its image stays blank
                // beyond the image's extent
                &&& forall|j: int, p: int|
                    #![trigger out.1.view_pairs()[j], out.0.pixels@[p]]
                    0 <= j < self.identities().len() && 0 <= p < out.0.pixels@.len()
                        && region_covers(
                        out.0.width as int,
                        out.1.view_pairs()[j].1.rect.x as int,
                        out.1.view_pairs()[j].1.rect.y as int,
                        (Extent {
                            width: out.1.view_pairs()[j].1.rect.width,
                            height: out.1.view_pairs()[j].1.rect.height,
                        }),
                        p,
                    ) && !region_covers(
                        out.0.width as int,
                        out.1.view_pairs()[j].1.rect.x as int,
                        out.1.view_pairs()[j].1.rect.y as int,
                        self.image_of(self.identities()[j].1).extent(),
                        p,
                    ) ==> out.0.pixels@[p] == 0
                &&& forall|i: int, j: int|
                    #![trigger out.1.view_pairs()[i], out.1.view_pairs()[j]]
                    0 <= i < self.identities().len() && 0 <= j < self.identities().len()
                        && self.identities()[i].1 == self.identities()[j].1
                        ==> out.1.view_pairs()[i].1 == out.1.view_pairs()[j].1
                &&& forall|i: int, j: int|
                    #![trigger out.1.view_pairs()[i], out.1.view_pairs()[j]]
                    0 <= i < self.identities().len() && 0 <= j < self.identities().len()
                        && self.identities()[i].1 != self.identities()[j].1 ==> disjoint(
                        out.1.view_pairs()[i].1.rect,
                        out.1.view_pairs()[j].1.rect,
                    )
                // the sheet's regions are the stored contents' regions in
                // the finished layout
                &&& forall|j: int|
                    0 <= j < self.identities().len() ==> (#[trigger] out.1.view_pairs()[j]).1.rect
                        == spec_build_rect(self.model(), self.identities()[j].1)
                // every byte covered by no stored content's region holds the
                // fully initialized zero value
                &&& forall|p: int|
                    0 <= p < out.0.pixels@.len() && (forall|k: int|
                        0 <= k < self.ids().len() ==> !region_covers(
                            out.0.width as int,
                            spec_build_rect(self.model(), #[trigger] self.ids()[k]).x as int,
                            spec_build_rect(self.model(), self.ids()[k]).y as int,
                            self.image_of(self.ids()[k]).extent(),
                            p,
                        )) ==> #[trigger] out.0.pixels@[p] == 0
                // everything build produces is a function of the builder's
                // state alone: equal states yield byte-identical output
                &&& out.0.extent() == spec_build(self.model()).0
                &&& out.0.pixels@ == spec_build(self.model()).1
                &&& out.1.view_pairs() == spec_build(self.model()).2
            },
    {
        let mut b = self;
        match b.rearrange_if_dirty() {
            Ok(()) => {},
            Err(e) => {
                return Err(e);
            },
        }
        let canvas = b.allocator.size();
        proof {
            b.allocator.lemma_canvas_bounds();
            assert(4 * (canvas.width as int) * (canvas.height as int) <= 0x40000000)
                by (nonlinear_arith)
                requires
                    1 <= canvas.width <= MAX_DIM,
                    1 <= canvas.height <= MAX_DIM,
            {}
        }
        let len: usize = 4 * (canvas.width as usize) * (canvas.height as usize);
        let mut pixels: Vec<u8> = vec![0u8; len];
        proof {
            assert forall|p: int| 0 <= p < pixels@.len() implies pixels@[p] == 0 by {}
        }
        let n = b.entries.len();
        let mut i: usize = 0;
        while i < n
            invariant
                b.wf(),
                n == b.entries@.len(),
                canvas == b.canvas(),
                1 <= canvas.width <= MAX_DIM,
                1 <= canvas.height <= MAX_DIM,
                i <= n,
                pixels@.len() == 4 * canvas.width * canvas.height,
                forall|j: int, c: int, rr: int, k: int|
                    #![trigger b.images@[j].pixels@[pixel_byte_index(b.images@[j].width as int, c, rr, k)]]
                    0 <= j < i && 0 <= c < b.images@[j].width && 0 <= rr < b.images@[j].height && 0
                        <= k < 4 ==> pixels@[pixel_byte_index(
                        canvas.width as int,
                        b.entries@[j].alloc.rect.x + c,
                        b.entries@[j].alloc.rect.y + rr,
                        k,
                    )] == b.images@[j].pixels@[pixel_byte_index(
                        b.images@[j].width as int,
                        c,
                        rr,
                        k,
                    )],
                forall|p: int|
                    0 <= p < pixels@.len() && !covered_any(
                        b.entries@,
                        b.images@,
                        canvas.width as int,
                        i as int,
                        p,
                    ) ==> pixels@[p] == 0,
            decreases n - i,
        {
            let e = b.entries[i];
            match b.images.get(e.image) {
                Some(img) => {
                    proof {
                        assert(b.entries@[i as int].alloc == b.allocator.allocs()[i as int]);
                        b.allocator.lemma_allocs_within(i as int);
                    }
                    let ghost before = pixels@;
                    blit(&mut pixels, canvas, img, e.alloc.rect.x, e.alloc.rect.y);
                    proof {
                        assert forall|j: int, c: int, rr: int, k: int|
                            #![trigger b.images@[j].pixels@[pixel_byte_index(b.images@[j].width as int, c, rr, k)]]
                            0 <= j < i + 1 && 0 <= c < b.images@[j].width && 0 <= rr
                                < b.images@[j].height && 0 <= k < 4 implies pixels@[pixel_byte_index(
                            canvas.width as int,
                            b.entries@[j].alloc.rect.x + c,
                            b.entries@[j].alloc.rect.y + rr,
                            k,
                        )] == b.images@[j].pixels@[pixel_byte_index(
                            b.images@[j].width as int,
                            c,
                            rr,
                            k,
                        )] by {
                            let rj = b.entries@[j].alloc.rect;
                            let p = pixel_byte_index(canvas.width as int, rj.x + c, rj.y + rr, k);
                            if j < i {
                                b.allocator.lemma_allocs_within(j);
                                crate::compose::lemma_pixel_coords(
                                    canvas.width as int,
                                    rj.x + c,
                                    rj.y + rr,
                                    k,
                                );
                                crate::compose::lemma_pixel_index_bounds(
                                    canvas.width as int,
                                    canvas.height as int,
                                    rj.x + c,
                                    rj.y + rr,
                                    k,
                                );
                                b.allocator.lemma_allocs_disjoint(j, i as int);
                                crate::compose::lemma_disjoint_regions(
                                    canvas.width as int,
                                    rj,
                                    b.entries@[i as int].alloc.rect,
                                    b.images@[j].extent(),
                                    b.images@[i as int].extent(),
                                    p,
                                );
                                assert(pixels@[p] == before[p]);
                            }
                        }
                        assert forall|p: int|
                            0 <= p < pixels@.len() && !covered_any(
                                b.entries@,
                                b.images@,
                                canvas.width as int,
                                i + 1 as int,
                                p,
                            ) implies pixels@[p] == 0 by {
                            assert(!region_covers(
                                canvas.width as int,
                                b.entries@[i as int].alloc.rect.x as int,
                                b.entries@[i as int].alloc.rect.y as int,
                                b.images@[i as int].extent(),
                                p,
                            ));
                            assert(!covered_any(
                                b.entries@,
                                b.images@,
                                canvas.width as int,
                                i as int,
                                p,
                            ));
                            assert(pixels@[p] == before[p]);
                        }
                    }
                },
                None => {
                    proof {
                        assert(false);
                    }
                },
            }
            i = i + 1;
        }
        let atlas = StoredImage { width: canvas.width, height: canvas.height, pixels };
        let m = b.identities.len();
        let mut sprites: Vec<(String, Sprite)> = Vec::new();
        let mut j: usize = 0;
        while j < m
            invariant
                b.wf(),
                m == b.identities@.len(),
                j <= m,
                sprites@.len() == j,
                forall|jj: int|
                    0 <= jj < j ==> (#[trigger] sprites@[jj]).0@ == b.identities@[jj].0@
                        && sprites@[jj].1.rect == b.rect_of(b.identities@[jj].1),
            decreases m - j,
        {
            let name = b.identities[j].0.clone();
            let sid = b.identities[j].1;
            proof {
                assert(b.contains_id(b.identities@[j as int].1));
            }
            match b.rect_for(sid) {
                Some(rect) => {
                    sprites.push((name, Sprite { rect }));
                },
                None => {
                    proof {
                        assert(false);
                    }
                },
            }
            j = j + 1;
        }
        let sheet = SpriteSheet { sprites };
        proof {
            let ghost fin = b;
            assert forall|jj: int| 0 <= jj < self.identities().len() implies {
                &&& (#[trigger] sheet.view_pairs()[jj]).0 == self.identities()[jj].0
                &&& sheet.view_pairs()[jj].1.rect.width == self.rect_of(
                    self.identities()[jj].1,
                ).width
                &&& sheet.view_pairs()[jj].1.rect.height == self.rect_of(
                    self.identities()[jj].1,
                ).height
                &&& within(sheet.view_pairs()[jj].1.rect, atlas.extent())
                &&& region_matches(
                    atlas,
                    sheet.view_pairs()[jj].1.rect,
                    self.image_of(self.identities()[jj].1),
                )
            } by {
                let sid = self.identities()[jj].1;
                assert(fin.identities@[jj] == self.identities@[jj]);
                assert(self.contains_id(sid));
                Self::lemma_lookup_preserved(self, fin, sid);
                let k = self.entry_index(sid);
                assert(fin.entries@[k].alloc == fin.allocator.allocs()[k]);
                fin.allocator.lemma_allocs_within(k);
                assert(sheet.view_pairs()[jj].1.rect == fin.rect_of(sid));
                assert(fin.entry_index(sid) == k);
                assert(fin.image_of(sid) == self.image_of(sid));
                assert(region_matches(atlas, fin.rect_of(sid), fin.images@[k]));
            }
            assert forall|jj: int, p: int|
                #![trigger sheet.view_pairs()[jj], atlas.pixels@[p]]
                0 <= jj < self.identities().len() && 0 <= p < atlas.pixels@.len()
                    && region_covers(
                    atlas.width as int,
                    sheet.view_pairs()[jj].1.rect.x as int,
                    sheet.view_pairs()[jj].1.rect.y as int,
                    (Extent {
                        width: sheet.view_pairs()[jj].1.rect.width,
                        height: sheet.view_pairs()[jj].1.rect.height,
                    }),
                    p,
                ) && !region_covers(
                    atlas.width as int,
                    sheet.view_pairs()[jj].1.rect.x as int,
                    sheet.view_pairs()[jj].1.rect.y as int,
                    self.image_of(self.identities()[jj].1).extent(),
                    p,
                ) implies atlas.pixels@[p] == 0 by {
                let sid = self.identities()[jj].1;
                assert(fin.identities@[jj] == self.identities@[jj]);
                assert(self.contains_id(sid));
                Self::lemma_lookup_preserved(self, fin, sid);
                let kj = self.entry_index(sid);
                let rj = fin.entries@[kj].alloc.rect;
                assert(sheet.view_pairs()[jj].1.rect == rj);
                assert(fin.images@[kj] == self.image_of(sid));
                assert(!covered_any(
                    fin.entries@,
                    fin.images@,
                    atlas.width as int,
                    fin.entries@.len() as int,
                    p,
                )) by {
                    if covered_any(
                        fin.entries@,
                        fin.images@,
                        atlas.width as int,
                        fin.entries@.len() as int,
                        p,
                    ) {
                        let w = choose|w: int|
                            0 <= w < fin.entries@.len() && region_covers(
                                atlas.width as int,
                                fin.entries@[w].alloc.rect.x as int,
                                fin.entries@[w].alloc.rect.y as int,
                                fin.images@[w].extent(),
                                p,
                            );
                        if w != kj {
                            assert(fin.entries@[w].alloc == fin.allocator.allocs()[w]);
                            assert(fin.entries@[kj].alloc == fin.allocator.allocs()[kj]);
                            fin.allocator.lemma_allocs_disjoint(w, kj);
                            crate::compose::lemma_disjoint_regions(
                                atlas.width as int,
                                fin.entries@[w].alloc.rect,
                                rj,
                                fin.images@[w].extent(),
                                (Extent { width: rj.width, height: rj.height }),
                                p,
                            );
                        }
                    }
                }
            }
            assert forall|i1: int, j1: int|
                #![trigger sheet.view_pairs()[i1], sheet.view_pairs()[j1]]
                0 <= i1 < self.identities().len() && 0 <= j1 < self.identities().len()
                    && self.identities()[i1].1 == self.identities()[j1].1 implies sheet.view_pairs()[i1].1
                == sheet.view_pairs()[j1].1 by {
                assert(sheet.view_pairs()[i1].1.rect == fin.rect_of(fin.identities@[i1].1));
                assert(sheet.view_pairs()[j1].1.rect == fin.rect_of(fin.identities@[j1].1));
            }
            assert forall|i1: int, j1: int|
                #![trigger sheet.view_pairs()[i1], sheet.view_pairs()[j1]]
                0 <= i1 < self.identities().len() && 0 <= j1 < self.identities().len()
                    && self.identities()[i1].1 != self.identities()[j1].1 implies disjoint(
                sheet.view_pairs()[i1].1.rect,
                sheet.view_pairs()[j1].1.rect,
            ) by {
                let id1 = self.identities()[i1].1;
                let id2 = self.identities()[j1].1;
                assert(fin.contains_id(fin.identities@[i1].1));
                assert(fin.contains_id(fin.identities@[j1].1));
                let k1 = fin.entry_index(id1);
                let k2 = fin.entry_index(id2);
                assert(fin.entries@[k1].id == id1);
                assert(fin.entries@[k2].id == id2);
                assert(k1 != k2);
                assert(fin.entries@[k1].alloc == fin.allocator.allocs()[k1]);
                assert(fin.entries@[k2].alloc == fin.allocator.allocs()[k2]);
                fin.allocator.lemma_allocs_disjoint(k1, k2);
            }
            // the output is exactly what the model prescribes
            let m1 = spec_rearrange_if_dirty(self.model()).0;
            assert(fin.model() == m1);
            fin.allocator.lemma_model_fields();
            assert(atlas.extent() == (Extent { width: m1.alloc.width, height: m1.alloc.height }));
            assert(sheet.view_pairs() =~= spec_sheet(m1)) by {
                assert forall|j: int| 0 <= j < m1.identities.len() implies sheet.view_pairs()[j]
                    == spec_sheet(m1)[j] by {
                    let sid = fin.identities@[j].1;
                    assert(fin.contains_id(sid));
                    fin.lemma_model_rect(sid);
                    assert(sheet.view_pairs()[j].1.rect == fin.rect_of(sid));
                }
            }
            let cw = m1.alloc.width as int;
            assert(atlas.pixels@ =~= spec_atlas(m1)) by {
                assert(atlas.pixels@.len() == 4 * m1.alloc.width * m1.alloc.height);
                assert forall|p: int| 0 <= p < atlas.pixels@.len() implies atlas.pixels@[p]
                    == spec_pixel(m1.entries, m1.images, cw, p) by {
                    crate::compose::lemma_byte_pos_decompose(cw, p);
                    let px = byte_pos_x(cw, p);
                    let py = byte_pos_y(cw, p);
                    let ch = p % 4;
                    if exists|k: int|
                        0 <= k < m1.entries.len() && model_covers(m1.entries, m1.images, cw, k, p) {
                        let k0 = choose|k: int|
                            0 <= k < m1.entries.len() && model_covers(m1.entries, m1.images, cw, k, p);
                        let rect = fin.entries@[k0].alloc.rect;
                        assert(m1.entries[k0].1.rect == rect);
                        let c = px - rect.x;
                        let rr = py - rect.y;
                        assert(p == pixel_byte_index(cw, rect.x + c, rect.y + rr, ch));
                        assert(atlas.pixels@[p] == fin.images@[k0].pixels@[pixel_byte_index(
                            fin.images@[k0].width as int,
                            c,
                            rr,
                            ch,
                        )]);
                    } else {
                        assert(!covered_any(
                            fin.entries@,
                            fin.images@,
                            cw,
                            fin.entries@.len() as int,
                            p,
                        )) by {
                            if covered_any(
                                fin.entries@,
                                fin.images@,
                                cw,
                                fin.entries@.len() as int,
                                p,
                            ) {
                                let w = choose|w: int|
                                    0 <= w < fin.entries@.len() && region_covers(
                                        cw,
                                        fin.entries@[w].alloc.rect.x as int,
                                        fin.entries@[w].alloc.rect.y as int,
                                        fin.images@[w].extent(),
                                        p,
                                    );
                                assert(model_covers(m1.entries, m1.images, cw, w, p));
                            }
                        }
                        assert(atlas.pixels@[p] == 0);
                    }
                }
            }
            assert(atlas.pixels@ == spec_build(self.model()).1);
            assert(sheet.view_pairs() == spec_build(self.model()).2);
            assert forall|j: int| 0 <= j < self.identities().len() implies (
            #[trigger] sheet.view_pairs()[j]).1.rect == spec_build_rect(
                self.model(),
                self.identities()[j].1,
            ) by {
                let sid = self.identities()[j].1;
                assert(fin.identities@[j] == self.identities@[j]);
                assert(fin.contains_id(fin.identities@[j].1));
                fin.lemma_model_rect(sid);
                assert(sheet.view_pairs()[j].1.rect == fin.rect_of(sid));
            }
            assert forall|p: int|
                0 <= p < atlas.pixels@.len() && (forall|k: int|
                    0 <= k < self.ids().len() ==> !region_covers(
                        atlas.width as int,
                        spec_build_rect(self.model(), #[trigger] self.ids()[k]).x as int,
                        spec_build_rect(self.model(), self.ids()[k]).y as int,
                        self.image_of(self.ids()[k]).extent(),
                        p,
                    )) implies #[trigger] atlas.pixels@[p] == 0 by {
                assert(!covered_any(
                    fin.entries@,
                    fin.images@,
                    atlas.width as int,
                    fin.entries@.len() as int,
                    p,
                )) by {
                    if covered_any(
                        fin.entries@,
                        fin.images@,
                        atlas.width as int,
                        fin.entries@.len() as int,
                        p,
                    ) {
                        let w = choose|w: int|
                            0 <= w < fin.entries@.len() && region_covers(
                                atlas.width as int,
                                fin.entries@[w].alloc.rect.x as int,
                                fin.entries@[w].alloc.rect.y as int,
                                fin.images@[w].extent(),
                                p,
                            );
                        let wid = fin.entries@[w].id;
                        assert(self.entries@[w].id == wid);
                        assert(self.ids()[w] == wid);
                        Self::lemma_entry_index_of(fin, wid, w);
                        fin.lemma_model_rect(wid);
                        assert(spec_build_rect(self.model(), wid) == fin.rect_of(wid));
                        assert(fin.rect_of(wid) == fin.entries@[w].alloc.rect);
                        Self::lemma_entry_index_of(self, wid, w);
                        assert(self.image_of(wid) == self.images@[w]);
                        assert(self.images@[w] == fin.images@[w]);
                        assert(!region_covers(
                            atlas.width as int,
                            spec_build_rect(self.model(), self.ids()[w]).x as int,
                            spec_build_rect(self.model(), self.ids()[w]).y as int,
                            self.image_of(self.ids()[w]).extent(),
                            p,
                        ));
                        assert(false);
                    }
                }
            }
        }
        Ok((atlas, sheet))
    }
}

/// Byte position `p` lies in the image region of one of the first `n`
/// registry entries.
spec fn covered_any(
    entries: Seq<RegEntry>,
    images: Seq<StoredImage>,
    width: int,
    n: int,
    p: int,
) -> bool {
    exists|j: int|
        0 <= j < n && region_covers(
            width,
            entries[j].alloc.rect.x as int,
            entries[j].alloc.rect.y as int,
            images[j].extent(),
            p,
        )
}

} // verus!
