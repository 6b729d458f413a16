//! Texture bookkeeping: where each texture lives on the GPU, how the texture
//! arrays hand out their layers and how the interface atlas packs its images
//! row by row. The GPU objects themselves are held and written by the caller.
use vstd::prelude::*;
use std::collections::HashMap;
use rustc_hash::FxBuildHasher;
use crate::fx::{fx_map_u64_get, fx_map_u64_insert, fx_map_u64_new};
use crate::rect::Rect2;

verus! {

/// How the faces using a texture are drawn.
#[derive(Debug, Clone, Copy, PartialEq, Eq, Hash, Structural)]
pub enum RenderMode {
    Opaque,
    AlphaCutout,
    Translucent,
    Billboard,
    UI,
}

/// The number of render mode `m`, in declaration order.
pub open spec fn mode_index(m: RenderMode) -> nat {
    match m {
        RenderMode::Opaque => 0,
        RenderMode::AlphaCutout => 1,
        RenderMode::Translucent => 2,
        RenderMode::Billboard => 3,
        RenderMode::UI => 4,
    }
}

/// The printed name of render mode `m`.
pub open spec fn mode_name(m: RenderMode) -> Seq<char> {
    match m {
        RenderMode::Opaque => "RenderMode::Opaque"@,
        RenderMode::AlphaCutout => "RenderMode::AlphaCutout"@,
        RenderMode::Translucent => "RenderMode::Translucent"@,
        RenderMode::Billboard => "RenderMode::Billboard"@,
        RenderMode::UI => "RenderMode::UI"@,
    }
}

impl RenderMode {
    pub fn to_usize(self) -> (r: usize)
        ensures
            r == mode_index(self),
    {
        match self {
            RenderMode::Opaque => 0,
            RenderMode::AlphaCutout => 1,
            RenderMode::Translucent => 2,
            RenderMode::Billboard => 3,
            RenderMode::UI => 4,
        }
    }

    /// The name the mode is printed with.
    pub fn name(&self) -> (r: &'static str)
        ensures
            r@ == mode_name(*self),
    {
        match self {
            RenderMode::Opaque => "RenderMode::Opaque",
            RenderMode::AlphaCutout => "RenderMode::AlphaCutout",
            RenderMode::Translucent => "RenderMode::Translucent",
            RenderMode::Billboard => "RenderMode::Billboard",
            RenderMode::UI => "RenderMode::UI",
        }
    }
}

/// Where a texture's pixels are: a layer of an array, or a rectangle of the atlas.
#[derive(Debug, Clone, Copy, PartialEq, Eq, Structural)]
pub enum TextureData {
    OfArray { depth: u32 },
    OfAtlas { x: u32, y: u32, width: u32, height: u32 },
}

impl TextureData {
    pub fn for_array(depth: u32) -> (r: Self)
        ensures
            r == (TextureData::OfArray { depth }),
    {
        TextureData::OfArray { depth }
    }

    pub fn for_atlas(x: u32, y: u32, width: u32, height: u32) -> (r: Self)
        ensures
            r == (TextureData::OfAtlas { x, y, width, height }),
    {
        TextureData::OfAtlas { x, y, width, height }
    }
}

/// A texture: the render mode it belongs to and its number there.
#[derive(Debug, Clone, Copy, PartialEq, Eq, Hash, Structural)]
pub struct TextureID {
    pub render_mode: RenderMode,
    pub id: u32,
}

/// The key a texture is recorded under: its mode's number above its own.
pub open spec fn texture_key(t: TextureID) -> u64 {
    (mode_index(t.render_mode) * 0x1_0000_0000 + t.id) as u64
}

/// Two textures share a key only when they are the same texture.
pub proof fn lemma_texture_key_injective(a: TextureID, b: TextureID)
    ensures
        texture_key(a) == texture_key(b) <==> a == b,
{
}

impl TextureID {
    pub fn new(render_mode: RenderMode, id: u32) -> (r: Self)
        ensures
            r.render_mode == render_mode,
            r.id == id,
    {
        Self { render_mode, id }
    }

    pub fn render_mode(&self) -> (r: &RenderMode)
        ensures
            *r == self.render_mode,
    {
        &self.render_mode
    }

    pub fn id(&self) -> (r: u32)
        ensures
            r == self.id,
    {
        self.id
    }

    /// The key the texture is recorded under.
    pub fn key(&self) -> (r: u64)
        ensures
            r == texture_key(*self),
    {
        (self.render_mode.to_usize() as u64) * 0x1_0000_0000 + self.id as u64
    }
}

/// The layers of a texture array of `depth` layers of `width` by `height`,
/// handed out one after the other.
pub struct Texture2DArray {
    width: u32,
    height: u32,
    depth: u32,
    next_depth: u32,
}

impl Texture2DArray {
    pub closed spec fn spec_width(&self) -> u32 {
        self.width
    }

    pub closed spec fn spec_height(&self) -> u32 {
        self.height
    }

    pub closed spec fn spec_depth(&self) -> u32 {
        self.depth
    }

    /// The layer the next texture will get.
    pub closed spec fn spec_next_depth(&self) -> u32 {
        self.next_depth
    }

    pub fn new(width: u32, height: u32, depth: u32) -> (r: Self)
        ensures
            r.spec_width() == width,
            r.spec_height() == height,
            r.spec_depth() == depth,
            r.spec_next_depth() == 0,
    {
        Self { width, height, depth, next_depth: 0 }
    }

    /// Hands out the next layer.
    pub fn next_id(&mut self) -> (r: u32)
        requires
            old(self).spec_next_depth() < u32::MAX,
        ensures
            r == old(self).spec_next_depth(),
            final(self).spec_next_depth() == old(self).spec_next_depth() + 1,
            final(self).spec_width() == old(self).spec_width(),
            final(self).spec_height() == old(self).spec_height(),
            final(self).spec_depth() == old(self).spec_depth(),
    {
        let depth = self.next_depth;
        self.next_depth = self.next_depth + 1;
        depth
    }

    /// A layer of `len` bytes may be written at layer `depth`: it holds four
    /// bytes for each texel and `depth` is not past the last layer.
    pub fn accepts_layer(&self, len: usize, depth: u32) -> (r: bool)
        ensures
            r == (len == self.spec_width() as int * self.spec_height() as int * 4 && depth
                <= self.spec_depth()),
    {
        let w: u128 = self.width as u128;
        let h: u128 = self.height as u128;
        proof {
            assert(w * h <= 0xFFFF_FFFFu128 * 0xFFFF_FFFFu128) by (nonlinear_arith)
                requires
                    w <= 0xFFFF_FFFF,
                    h <= 0xFFFF_FFFF,
            ;
        }
        let expected: u128 = w * h * 4;
        len as u128 == expected && depth <= self.depth
    }

    pub fn width(&self) -> (r: u32)
        ensures
            r == self.spec_width(),
    {
        self.width
    }

    pub fn height(&self) -> (r: u32)
        ensures
            r == self.spec_height(),
    {
        self.height
    }

    pub fn depth(&self) -> (r: u32)
        ensures
            r == self.spec_depth(),
    {
        self.depth
    }
}

/// The packing state of the interface atlas: images are laid left to right
/// in rows, a new row starting under the tallest image of the last one.
pub struct Texture2DAtlas {
    width: u32,
    height: u32,
    cursor_x: u32,
    cursor_y: u32,
    row_height: u32,
}

/// The atlas after one image of `w` by `h`, and where the image went.
pub closed spec fn atlas_step(a: Texture2DAtlas, w: u32, h: u32) -> (Texture2DAtlas, Option<(u32, u32)>) {
    let a1 = if a.cursor_x + w > a.width {
        Texture2DAtlas { cursor_x: 0, cursor_y: (a.cursor_y + a.row_height) as u32, row_height: 0, ..a }
    } else {
        a
    };
    if a1.cursor_y + h > a1.height {
        (a1, None)
    } else {
        (
            Texture2DAtlas {
                cursor_x: (a1.cursor_x + w) as u32,
                row_height: if a1.row_height >= h {
                    a1.row_height
                } else {
                    h
                },
                ..a1
            },
            Some((a1.cursor_x, a1.cursor_y)),
        )
    }
}

/// The atlas after a run of images of the given sizes, and where each went.
pub closed spec fn atlas_run(a: Texture2DAtlas, sizes: Seq<(u32, u32)>) -> (Texture2DAtlas, Seq<
    Option<(u32, u32)>,
>)
    decreases sizes.len(),
{
    if sizes.len() == 0 {
        (a, Seq::empty())
    } else {
        let (before, spots) = atlas_run(a, sizes.drop_last());
        let (after, spot) = atlas_step(before, sizes.last().0, sizes.last().1);
        (after, spots.push(spot))
    }
}

/// A rectangle at `(x, y)` of `w` by `h`.
pub open spec fn rects_overlap(a: (u32, u32, u32, u32), b: (u32, u32, u32, u32)) -> bool {
    &&& a.0 < b.0 + b.2
    &&& b.0 < a.0 + a.2
    &&& a.1 < b.1 + b.3
    &&& b.1 < a.1 + a.3
}

/// The rectangles that a run of images of the given sizes received.
pub open spec fn placed_rects(spots: Seq<Option<(u32, u32)>>, sizes: Seq<(u32, u32)>) -> Seq<
    Option<(u32, u32, u32, u32)>,
> {
    Seq::new(
        spots.len(),
        |i: int|
            match spots[i] {
                Some(p) => Some((p.0, p.1, sizes[i].0, sizes[i].1)),
                None => None,
            },
    )
}

impl Texture2DAtlas {
    pub closed spec fn spec_width(&self) -> u32 {
        self.width
    }

    pub closed spec fn spec_height(&self) -> u32 {
        self.height
    }

    /// The rows laid so far stay within the atlas height.
    pub closed spec fn wf(&self) -> bool {
        self.cursor_y + self.row_height <= self.height
    }

    /// No image was placed yet.
    pub closed spec fn is_blank(&self) -> bool {
        self.cursor_x == 0 && self.cursor_y == 0 && self.row_height == 0
    }

    pub fn new(width: u32, height: u32) -> (r: Self)
        ensures
            r.wf(),
            r.is_blank(),
            r.spec_width() == width,
            r.spec_height() == height,
    {
        Self { width, height, cursor_x: 0, cursor_y: 0, row_height: 0 }
    }

    /// Finds a place for an image of `w` by `h`: after the last one on its row,
    /// or at the start of a new row when the row is too short; `None` when the
    /// atlas is too low for it.
    pub fn allocate(&mut self, w: u32, h: u32) -> (r: Option<(u32, u32)>)
        requires
            old(self).wf(),
        ensures
            final(self).wf(),
            (*final(self), r) == atlas_step(*old(self), w, h),
            final(self).spec_width() == old(self).spec_width(),
            final(self).spec_height() == old(self).spec_height(),
            r matches Some(p) ==> p.1 + h <= old(self).spec_height(),
            r matches Some(p) ==> p.0 + w <= old(self).spec_width() || p.0 == 0,
    {
        if (self.cursor_x as u64) + (w as u64) > self.width as u64 {
            self.cursor_x = 0;
            self.cursor_y = self.cursor_y + self.row_height;
            self.row_height = 0;
        }
        if (self.cursor_y as u64) + (h as u64) > self.height as u64 {
            return None;
        }
        let pos = (self.cursor_x, self.cursor_y);
        self.cursor_x = self.cursor_x + w;
        if h > self.row_height {
            self.row_height = h;
        }
        Some(pos)
    }

    pub fn width(&self) -> (r: u32)
        ensures
            r == self.spec_width(),
    {
        self.width
    }

    pub fn height(&self) -> (r: u32)
        ensures
            r == self.spec_height(),
    {
        self.height
    }
}

/// Every rectangle in `placed` lies in a finished row, above the cursor, or on
/// the current row, left of the cursor and no taller than the row.
pub closed spec fn rows_hold(a: Texture2DAtlas, placed: Seq<Option<(u32, u32, u32, u32)>>) -> bool {
    forall|i: int|
        0 <= i < placed.len() ==> match #[trigger] placed[i] {
            Some(p) => p.1 + p.3 <= a.cursor_y || (p.1 == a.cursor_y && p.0 + p.2 <= a.cursor_x && p.3
                <= a.row_height),
            None => true,
        }
}

/// The images placed by a run on a blank atlas never overlap one another, and
/// each lies within the atlas height, and within its width unless it is wider
/// than the atlas and starts a row.
pub proof fn lemma_atlas_placements_disjoint(a: Texture2DAtlas, sizes: Seq<(u32, u32)>)
    requires
        a.wf(),
        a.is_blank(),
    ensures
        ({
            let (after, spots) = atlas_run(a, sizes);
            let rects = placed_rects(spots, sizes);
            &&& after.wf()
            &&& spots.len() == sizes.len()
            &&& forall|i: int, j: int|
                0 <= i < j < rects.len() && rects[i] is Some && rects[j] is Some ==> !rects_overlap(
                    #[trigger] rects[i].unwrap(),
                    #[trigger] rects[j].unwrap(),
                )
            &&& forall|i: int|
                0 <= i < rects.len() && rects[i] is Some ==> {
                    let p = #[trigger] rects[i].unwrap();
                    &&& p.1 + p.3 <= a.spec_height()
                    &&& p.0 + p.2 <= a.spec_width() || p.0 == 0
                }
        }),
{
    lemma_atlas_run_invariant(a, sizes);
}

/// The packing invariant along a run from a blank atlas.
proof fn lemma_atlas_run_invariant(a: Texture2DAtlas, sizes: Seq<(u32, u32)>)
    requires
        a.wf(),
        a.is_blank(),
    ensures
        ({
            let (after, spots) = atlas_run(a, sizes);
            let rects = placed_rects(spots, sizes);
            &&& after.wf()
            &&& after.width == a.width
            &&& after.height == a.height
            &&& spots.len() == sizes.len()
            &&& rows_hold(after, rects)
            &&& forall|i: int, j: int|
                0 <= i < j < rects.len() && rects[i] is Some && rects[j] is Some ==> !rects_overlap(
                    #[trigger] rects[i].unwrap(),
                    #[trigger] rects[j].unwrap(),
                )
            &&& forall|i: int|
                0 <= i < rects.len() && rects[i] is Some ==> {
                    let p = #[trigger] rects[i].unwrap();
                    &&& p.1 + p.3 <= a.height
                    &&& p.0 + p.2 <= a.width || p.0 == 0
                }
        }),
    decreases sizes.len(),
{
    if sizes.len() == 0 {
        let (after, spots) = atlas_run(a, sizes);
        assert(placed_rects(spots, sizes).len() == 0);
    } else {
        let prev = sizes.drop_last();
        lemma_atlas_run_invariant(a, prev);
        let (before, spots0) = atlas_run(a, prev);
        let rects0 = placed_rects(spots0, prev);
        let (w, h) = sizes.last();
        let (after, spot) = atlas_step(before, w, h);
        let (after2, spots) = atlas_run(a, sizes);
        assert(after2 == after && spots == spots0.push(spot));
        let rects = placed_rects(spots, sizes);
        assert(rects.len() == rects0.len() + 1);
        assert forall|i: int| 0 <= i < rects0.len() implies rects[i] == rects0[i] by {
            assert(sizes[i] == prev[i]);
        }
        let a1 = if before.cursor_x + w > before.width {
            Texture2DAtlas {
                cursor_x: 0,
                cursor_y: (before.cursor_y + before.row_height) as u32,
                row_height: 0,
                ..before
            }
        } else {
            before
        };
        assert(rows_hold(a1, rects0));
        let n = rects0.len() as int;
        match spot {
            None => {
                assert(rows_hold(after, rects)) by {
                    assert forall|i: int| 0 <= i < rects.len() implies match #[trigger] rects[i] {
                        Some(p) => p.1 + p.3 <= after.cursor_y || (p.1 == after.cursor_y && p.0 + p.2
                            <= after.cursor_x && p.3 <= after.row_height),
                        None => true,
                    } by {
                        if i < n {
                            assert(rects[i] == rects0[i]);
                        }
                    }
                }
            },
            Some(pos) => {
                assert(pos == (a1.cursor_x, a1.cursor_y));
                let r = (pos.0, pos.1, w, h);
                assert(rects[n] == Some(r));
                assert forall|i: int| 0 <= i < n && rects[i] is Some implies !rects_overlap(
                    rects[i].unwrap(),
                    r,
                ) by {
                    assert(rects[i] == rects0[i]);
                }
                assert(rows_hold(after, rects)) by {
                    assert forall|i: int| 0 <= i < rects.len() implies match #[trigger] rects[i] {
                        Some(p) => p.1 + p.3 <= after.cursor_y || (p.1 == after.cursor_y && p.0 + p.2
                            <= after.cursor_x && p.3 <= after.row_height),
                        None => true,
                    } by {
                        if i < n {
                            assert(rects[i] == rects0[i]);
                        }
                    }
                }
            },
        }
        assert forall|i: int, j: int|
            0 <= i < j < rects.len() && rects[i] is Some && rects[j] is Some implies !rects_overlap(
                #[trigger] rects[i].unwrap(),
                #[trigger] rects[j].unwrap(),
            ) by {
            if j < n {
                assert(rects[i] == rects0[i] && rects[j] == rects0[j]);
            } else {
                assert(rects[i] == rects0[i]);
            }
        }
        assert forall|i: int| 0 <= i < rects.len() && rects[i] is Some implies {
            let p = #[trigger] rects[i].unwrap();
            &&& p.1 + p.3 <= a.height
            &&& p.0 + p.2 <= a.width || p.0 == 0
        } by {
            if i < n {
                assert(rects[i] == rects0[i]);
            }
        }
    }
}

/// The message when the array of `m` has no layer left.
pub open spec fn no_place_msg(m: RenderMode) -> Seq<char> {
    "No place found for "@ + mode_name(m) + "."@
}

/// The message when the interface atlas has no room left.
pub open spec fn atlas_full_msg() -> Seq<char> {
    "Atlas plein"@
}

/// The state of the interface atlas bookkeeping: the packing, the recorded
/// textures and the number the next interface texture gets.
pub type UiBook = (Texture2DAtlas, Map<u64, TextureData>, u32);

/// The bookkeeping after registering an interface image of `w` by `h`, and
/// the outcome: the new texture, or the message it failed with.
pub open spec fn ui_register_step(book: UiBook, w: u32, h: u32) -> (UiBook, Result<TextureID, Seq<char>>) {
    let (atlas, ids, next) = book;
    let (atlas2, spot) = atlas_step(atlas, w, h);
    match spot {
        Some(p) => {
            let id = TextureID { render_mode: RenderMode::UI, id: next };
            (
                (
                    atlas2,
                    ids.insert(texture_key(id), TextureData::OfAtlas { x: p.0, y: p.1, width: w, height: h }),
                    (next + 1) as u32,
                ),
                Ok(id),
            )
        },
        None => ((atlas2, ids, next), Err(atlas_full_msg())),
    }
}

/// The bookkeeping after registering interface images of the given sizes one
/// after the other, and the outcome of each.
pub open spec fn ui_register_run(book: UiBook, sizes: Seq<(u32, u32)>) -> (UiBook, Seq<
    Result<TextureID, Seq<char>>,
>)
    decreases sizes.len(),
{
    if sizes.len() == 0 {
        (book, Seq::empty())
    } else {
        let (before, outs) = ui_register_run(book, sizes.drop_last());
        let (after, out) = ui_register_step(before, sizes.last().0, sizes.last().1);
        (after, outs.push(out))
    }
}

/// The number of images of a run that found a place.
pub open spec fn spot_count(spots: Seq<Option<(u32, u32)>>) -> nat
    decreases spots.len(),
{
    if spots.len() == 0 {
        0
    } else {
        spot_count(spots.drop_last()) + if spots.last() is Some {
            1nat
        } else {
            0nat
        }
    }
}

/// The images of a shorter run found their places as in the longer run.
pub proof fn lemma_atlas_run_prefix(a: Texture2DAtlas, sizes: Seq<(u32, u32)>, j: int)
    requires
        0 <= j <= sizes.len(),
    ensures
        atlas_run(a, sizes.take(j)).1 == atlas_run(a, sizes).1.take(j),
        atlas_run(a, sizes).1.len() == sizes.len(),
    decreases sizes.len(),
{
    if sizes.len() > 0 {
        lemma_atlas_run_prefix(a, sizes.drop_last(), if j < sizes.len() { j } else { sizes.len() - 1 });
        if j == sizes.len() {
            assert(sizes.take(j) =~= sizes);
        } else {
            assert(sizes.drop_last().take(j) =~= sizes.take(j));
        }
    } else {
        assert(sizes.take(j) =~= sizes);
    }
}

/// Fewer images find fewer places.
pub proof fn lemma_spot_count_prefix(spots: Seq<Option<(u32, u32)>>, j: int)
    requires
        0 <= j <= spots.len(),
    ensures
        spot_count(spots.take(j)) <= spot_count(spots),
    decreases spots.len(),
{
    if j < spots.len() {
        lemma_spot_count_prefix(spots.drop_last(), j);
        assert(spots.drop_last().take(j) =~= spots.take(j));
    } else {
        assert(spots.take(j) =~= spots);
    }
}

/// A run of registrations packs the atlas as the images' run does, and gives
/// out one number per image that found a place.
pub proof fn lemma_ui_run_follows_atlas(book: UiBook, sizes: Seq<(u32, u32)>)
    requires
        book.2 + spot_count(atlas_run(book.0, sizes).1) <= u32::MAX,
    ensures
        ui_register_run(book, sizes).0.0 == atlas_run(book.0, sizes).0,
        ui_register_run(book, sizes).0.2 == book.2 + spot_count(atlas_run(book.0, sizes).1),
    decreases sizes.len(),
{
    if sizes.len() > 0 {
        let prev = sizes.drop_last();
        let spots = atlas_run(book.0, sizes).1;
        assert(spots.drop_last() == atlas_run(book.0, prev).1);
        lemma_ui_run_follows_atlas(book, prev);
    }
}

/// A run of registrations has one outcome per image.
pub proof fn lemma_ui_run_len(book: UiBook, sizes: Seq<(u32, u32)>)
    ensures
        ui_register_run(book, sizes).1.len() == sizes.len(),
    decreases sizes.len(),
{
    if sizes.len() > 0 {
        lemma_ui_run_len(book, sizes.drop_last());
    }
}

/// An outcome with its message as text.
pub open spec fn outcome_view(r: Result<TextureID, String>) -> Result<TextureID, Seq<char>> {
    match r {
        Ok(id) => Ok(id),
        Err(e) => Err(e@),
    }
}

/// The sizes of the rectangles in `infos`.
pub open spec fn rect_sizes(infos: Seq<Rect2>) -> Seq<(u32, u32)> {
    Seq::new(infos.len(), |i: int| (infos[i].spec_w(), infos[i].spec_h()))
}

/// The GPU texture bookkeeping of the renderer: four texture arrays for the
/// world's render modes and one atlas for the interface.
pub struct TextureManager {
    max_texture_size: u32,
    max_array_depth: u32,
    opaque: Texture2DArray,
    alpha_cutout: Texture2DArray,
    translucent: Texture2DArray,
    billboard: Texture2DArray,
    ui: Texture2DAtlas,
    texture_ids: HashMap<u64, TextureData, FxBuildHasher>,
    next_ui_id: u32,
}

impl TextureManager {
    /// The array that holds the textures of render mode `m`.
    pub closed spec fn spec_array(&self, m: RenderMode) -> Texture2DArray {
        match m {
            RenderMode::Opaque => self.opaque,
            RenderMode::AlphaCutout => self.alpha_cutout,
            RenderMode::Translucent => self.translucent,
            RenderMode::Billboard => self.billboard,
            RenderMode::UI => self.opaque,
        }
    }

    pub closed spec fn spec_atlas(&self) -> Texture2DAtlas {
        self.ui
    }

    /// Where each recorded texture is, by key.
    pub closed spec fn textures(&self) -> Map<u64, TextureData> {
        self.texture_ids@
    }

    /// The number the next interface texture gets.
    pub closed spec fn spec_next_ui_id(&self) -> u32 {
        self.next_ui_id
    }

    /// The last layer an array may hand out.
    pub closed spec fn spec_max_array_depth(&self) -> u32 {
        self.max_array_depth
    }

    pub closed spec fn spec_max_texture_size(&self) -> u32 {
        self.max_texture_size
    }

    /// The interface bookkeeping.
    pub open spec fn ui_book(&self) -> UiBook {
        (self.spec_atlas(), self.textures(), self.spec_next_ui_id())
    }

    pub closed spec fn wf(&self) -> bool {
        self.ui.wf()
    }

    /// Arrays of 32 by 32 texels with `max_array_depth` layers, an interface
    /// atlas of 2170 by 1132 texels, and no texture recorded.
    pub fn new(max_texture_size: u32, max_array_depth: u32) -> (r: Self)
        ensures
            r.wf(),
            r.spec_atlas().is_blank(),
            r.spec_atlas().spec_width() == 2170,
            r.spec_atlas().spec_height() == 1132,
            forall|m: RenderMode|
                m != RenderMode::UI ==> {
                    &&& (#[trigger] r.spec_array(m)).spec_width() == 32
                    &&& r.spec_array(m).spec_height() == 32
                    &&& r.spec_array(m).spec_depth() == max_array_depth
                    &&& r.spec_array(m).spec_next_depth() == 0
                },
            r.textures() == Map::<u64, TextureData>::empty(),
            r.spec_next_ui_id() == 0,
            r.spec_max_array_depth() == max_array_depth,
            r.spec_max_texture_size() == max_texture_size,
    {
        Self {
            max_texture_size,
            max_array_depth,
            opaque: Texture2DArray::new(32, 32, max_array_depth),
            alpha_cutout: Texture2DArray::new(32, 32, max_array_depth),
            translucent: Texture2DArray::new(32, 32, max_array_depth),
            billboard: Texture2DArray::new(32, 32, max_array_depth),
            ui: Texture2DAtlas::new(2170, 1132),
            texture_ids: fx_map_u64_new(),
            next_ui_id: 0,
        }
    }

    /// The array of render mode `render_mode`, which is not the interface.
    pub fn get_array(&self, render_mode: &RenderMode) -> (r: &Texture2DArray)
        requires
            *render_mode != RenderMode::UI,
        ensures
            *r == self.spec_array(*render_mode),
    {
        match render_mode {
            RenderMode::Opaque => &self.opaque,
            RenderMode::AlphaCutout => &self.alpha_cutout,
            RenderMode::Translucent => &self.translucent,
            _ => &self.billboard,
        }
    }

    pub fn get_ui_atlas(&self) -> (r: &Texture2DAtlas)
        ensures
            *r == self.spec_atlas(),
    {
        &self.ui
    }

    /// Where texture `id` is, if it was recorded.
    pub fn get_texture(&self, id: &TextureID) -> (r: Option<TextureData>)
        ensures
            r == if self.textures().contains_key(texture_key(*id)) {
                Some(self.textures()[texture_key(*id)])
            } else {
                None::<TextureData>
            },
    {
        match fx_map_u64_get(&self.texture_ids, id.key()) {
            Some(d) => Some(*d),
            None => None,
        }
    }

    /// The rectangle of the atlas that holds texture `id`: its left, top,
    /// width and height; `None` when it is not an atlas texture.
    pub fn get_ui_rect(&self, id: &TextureID) -> (r: Option<(u32, u32, u32, u32)>)
        ensures
            r == match (if self.textures().contains_key(texture_key(*id)) {
                Some(self.textures()[texture_key(*id)])
            } else {
                None::<TextureData>
            }) {
                Some(TextureData::OfAtlas { x, y, width, height }) => Some((x, y, width, height)),
                _ => None::<(u32, u32, u32, u32)>,
            },
    {
        match self.get_texture(id) {
            Some(TextureData::OfAtlas { x, y, width, height }) => Some((x, y, width, height)),
            _ => None,
        }
    }

    /// The array of render mode `render_mode`, which is not the interface.
    fn get_array_mut(&mut self, render_mode: &RenderMode) -> (r: &mut Texture2DArray)
        requires
            *render_mode != RenderMode::UI,
        ensures
            *r == old(self).spec_array(*render_mode),
            final(self).spec_atlas() == old(self).spec_atlas(),
            final(self).textures() == old(self).textures(),
            final(self).spec_next_ui_id() == old(self).spec_next_ui_id(),
            final(self).spec_max_array_depth() == old(self).spec_max_array_depth(),
            final(self).spec_max_texture_size() == old(self).spec_max_texture_size(),
            final(self).spec_array(*render_mode) == *final(r),
            forall|m: RenderMode|
                m != *render_mode && m != RenderMode::UI ==> #[trigger] final(self).spec_array(m)
                    == old(self).spec_array(m),
    {
        match render_mode {
            RenderMode::Opaque => &mut self.opaque,
            RenderMode::AlphaCutout => &mut self.alpha_cutout,
            RenderMode::Translucent => &mut self.translucent,
            _ => &mut self.billboard,
        }
    }

    /// Hands out the next layer of the array of `render_mode`, or fails when
    /// it is past the last layer; the layer counts as handed out either way.
    fn find_place_array(&mut self, render_mode: &RenderMode) -> (r: Result<TextureID, String>)
        requires
            *render_mode != RenderMode::UI,
            old(self).spec_array(*render_mode).spec_next_depth() < u32::MAX,
        ensures
            ({
                let d = old(self).spec_array(*render_mode).spec_next_depth();
                &&& final(self).spec_array(*render_mode).spec_next_depth() == d + 1
                &&& final(self).spec_array(*render_mode).spec_width() == old(self).spec_array(
                    *render_mode,
                ).spec_width()
                &&& final(self).spec_array(*render_mode).spec_height() == old(self).spec_array(
                    *render_mode,
                ).spec_height()
                &&& final(self).spec_array(*render_mode).spec_depth() == old(self).spec_array(
                    *render_mode,
                ).spec_depth()
                &&& outcome_view(r) == if d > old(self).spec_max_array_depth() {
                    Err(no_place_msg(*render_mode))
                } else {
                    Ok(TextureID { render_mode: *render_mode, id: d })
                }
            }),
            final(self).spec_atlas() == old(self).spec_atlas(),
            final(self).textures() == old(self).textures(),
            final(self).spec_next_ui_id() == old(self).spec_next_ui_id(),
            final(self).spec_max_array_depth() == old(self).spec_max_array_depth(),
            final(self).spec_max_texture_size() == old(self).spec_max_texture_size(),
            forall|m: RenderMode|
                m != *render_mode && m != RenderMode::UI ==> #[trigger] final(self).spec_array(m)
                    == old(self).spec_array(m),
    {
        let max = self.max_array_depth;
        let depth = self.get_array_mut(render_mode).next_id();
        if depth > max {
            let mut e = String::from_str("No place found for ");
            e.append(render_mode.name());
            e.append(".");
            proof {
                assert(e@ =~= no_place_msg(*render_mode));
            }
            Err(e)
        } else {
            Ok(TextureID::new(*render_mode, depth))
        }
    }

    /// The number the next interface texture gets.
    pub fn next_ui_id(&self) -> (r: u32)
        ensures
            r == self.spec_next_ui_id(),
    {
        self.next_ui_id
    }

    /// Records a texture of the array of `render_mode` in the next layer, the
    /// caller then writing `texture` there; fails when the array is full.
    pub fn register_array(&mut self, render_mode: RenderMode, texture: &[u8]) -> (r: Result<TextureID, String>)
        requires
            old(self).wf(),
            render_mode != RenderMode::UI,
            texture@.len() == old(self).spec_array(render_mode).spec_width() as int * old(self).spec_array(
                render_mode,
            ).spec_height() as int * 4,
            old(self).spec_array(render_mode).spec_next_depth() < u32::MAX,
        ensures
            final(self).wf(),
            ({
                let d = old(self).spec_array(render_mode).spec_next_depth();
                let id = TextureID { render_mode, id: d };
                &&& final(self).spec_array(render_mode).spec_next_depth() == d + 1
                &&& outcome_view(r) == if d > old(self).spec_max_array_depth() {
                    Err(no_place_msg(render_mode))
                } else {
                    Ok(id)
                }
                &&& final(self).textures() == if d > old(self).spec_max_array_depth() {
                    old(self).textures()
                } else {
                    old(self).textures().insert(texture_key(id), TextureData::OfArray { depth: d })
                }
            }),
            final(self).spec_array(render_mode).spec_width() == old(self).spec_array(render_mode).spec_width(),
            final(self).spec_array(render_mode).spec_height() == old(self).spec_array(render_mode).spec_height(),
            final(self).spec_array(render_mode).spec_depth() == old(self).spec_array(render_mode).spec_depth(),
            final(self).spec_atlas() == old(self).spec_atlas(),
            final(self).spec_next_ui_id() == old(self).spec_next_ui_id(),
            final(self).spec_max_array_depth() == old(self).spec_max_array_depth(),
            forall|m: RenderMode|
                m != render_mode && m != RenderMode::UI ==> #[trigger] final(self).spec_array(m)
                    == old(self).spec_array(m),
    {
        let id = match self.find_place_array(&render_mode) {
            Ok(id) => id,
            Err(e) => {
                return Err(e);
            },
        };
        let texture_data = TextureData::for_array(id.id());
        let ghost mid = *self;
        fx_map_u64_insert(&mut self.texture_ids, id.key(), texture_data);
        proof {
            assert forall|m: RenderMode| m != render_mode && m != RenderMode::UI implies #[trigger] self.spec_array(m)
                == old(self).spec_array(m) by {
                assert(mid.spec_array(m) == old(self).spec_array(m));
            }
        }
        Ok(id)
    }

    /// Records an interface image of `width` by `height` at the next place of
    /// the atlas, the caller then writing `data` there; fails when the atlas
    /// is full.
    pub fn register_atlas(&mut self, data: &[u8], width: u32, height: u32) -> (r: Result<TextureID, String>)
        requires
            old(self).wf(),
            old(self).spec_next_ui_id() < u32::MAX || atlas_step(old(self).spec_atlas(), width, height).1 is None,
            data@.len() == width as int * height as int * 4,
        ensures
            final(self).wf(),
            (final(self).ui_book(), outcome_view(r)) == ui_register_step(old(self).ui_book(), width, height),
            final(self).spec_max_array_depth() == old(self).spec_max_array_depth(),
            forall|m: RenderMode| #[trigger] final(self).spec_array(m) == old(self).spec_array(m),
    {
        let (x, y) = match self.ui.allocate(width, height) {
            Some(p) => p,
            None => {
                let e = String::from_str("Atlas plein");
                proof {
                    reveal_strlit("Atlas plein");
                }
                return Err(e);
            },
        };
        let id = TextureID::new(RenderMode::UI, self.next_ui_id);
        fx_map_u64_insert(&mut self.texture_ids, id.key(), TextureData::OfAtlas { x, y, width, height });
        self.next_ui_id = self.next_ui_id + 1;
        Ok(id)
    }

    /// Records interface images of the sizes in `infos` one after the other,
    /// the caller then writing each of `textures` at its place; the outcome
    /// of each, in order.
    pub fn register_atlas_multiple(&mut self, textures: &[&[u8]], infos: &[Rect2]) -> (r: Vec<
        Result<TextureID, String>,
    >)
        requires
            old(self).wf(),
            textures@.len() >= infos@.len(),
            forall|i: int|
                0 <= i < infos@.len() ==> (#[trigger] textures@[i])@.len() == infos@[i].spec_w() as int
                    * infos@[i].spec_h() as int * 4,
            old(self).spec_next_ui_id() + spot_count(atlas_run(old(self).spec_atlas(), rect_sizes(infos@)).1)
                <= u32::MAX,
        ensures
            final(self).wf(),
            r@.len() == infos@.len(),
            ({
                let (book, outs) = ui_register_run(old(self).ui_book(), rect_sizes(infos@));
                &&& final(self).ui_book() == book
                &&& forall|i: int| 0 <= i < r@.len() ==> outcome_view(#[trigger] r@[i]) == outs[i]
            }),
            final(self).spec_max_array_depth() == old(self).spec_max_array_depth(),
            forall|m: RenderMode| #[trigger] final(self).spec_array(m) == old(self).spec_array(m),
    {
        let ghost sizes = rect_sizes(infos@);
        let mut output: Vec<Result<TextureID, String>> = Vec::new();
        let mut index: usize = 0;
        while index < infos.len()
            invariant
                self.wf(),
                index <= infos@.len(),
                sizes == rect_sizes(infos@),
                textures@.len() >= infos@.len(),
                forall|i: int|
                    0 <= i < infos@.len() ==> (#[trigger] textures@[i])@.len() == infos@[i].spec_w() as int
                        * infos@[i].spec_h() as int * 4,
                old(self).spec_next_ui_id() + spot_count(atlas_run(old(self).spec_atlas(), sizes).1) <= u32::MAX,
                output@.len() == index,
                ({
                    let (book, outs) = ui_register_run(old(self).ui_book(), sizes.take(index as int));
                    &&& self.ui_book() == book
                    &&& forall|i: int| 0 <= i < index ==> outcome_view(#[trigger] output@[i]) == outs[i]
                }),
                self.spec_max_array_depth() == old(self).spec_max_array_depth(),
                forall|m: RenderMode| #[trigger] self.spec_array(m) == old(self).spec_array(m),
            decreases infos@.len() - index,
        {
            let info = &infos[index];
            let width = info.w();
            let height = info.h();
            proof {
                let all = atlas_run(old(self).spec_atlas(), sizes).1;
                lemma_atlas_run_prefix(old(self).spec_atlas(), sizes, index as int);
                lemma_atlas_run_prefix(old(self).spec_atlas(), sizes, index + 1);
                lemma_spot_count_prefix(all, index as int);
                lemma_spot_count_prefix(all, index + 1);
                lemma_ui_run_follows_atlas(old(self).ui_book(), sizes.take(index as int));
                let t = sizes.take(index + 1);
                assert(t.drop_last() =~= sizes.take(index as int));
                assert(t.last() == (width, height));
                assert(all.take(index + 1).drop_last() =~= all.take(index as int));
            }
            let outcome = self.register_atlas(textures[index], width, height);
            proof {
                let (b0, outs0) = ui_register_run(old(self).ui_book(), sizes.take(index as int));
                let t = sizes.take(index + 1);
                assert(t.drop_last() =~= sizes.take(index as int));
                assert(t.last() == (width, height));
                let (b1, outs1) = ui_register_run(old(self).ui_book(), t);
                assert(outs1 == outs0.push(outcome_view(outcome)));
                assert(self.ui_book() == b1);
            }
            output.push(outcome);
            proof {
                let (b1, outs1) = ui_register_run(old(self).ui_book(), sizes.take(index + 1));
                let (b0, outs0) = ui_register_run(old(self).ui_book(), sizes.take(index as int));
                lemma_ui_run_len(old(self).ui_book(), sizes.take(index as int));
                assert forall|i: int| 0 <= i < index + 1 implies outcome_view(#[trigger] output@[i]) == outs1[i] by {
                    if i < index {
                        assert(outs1[i] == outs0[i]);
                    }
                }
            }
            index = index + 1;
        }
        proof {
            assert(sizes.take(infos@.len() as int) =~= sizes);
        }
        output
    }
}

} // verus!
