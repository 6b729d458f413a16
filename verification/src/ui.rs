//! The interface: widgets, the draw commands they give, the vertices those
//! commands become, and the hotbar laid out from the player's inventory.
use vstd::prelude::*;
use std::collections::HashMap;
use rustc_hash::FxBuildHasher;
use crate::fx::{fx_map_u32_get, fx_map_u32_insert, fx_map_u32_new};
use crate::textures::{TextureManager, TextureID, RenderMode, TextureData, texture_key};
use crate::items::ItemManager;

verus! {

/// Where a widget is on screen: its left, top, width and height in pixels.
#[derive(Debug, Clone, Copy, PartialEq, Eq, Structural)]
pub struct WidgetTransform {
    pub x: u32,
    pub y: u32,
    pub w: u32,
    pub h: u32,
}

impl WidgetTransform {
    pub fn new(x: u32, y: u32, w: u32, h: u32) -> (r: Self)
        ensures
            r == (WidgetTransform { x, y, w, h }),
    {
        Self { x, y, w, h }
    }

    /// The left, top, width and height.
    pub fn extract(&self) -> (r: (u32, u32, u32, u32))
        ensures
            r == (self.x, self.y, self.w, self.h),
    {
        (self.x, self.y, self.w, self.h)
    }

    /// The right and bottom edges fit in 32 bits.
    pub open spec fn fits(self) -> bool {
        self.x + self.w <= u32::MAX && self.y + self.h <= u32::MAX
    }
}

/// Something to draw: a rectangle of one colour, or a rectangle showing an
/// interface texture.
#[derive(Debug, Clone, Copy, PartialEq, Eq, Structural)]
pub enum DrawCommand {
    Panel { transform: WidgetTransform, color: u32 },
    TexturedPanel { transform: WidgetTransform, texture: u32 },
}

/// A panel showing an interface texture, with an optional widget over it.
pub struct TexturedPanel {
    pub transform: WidgetTransform,
    pub texture: u32,
    pub child: Option<Box<WidgetType>>,
}

/// Widgets laid one after the other.
pub struct List {
    pub transform: WidgetTransform,
    pub children: Vec<WidgetType>,
}

/// A widget of any kind.
pub enum WidgetType {
    List(List),
    TexturedPanel(TexturedPanel),
}

/// The commands widget `w` draws, in order: a list draws its children one
/// after the other; a textured panel draws itself, then its child.
pub open spec fn drawn(w: WidgetType) -> Seq<DrawCommand>
    decreases w,
{
    match w {
        WidgetType::List(l) => drawn_all(l.children@, l.children@.len() as int),
        WidgetType::TexturedPanel(p) => {
            let own = seq![DrawCommand::TexturedPanel { transform: p.transform, texture: p.texture }];
            match p.child {
                Some(c) => own + drawn(*c),
                None => own,
            }
        },
    }
}

/// The commands the first `n` widgets of `ws` draw, in order.
pub open spec fn drawn_all(ws: Seq<WidgetType>, n: int) -> Seq<DrawCommand>
    decreases ws, n,
{
    if n <= 0 || n > ws.len() {
        Seq::empty()
    } else {
        drawn_all(ws, n - 1) + drawn(ws[n - 1])
    }
}

/// The first `n` widgets of `ws` draw the same with a widget added after them.
proof fn lemma_drawn_all_push(ws: Seq<WidgetType>, w: WidgetType, n: int)
    requires
        0 <= n <= ws.len(),
    ensures
        drawn_all(ws.push(w), n) == drawn_all(ws, n),
    decreases n,
{
    if n > 0 {
        lemma_drawn_all_push(ws, w, n - 1);
        assert(ws.push(w)[n - 1] == ws[n - 1]);
    }
}

/// A list with no child draws nothing.
pub proof fn lemma_empty_list_draws_nothing(l: List)
    requires
        l.children@.len() == 0,
    ensures
        drawn(WidgetType::List(l)) == Seq::<DrawCommand>::empty(),
{
    assert(drawn(WidgetType::List(l)) == drawn_all(l.children@, 0));
    assert(drawn_all(l.children@, 0) =~= Seq::<DrawCommand>::empty());
}

/// Adding a child at the end of a list adds that child's commands after the
/// list's own: a list draws every child, in order.
pub proof fn lemma_list_draws_every_child(l1: List, l2: List, w: WidgetType)
    requires
        l2.children@ == l1.children@.push(w),
    ensures
        drawn(WidgetType::List(l2)) == drawn(WidgetType::List(l1)) + drawn(w),
{
    let n = l1.children@.len() as int;
    lemma_drawn_all_push(l1.children@, w, n);
    assert(l2.children@[n] == w);
    assert(drawn(WidgetType::List(l1)) == drawn_all(l1.children@, n));
    assert(drawn(WidgetType::List(l2)) == drawn_all(l2.children@, n + 1));
    assert(drawn_all(l2.children@, n + 1) == drawn_all(l2.children@, n) + drawn(l2.children@[n]));
}

impl TexturedPanel {
    pub fn new(transform: WidgetTransform, texture: u32, child: Option<Box<WidgetType>>) -> (r: Self)
        ensures
            r.transform == transform,
            r.texture == texture,
            r.child == child,
    {
        Self { transform, texture, child }
    }

    pub fn transform(&self) -> (r: &WidgetTransform)
        ensures
            *r == self.transform,
    {
        &self.transform
    }
}

impl List {
    pub fn new(transform: WidgetTransform, children: Vec<WidgetType>) -> (r: Self)
        ensures
            r.transform == transform,
            r.children == children,
    {
        Self { transform, children }
    }

    pub fn children(&self) -> (r: &Vec<WidgetType>)
        ensures
            *r == self.children,
    {
        &self.children
    }

    pub fn transform(&self) -> (r: &WidgetTransform)
        ensures
            *r == self.transform,
    {
        &self.transform
    }
}

impl WidgetType {
    /// Appends the commands this widget draws.
    pub fn draw(&self, commands: &mut Vec<DrawCommand>)
        ensures
            final(commands)@ == old(commands)@ + drawn(*self),
        decreases *self,
    {
        match self {
            WidgetType::List(l) => {
                let mut i: usize = 0;
                while i < l.children.len()
                    invariant
                        i <= l.children@.len(),
                        *self == WidgetType::List(*l),
                        commands@ == old(commands)@ + drawn_all(l.children@, i as int),
                    decreases l.children@.len() - i,
                {
                    let child = &l.children[i];
                    proof {
                        assert(decreases_to!(*self => self->List_0));
                        assert(decreases_to!(self->List_0 => self->List_0.children));
                        assert(self->List_0 == *l);
                        assert(decreases_to!(l.children => l.children@));
                        assert(decreases_to!(l.children@ => l.children@[i as int]));
                        assert(decreases_to!(*self => l.children@[i as int]));
                    }
                    child.draw(commands);
                    proof {
                        assert(drawn_all(l.children@, i + 1) == drawn_all(l.children@, i as int) + drawn(
                            l.children@[i as int],
                        ));
                        assert(commands@ =~= old(commands)@ + drawn_all(l.children@, i + 1));
                    }
                    i = i + 1;
                }
            },
            WidgetType::TexturedPanel(p) => {
                commands.push(DrawCommand::TexturedPanel { transform: p.transform, texture: p.texture });
                match &p.child {
                    Some(c) => {
                        proof {
                            assert(decreases_to!(*self => **c));
                        }
                        c.draw(commands);
                    },
                    None => {},
                }
                proof {
                    assert(commands@ =~= old(commands)@ + drawn(*self));
                }
            },
        }
    }
}

/// A texel of the atlas: its column and row.
#[derive(Debug, Clone, Copy, PartialEq, Eq, Structural)]
pub struct Texel {
    pub u: u32,
    pub v: u32,
}

/// A corner of an interface triangle: its position, its colour, and, for a
/// textured one, the texel of the atlas it shows.
#[derive(Debug, Clone, Copy, PartialEq, Eq, Structural)]
pub struct UiPoint {
    pub x: u32,
    pub y: u32,
    pub color: u32,
    pub texel: Option<Texel>,
}

/// A plain corner of colour `color`.
pub open spec fn colored(x: u32, y: u32, color: u32) -> UiPoint {
    UiPoint { x, y, color, texel: None }
}

/// A white corner showing texel `(u, v)` of the atlas.
pub open spec fn textured(x: u32, y: u32, u: u32, v: u32) -> UiPoint {
    UiPoint { x, y, color: 0xFFFF_FFFF, texel: Some(Texel { u, v }) }
}

/// The two triangles that draw command `c` becomes, the texture being the
/// atlas rectangle `rect` (left, top, width, height) for a textured panel.
pub open spec fn command_points(c: DrawCommand, rect: (u32, u32, u32, u32)) -> Seq<UiPoint> {
    match c {
        DrawCommand::Panel { transform: t, color } => {
            let (x, y, w, h) = (t.x, t.y, t.w, t.h);
            seq![
                colored(x, y, color),
                colored(x, (y + h) as u32, color),
                colored((x + w) as u32, y, color),
                colored((x + w) as u32, y, color),
                colored(x, (y + h) as u32, color),
                colored((x + w) as u32, (y + h) as u32, color),
            ]
        },
        DrawCommand::TexturedPanel { transform: t, texture: _ } => {
            let (x_min, x_max, y_min, y_max) = (t.x, (t.x + t.w) as u32, t.y, (t.y + t.h) as u32);
            let (u_min, u_max, v_min, v_max) = (rect.0, (rect.0 + rect.2) as u32, rect.1, (rect.1 + rect.3) as u32);
            seq![
                textured(x_min, y_min, u_min, v_min),
                textured(x_max, y_min, u_max, v_min),
                textured(x_min, y_max, u_min, v_max),
                textured(x_min, y_max, u_min, v_max),
                textured(x_max, y_min, u_max, v_min),
                textured(x_max, y_max, u_max, v_max),
            ]
        },
    }
}

/// The atlas rectangle recorded for interface texture `texture` in `ids`.
pub open spec fn ui_rect_of(ids: Map<u64, TextureData>, texture: u32) -> (u32, u32, u32, u32) {
    match ids[texture_key(TextureID { render_mode: RenderMode::UI, id: texture })] {
        TextureData::OfAtlas { x, y, width, height } => (x, y, width, height),
        _ => (0, 0, 0, 0),
    }
}

/// Command `c` can be drawn: its edges fit in 32 bits and, when textured, its
/// texture is an atlas rectangle whose edges fit too.
pub open spec fn drawable(c: DrawCommand, ids: Map<u64, TextureData>) -> bool {
    match c {
        DrawCommand::Panel { transform: t, color: _ } => t.fits(),
        DrawCommand::TexturedPanel { transform: t, texture } => {
            let k = texture_key(TextureID { render_mode: RenderMode::UI, id: texture });
            &&& t.fits()
            &&& ids.contains_key(k)
            &&& ids[k] matches TextureData::OfAtlas { x, y, width, height }
            &&& x + width <= u32::MAX
            &&& y + height <= u32::MAX
        },
    }
}

/// The corners of the first `n` commands of `cs`, in order.
pub open spec fn all_points(cs: Seq<DrawCommand>, ids: Map<u64, TextureData>, n: int) -> Seq<UiPoint>
    decreases n,
{
    if n <= 0 {
        Seq::empty()
    } else {
        all_points(cs, ids, n - 1) + command_points(cs[n - 1], match cs[n - 1] {
            DrawCommand::TexturedPanel { transform: _, texture } => ui_rect_of(ids, texture),
            _ => (0, 0, 0, 0),
        })
    }
}

/// Turns draw commands into the corners of the triangles that draw them.
pub struct UiTranslator;

impl UiTranslator {
    /// The corners of every command, in order.
    pub fn translate(commands: Vec<DrawCommand>, texture_manager: &TextureManager) -> (r: Vec<UiPoint>)
        requires
            forall|i: int|
                0 <= i < commands@.len() ==> drawable(#[trigger] commands@[i], texture_manager.textures()),
        ensures
            r@ == all_points(commands@, texture_manager.textures(), commands@.len() as int),
    {
        let mut output: Vec<UiPoint> = Vec::new();
        let mut i: usize = 0;
        while i < commands.len()
            invariant
                i <= commands@.len(),
                forall|j: int|
                    0 <= j < commands@.len() ==> drawable(#[trigger] commands@[j], texture_manager.textures()),
                output@ == all_points(commands@, texture_manager.textures(), i as int),
            decreases commands@.len() - i,
        {
            Self::process(commands[i], texture_manager, &mut output);
            proof {
                assert(output@ =~= all_points(commands@, texture_manager.textures(), i + 1));
            }
            i = i + 1;
        }
        output
    }

    /// Appends the corners of `command`.
    fn process(command: DrawCommand, texture_manager: &TextureManager, vertices: &mut Vec<UiPoint>)
        requires
            drawable(command, texture_manager.textures()),
        ensures
            final(vertices)@ == old(vertices)@ + command_points(command, match command {
                DrawCommand::TexturedPanel { transform: _, texture } => ui_rect_of(texture_manager.textures(), texture),
                _ => (0, 0, 0, 0),
            }),
    {
        match command {
            DrawCommand::Panel { transform, color } => {
                let (x, y, w, h) = transform.extract();
                vertices.push(UiPoint { x, y, color, texel: None });
                vertices.push(UiPoint { x, y: y + h, color, texel: None });
                vertices.push(UiPoint { x: x + w, y, color, texel: None });
                vertices.push(UiPoint { x: x + w, y, color, texel: None });
                vertices.push(UiPoint { x, y: y + h, color, texel: None });
                vertices.push(UiPoint { x: x + w, y: y + h, color, texel: None });
            },
            DrawCommand::TexturedPanel { transform, texture } => {
                let (x, y, w, h) = transform.extract();
                let id = TextureID::new(RenderMode::UI, texture);
                let (rx, ry, rw, rh) = match texture_manager.get_ui_rect(&id) {
                    Some(rect) => rect,
                    None => (0, 0, 0, 0),
                };
                let (u_min, u_max, v_min, v_max) = (rx, rx + rw, ry, ry + rh);
                let (x_min, x_max, y_min, y_max) = (x, x + w, y, y + h);
                let white: u32 = 0xFFFF_FFFF;
                vertices.push(UiPoint { x: x_min, y: y_min, color: white, texel: Some(Texel { u: u_min, v: v_min }) });
                vertices.push(UiPoint { x: x_max, y: y_min, color: white, texel: Some(Texel { u: u_max, v: v_min }) });
                vertices.push(UiPoint { x: x_min, y: y_max, color: white, texel: Some(Texel { u: u_min, v: v_max }) });
                vertices.push(UiPoint { x: x_min, y: y_max, color: white, texel: Some(Texel { u: u_min, v: v_max }) });
                vertices.push(UiPoint { x: x_max, y: y_min, color: white, texel: Some(Texel { u: u_max, v: v_min }) });
                vertices.push(UiPoint { x: x_max, y: y_max, color: white, texel: Some(Texel { u: u_max, v: v_max }) });
            },
        }
        proof {
            assert(final(vertices)@ =~= old(vertices)@ + command_points(command, match command {
                DrawCommand::TexturedPanel { transform: _, texture } => ui_rect_of(texture_manager.textures(), texture),
                _ => (0, 0, 0, 0),
            }));
        }
    }
}

/// What showing an item in the interface takes: its texture is known, or
/// its image must be loaded from a path, or it has none.
#[derive(Debug, Clone, PartialEq, Eq)]
pub enum TextureRequest {
    Cached(u32),
    Load(String),
    Unavailable,
}

/// The left edge of the hotbar on a screen `w` pixels wide.
pub open spec fn hotbar_left(w: u32) -> int {
    (if w >= 522 {
        w - 522
    } else {
        0
    }) / 2
}

/// The top edge of the hotbar on a screen `h` pixels high.
pub open spec fn hotbar_top(h: u32) -> int {
    if h >= 68 {
        h - 68
    } else {
        0
    }
}

/// The commands of hotbar slot `i`: its background, highlighted when
/// selected, then the icon of its item, when it holds one, as a texture or,
/// wanting one, a grey square.
pub open spec fn slot_commands(w: u32, h: u32, selected: u32, icons: Seq<Option<Option<u32>>>, i: int) -> Seq<
    DrawCommand,
> {
    let x = (hotbar_left(w) + i * 66) as u32;
    let y = hotbar_top(h) as u32;
    let bg = DrawCommand::Panel {
        transform: WidgetTransform { x, y, w: 60, h: 60 },
        color: if i == selected {
            0xFF00_00FF
        } else {
            0xAA33_3333
        },
    };
    let icon = WidgetTransform { x: (x + 6) as u32, y: (y + 6) as u32, w: 48, h: 48 };
    if 0 <= i < icons.len() && icons[i] is Some {
        match icons[i].unwrap() {
            Some(t) => seq![bg, DrawCommand::TexturedPanel { transform: icon, texture: t }],
            None => seq![bg, DrawCommand::Panel { transform: icon, color: 0xFFAA_AAAA }],
        }
    } else {
        seq![bg]
    }
}

/// The commands of the first `n` hotbar slots.
pub open spec fn hotbar_commands(w: u32, h: u32, selected: u32, icons: Seq<Option<Option<u32>>>, n: int) -> Seq<
    DrawCommand,
>
    decreases n,
{
    if n <= 0 {
        Seq::empty()
    } else {
        hotbar_commands(w, h, selected, icons, n - 1) + slot_commands(w, h, selected, icons, n - 1)
    }
}

/// The atlas rectangle command `c` takes its texels from, if any.
pub open spec fn texels_of(c: DrawCommand, ids: Map<u64, TextureData>) -> (u32, u32, u32, u32) {
    match c {
        DrawCommand::TexturedPanel { transform: _, texture } => ui_rect_of(ids, texture),
        _ => (0, 0, 0, 0),
    }
}

/// Translating commands gives six corners for each, in the order of the
/// commands: the corners of command `k` are the six from place `6 * k` on.
pub proof fn lemma_six_corners_each(cs: Seq<DrawCommand>, ids: Map<u64, TextureData>, n: int, k: int)
    requires
        0 <= k < n <= cs.len(),
    ensures
        all_points(cs, ids, n).len() == 6 * n,
        all_points(cs, ids, n).subrange(6 * k, 6 * k + 6) == command_points(cs[k], texels_of(cs[k], ids)),
    decreases n,
{
    lemma_points_len(cs, ids, n - 1);
    if k < n - 1 {
        lemma_six_corners_each(cs, ids, n - 1, k);
        let p = all_points(cs, ids, n - 1);
        assert(all_points(cs, ids, n).subrange(6 * k, 6 * k + 6) =~= p.subrange(6 * k, 6 * k + 6));
    } else {
        let p = all_points(cs, ids, n - 1);
        assert(all_points(cs, ids, n).subrange(6 * k, 6 * k + 6) =~= command_points(
            cs[k],
            texels_of(cs[k], ids),
        ));
    }
}

/// The first `n` commands give six corners each.
proof fn lemma_points_len(cs: Seq<DrawCommand>, ids: Map<u64, TextureData>, n: int)
    requires
        0 <= n,
    ensures
        all_points(cs, ids, n).len() == 6 * n,
    decreases n,
{
    if n > 0 {
        lemma_points_len(cs, ids, n - 1);
    }
}

/// With no item shown, the hotbar is its eight slot backgrounds in order:
/// slot `i` is a 60-pixel square `66 * i` pixels right of the hotbar's left
/// edge, highlighted exactly when it is the selected slot.
pub proof fn lemma_bare_hotbar(w: u32, h: u32, selected: u32, icons: Seq<Option<Option<u32>>>, i: int)
    requires
        forall|k: int| 0 <= k < 8 && k < icons.len() ==> #[trigger] icons[k] is None,
        0 <= i < 8,
    ensures
        hotbar_commands(w, h, selected, icons, 8).len() == 8,
        hotbar_commands(w, h, selected, icons, 8)[i] == (DrawCommand::Panel {
            transform: WidgetTransform {
                x: (hotbar_left(w) + 66 * i) as u32,
                y: hotbar_top(h) as u32,
                w: 60,
                h: 60,
            },
            color: if i == selected {
                0xFF00_00FFu32
            } else {
                0xAA33_3333u32
            },
        }),
{
    lemma_bare_hotbar_prefix(w, h, selected, icons, 8, i);
}

proof fn lemma_bare_hotbar_prefix(w: u32, h: u32, selected: u32, icons: Seq<Option<Option<u32>>>, n: int, i: int)
    requires
        forall|k: int| 0 <= k < 8 && k < icons.len() ==> #[trigger] icons[k] is None,
        0 <= i < n <= 8,
    ensures
        hotbar_commands(w, h, selected, icons, n).len() == n,
        hotbar_commands(w, h, selected, icons, n)[i] == (DrawCommand::Panel {
            transform: WidgetTransform {
                x: (hotbar_left(w) + 66 * i) as u32,
                y: hotbar_top(h) as u32,
                w: 60,
                h: 60,
            },
            color: if i == selected {
                0xFF00_00FFu32
            } else {
                0xAA33_3333u32
            },
        }),
    decreases n,
{
    if n - 1 < icons.len() {
        assert(icons[n - 1] is None);
    }
    if i < n - 1 {
        lemma_bare_hotbar_prefix(w, h, selected, icons, n - 1, i);
    } else if n - 1 > 0 {
        lemma_bare_hotbar_prefix(w, h, selected, icons, n - 1, 0);
    }
}

/// The player's interface: the hotbar, and the interface textures of the
/// items already shown.
pub struct ClientUI {
    item_textures: HashMap<u32, u32, FxBuildHasher>,
    screen_size: (u32, u32),
    vertices: Vec<u8>,
}

impl ClientUI {
    /// The interface texture of each item shown so far.
    pub closed spec fn cache(&self) -> Map<u32, u32> {
        self.item_textures@
    }

    pub closed spec fn spec_screen_size(&self) -> (u32, u32) {
        self.screen_size
    }

    /// The vertex bytes of the hotbar as last built.
    pub closed spec fn spec_vertices(&self) -> Seq<u8> {
        self.vertices@
    }

    pub fn new() -> (r: Self)
        ensures
            r.cache() == Map::<u32, u32>::empty(),
            r.spec_screen_size() == (0u32, 0u32),
            r.spec_vertices() == Seq::<u8>::empty(),
    {
        Self { item_textures: fx_map_u32_new(), screen_size: (0, 0), vertices: Vec::new() }
    }

    /// What showing item `item_id` takes: its known texture, else the image
    /// path of its definition, else nothing.
    pub fn texture_request(&self, item_id: u32, item_manager: &ItemManager) -> (r: TextureRequest)
        ensures
            self.cache().contains_key(item_id) ==> r == TextureRequest::Cached(self.cache()[item_id]),
            !self.cache().contains_key(item_id) ==> match r {
                TextureRequest::Cached(_) => false,
                TextureRequest::Load(p) => {
                    &&& item_id < item_manager.items().len()
                    &&& item_manager.items()[item_id as int].texture_path is Some
                    &&& p@ == item_manager.items()[item_id as int].texture_path.unwrap()@
                },
                TextureRequest::Unavailable => item_id >= item_manager.items().len() || item_manager.items()[item_id as int].texture_path is None,
            },
    {
        match fx_map_u32_get(&self.item_textures, item_id) {
            Some(t) => {
                return TextureRequest::Cached(*t);
            },
            None => {},
        }
        match item_manager.get_by_id(item_id) {
            Some(def) => match &def.texture_path {
                Some(p) => TextureRequest::Load(p.clone()),
                None => TextureRequest::Unavailable,
            },
            None => TextureRequest::Unavailable,
        }
    }

    /// Records the image of item `item_id`, `width` by `height` texels whose
    /// bytes are `data`, in the interface atlas, and remembers its texture;
    /// `None` when the atlas is full.
    pub fn register_item_texture(
        &mut self,
        item_id: u32,
        data: &[u8],
        width: u32,
        height: u32,
        texture_manager: &mut TextureManager,
    ) -> (r: Option<u32>)
        requires
            old(texture_manager).wf(),
            old(texture_manager).spec_next_ui_id() < u32::MAX || crate::textures::atlas_step(
                old(texture_manager).spec_atlas(),
                width,
                height,
            ).1 is None,
            data@.len() == width as int * height as int * 4,
        ensures
            final(texture_manager).wf(),
            (final(texture_manager).ui_book(), match r {
                Some(t) => Ok::<TextureID, Seq<char>>(TextureID { render_mode: RenderMode::UI, id: t }),
                None => Err(crate::textures::atlas_full_msg()),
            }) == crate::textures::ui_register_step(old(texture_manager).ui_book(), width, height),
            final(self).cache() == match r {
                Some(t) => old(self).cache().insert(item_id, t),
                None => old(self).cache(),
            },
            final(self).spec_screen_size() == old(self).spec_screen_size(),
            final(self).spec_vertices() == old(self).spec_vertices(),
    {
        match texture_manager.register_atlas(data, width, height) {
            Ok(id) => {
                let t = id.id();
                fx_map_u32_insert(&mut self.item_textures, item_id, t);
                Some(t)
            },
            Err(_) => None,
        }
    }

    /// Lays out the hotbar on a screen of `width` by `height`: eight slots
    /// centred at the bottom, slot `selected_slot` highlighted, slot `i`
    /// showing `icons[i]` when it is there (`None` for an empty slot, else
    /// the item's texture if it has one); `None` for an empty screen.
    pub fn layout_hotbar(
        &mut self,
        width: u32,
        height: u32,
        selected_slot: u32,
        icons: &[Option<Option<u32>>],
    ) -> (r: Option<Vec<DrawCommand>>)
        ensures
            width == 0 || height == 0 ==> r is None && final(self).spec_screen_size() == old(self).spec_screen_size(),
            width != 0 && height != 0 ==> {
                &&& r is Some
                &&& r.unwrap()@ == hotbar_commands(width, height, selected_slot, icons@, 8)
                &&& final(self).spec_screen_size() == (width, height)
            },
            final(self).cache() == old(self).cache(),
            final(self).spec_vertices() == old(self).spec_vertices(),
    {
        if width == 0 || height == 0 {
            return None;
        }
        self.screen_size = (width, height);
        let slot: u32 = 60;
        let gap: u32 = 6;
        let total: u32 = 8 * slot + 7 * gap;
        let start_x = width.saturating_sub(total) / 2;
        let start_y = height.saturating_sub(slot + 8);
        let mut commands: Vec<DrawCommand> = Vec::new();
        let mut i: usize = 0;
        while i < 8
            invariant
                i <= 8,
                start_x as int == hotbar_left(width),
                start_y as int == hotbar_top(height),
                start_x <= 0x7FFF_FFFF,
                start_y <= u32::MAX - 68,
                slot == 60 && gap == 6,
                commands@ == hotbar_commands(width, height, selected_slot, icons@, i as int),
            decreases 8 - i,
        {
            let x = start_x + (i as u32) * 66;
            let bg = WidgetTransform::new(x, start_y, slot, slot);
            let color: u32 = if i == selected_slot as usize {
                0xFF00_00FF
            } else {
                0xAA33_3333
            };
            commands.push(DrawCommand::Panel { transform: bg, color });
            if i < icons.len() {
                match icons[i] {
                    Some(tex) => {
                        let icon = WidgetTransform::new(x + 6, start_y + 6, slot - 12, slot - 12);
                        match tex {
                            Some(tex_id) => {
                                commands.push(DrawCommand::TexturedPanel { transform: icon, texture: tex_id });
                            },
                            None => {
                                commands.push(DrawCommand::Panel { transform: icon, color: 0xFFAA_AAAA });
                            },
                        }
                    },
                    None => {},
                }
            }
            proof {
                assert(commands@ =~= hotbar_commands(width, height, selected_slot, icons@, i + 1));
            }
            i = i + 1;
        }
        Some(commands)
    }

    /// Keeps the vertex bytes of the hotbar as last built.
    pub fn set_vertices(&mut self, bytes: Vec<u8>)
        ensures
            final(self).spec_vertices() == bytes@,
            final(self).cache() == old(self).cache(),
            final(self).spec_screen_size() == old(self).spec_screen_size(),
    {
        self.vertices = bytes;
    }

    pub fn vertices(&self) -> (r: &[u8])
        ensures
            r@ == self.spec_vertices(),
    {
        self.vertices.as_slice()
    }
}

impl Default for ClientUI {
    fn default() -> (r: Self)
        ensures
            r.cache() == Map::<u32, u32>::empty(),
            r.spec_screen_size() == (0u32, 0u32),
            r.spec_vertices() == Seq::<u8>::empty(),
    {
        Self::new()
    }
}

} // verus!
