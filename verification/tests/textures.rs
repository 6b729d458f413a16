use ascendustry::rect::Rect2;
use ascendustry::textures::{RenderMode, Texture2DArray, Texture2DAtlas, TextureData, TextureID, TextureManager};

fn overlap(a: (u32, u32, u32, u32), b: (u32, u32, u32, u32)) -> bool {
    a.0 < b.0 + b.2 && b.0 < a.0 + a.2 && a.1 < b.1 + b.3 && b.1 < a.1 + a.3
}

#[test]
fn render_modes_number_and_names() {
    assert_eq!(RenderMode::Opaque.to_usize(), 0);
    assert_eq!(RenderMode::UI.to_usize(), 4);
    assert_eq!(RenderMode::AlphaCutout.name(), "RenderMode::AlphaCutout");
    let id = TextureID::new(RenderMode::Billboard, 9);
    assert_eq!(id.render_mode(), &RenderMode::Billboard);
    assert_eq!(id.id(), 9);
    assert_ne!(id.key(), TextureID::new(RenderMode::Translucent, 9).key());
    assert_eq!(TextureData::for_array(3), TextureData::OfArray { depth: 3 });
    assert_eq!(TextureData::for_atlas(1, 2, 3, 4), TextureData::OfAtlas { x: 1, y: 2, width: 3, height: 4 });
}

#[test]
fn atlas_packs_rows_left_to_right() {
    let mut atlas = Texture2DAtlas::new(100, 50);
    assert_eq!(atlas.allocate(40, 10), Some((0, 0)));
    assert_eq!(atlas.allocate(40, 20), Some((40, 0)));
    // Does not fit on the row: a new row starts under the tallest image.
    assert_eq!(atlas.allocate(30, 5), Some((0, 20)));
    assert_eq!(atlas.allocate(70, 25), Some((30, 20)));
    // Too tall for what is left.
    assert_eq!(atlas.allocate(10, 10), None);
    assert_eq!((atlas.width(), atlas.height()), (100, 50));
}

#[test]
fn atlas_placements_never_overlap() {
    let mut atlas = Texture2DAtlas::new(256, 256);
    let sizes = [(16, 16), (64, 8), (200, 30), (300, 10), (8, 8), (100, 100), (120, 120), (16, 40), (256, 1)];
    let mut placed: Vec<(u32, u32, u32, u32)> = Vec::new();
    for (w, h) in sizes {
        if let Some((x, y)) = atlas.allocate(w, h) {
            assert!(y + h <= 256);
            assert!(x + w <= 256 || x == 0);
            placed.push((x, y, w, h));
        }
    }
    for i in 0..placed.len() {
        for j in (i + 1)..placed.len() {
            assert!(!overlap(placed[i], placed[j]), "{:?} {:?}", placed[i], placed[j]);
        }
    }
    assert!(placed.len() >= 5);
}

#[test]
fn array_hands_out_layers_in_order() {
    let mut array = Texture2DArray::new(32, 32, 4);
    assert_eq!(array.next_id(), 0);
    assert_eq!(array.next_id(), 1);
    assert!(array.accepts_layer(32 * 32 * 4, 4));
    assert!(!array.accepts_layer(32 * 32 * 4, 5));
    assert!(!array.accepts_layer(10, 0));
    assert_eq!((array.width(), array.height(), array.depth()), (32, 32, 4));
}

#[test]
fn manager_registers_array_textures_until_full() {
    let mut tm = TextureManager::new(4096, 1);
    let layer = vec![0u8; 32 * 32 * 4];
    assert_eq!(tm.register_array(RenderMode::Opaque, &layer), Ok(TextureID::new(RenderMode::Opaque, 0)));
    assert_eq!(tm.register_array(RenderMode::Opaque, &layer), Ok(TextureID::new(RenderMode::Opaque, 1)));
    assert_eq!(
        tm.register_array(RenderMode::Opaque, &layer),
        Err("No place found for RenderMode::Opaque.".to_string())
    );
    assert_eq!(tm.register_array(RenderMode::Translucent, &layer), Ok(TextureID::new(RenderMode::Translucent, 0)));
    assert_eq!(tm.get_texture(&TextureID::new(RenderMode::Opaque, 1)), Some(TextureData::OfArray { depth: 1 }));
    assert_eq!(tm.get_array(&RenderMode::Opaque).width(), 32);
    assert_eq!(tm.get_ui_rect(&TextureID::new(RenderMode::Opaque, 1)), None);
}

#[test]
fn manager_registers_atlas_textures() {
    let mut tm = TextureManager::new(4096, 8);
    assert_eq!((tm.get_ui_atlas().width(), tm.get_ui_atlas().height()), (2170, 1132));
    let img = vec![0u8; 10 * 20 * 4];
    let a = tm.register_atlas(&img, 10, 20).unwrap();
    let b = tm.register_atlas(&img, 10, 20).unwrap();
    assert_eq!(a, TextureID::new(RenderMode::UI, 0));
    assert_eq!(b, TextureID::new(RenderMode::UI, 1));
    assert_eq!(tm.get_ui_rect(&a), Some((0, 0, 10, 20)));
    assert_eq!(tm.get_ui_rect(&b), Some((10, 0, 10, 20)));
    assert_eq!(tm.next_ui_id(), 2);
    let huge = vec![0u8; 4 * 2000 * 2000];
    assert_eq!(tm.register_atlas(&huge, 2000, 2000), Err("Atlas plein".to_string()));
    assert_eq!(tm.next_ui_id(), 2);
}

#[test]
fn manager_registers_several_atlas_textures() {
    let mut tm = TextureManager::new(4096, 8);
    let small = vec![0u8; 4 * 4 * 4];
    let huge = vec![0u8; 4 * 2000 * 2000];
    let textures: Vec<&[u8]> = vec![&small, &huge, &small];
    let infos = vec![Rect2::new(0, 0, 4, 4), Rect2::new(0, 0, 2000, 2000), Rect2::new(0, 0, 4, 4)];
    let out = tm.register_atlas_multiple(&textures, &infos);
    assert_eq!(out.len(), 3);
    assert_eq!(out[0], Ok(TextureID::new(RenderMode::UI, 0)));
    assert_eq!(out[1], Err("Atlas plein".to_string()));
    assert_eq!(out[2], Ok(TextureID::new(RenderMode::UI, 1)));
}
