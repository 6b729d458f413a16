use rustc_hash::{FxHashMap, FxHashSet};

use ascendustry::block::{BlockInstance, BlockManager};
use ascendustry::assets::BlockDefinitionRaw;
use ascendustry::data_manager::{DataManager, HashVec, Id};
use ascendustry::items::{ItemDefinition, ItemManager};
use ascendustry::launch::{run_client, run_server, set_play_mode, start_multiplayer, LaunchMode, Program};
use ascendustry::raster::{coord_key_of, cull_chunks_rasterizer, ChunkAxes, SliceBounds};
use ascendustry::textures::TextureManager;
use ascendustry::ui::{
    ClientUI, DrawCommand, List, TextureRequest, Texel, TexturedPanel, UiPoint, UiTranslator, WidgetTransform, WidgetType,
};
use ascendustry::world_gen::{ore_layer, Chunk, ChunkSamples, OreLayer, TerrainIds, CHUNK_BLOCK_NUMBER};
use ascendustry::text::push_decimal;

fn block(id: &str) -> ascendustry::block::BlockData {
    BlockDefinitionRaw {
        id: id.to_string(),
        name: id.to_string(),
        solid: true,
        hardness_bits: 0,
        texture: None,
        render_mode: "opaque".to_string(),
        drop: None,
        has_item: true,
    }
    .into_block_data()
}

fn idx(x: usize, y: usize, z: usize) -> usize {
    x * 1024 + y * 32 + z
}

#[test]
fn terrain_ids_and_ore_layers_resolve_names() {
    let mut blocks = BlockManager::new();
    for name in ["air", "grass", "dirt", "stone", "coal"] {
        blocks.register(block(name));
    }
    let ids = TerrainIds::resolve(&blocks).unwrap();
    assert_eq!(ids, TerrainIds { grass: 1, dirt: 2, stone: 3 });
    let coal = ore_layer(&blocks, "coal".to_string(), -40, -10);
    assert_eq!(coal, OreLayer { depth_min: -40, depth_max: -10, block: Some(4) });
    let gold = ore_layer(&blocks, "gold".to_string(), -90, -50);
    assert_eq!(gold.block, None);
    let mut empty = BlockManager::new();
    empty.register(block("grass"));
    assert_eq!(TerrainIds::resolve(&empty), None);
}

#[test]
fn chunk_generation_layers_the_ground() {
    let ids = TerrainIds { grass: 1, dirt: 2, stone: 3 };
    let ores = vec![
        OreLayer { depth_min: -100, depth_max: 5, block: Some(7) },
        OreLayer { depth_min: -100, depth_max: 100, block: None },
    ];
    let mut samples = ChunkSamples {
        terrain_y: vec![20; 1024],
        cave: vec![false; CHUNK_BLOCK_NUMBER],
        ore_hit: vec![false; CHUNK_BLOCK_NUMBER * 2],
    };
    // Column (0, 0): a cave at height 10; a vein of the first ore at height 2.
    samples.cave[idx(0, 10, 0)] = true;
    samples.ore_hit[idx(0, 2, 0) * 2] = true;
    // Column (1, 0): the second ore, whose block is unknown, at height 3.
    samples.ore_hit[idx(1, 3, 0) * 2 + 1] = true;
    // Column (2, 0): ground ends lower.
    samples.terrain_y[2 * 32] = 5;

    let chunk = Chunk::generate_with_context(0, 0, 0, ids, &ores, &samples);
    assert_eq!((chunk.x, chunk.y, chunk.z), (0, 0, 0));
    assert_eq!(chunk.get_block_from_xyz(0, 19, 0), BlockInstance::new(1));
    assert_eq!(chunk.get_block_from_xyz(0, 18, 0), BlockInstance::new(2));
    assert_eq!(chunk.get_block_from_xyz(0, 16, 0), BlockInstance::new(2));
    assert_eq!(chunk.get_block_from_xyz(0, 15, 0), BlockInstance::new(3));
    assert_eq!(chunk.get_block_from_xyz(0, 20, 0), BlockInstance::air());
    assert_eq!(chunk.get_block_from_xyz(0, 31, 0), BlockInstance::air());
    assert_eq!(chunk.get_block_from_xyz(0, 10, 0), BlockInstance::air());
    assert_eq!(chunk.get_block_from_xyz(0, 2, 0), BlockInstance::new(7));
    assert_eq!(chunk.get_block_from_xyz(1, 3, 0), BlockInstance::new(3));
    assert_eq!(chunk.get_block_from_xyz(2, 4, 0), BlockInstance::new(1));
    assert_eq!(chunk.get_block_from_xyz(2, 5, 0), BlockInstance::air());

    // One chunk up, everything is above the ground.
    let above = Chunk::generate_with_context(0, 1, 0, ids, &ores, &samples);
    assert!(above.blocks.iter().all(|b| b.is_air()));
}

#[test]
fn chunk_blocks_are_set_by_coordinates() {
    let mut chunk = Chunk { blocks: vec![BlockInstance::air(); CHUNK_BLOCK_NUMBER], x: 0, y: 0, z: 0 };
    chunk.set_block_from_xyz(1, 2, 3, BlockInstance::new(9));
    assert_eq!(chunk.blocks[idx(1, 2, 3)], BlockInstance::new(9));
    assert_eq!(chunk.get_block_from_xyz(1, 2, 3), BlockInstance::new(9));
}

#[test]
fn rasterizer_collects_meshes_of_covered_chunks() {
    let mut meshes: FxHashMap<u128, u32> = FxHashMap::default();
    meshes.insert(coord_key_of(5, 0, 0), 50);
    meshes.insert(coord_key_of(5, 1, -1), 51);
    meshes.insert(coord_key_of(6, 3, 3), 63);
    meshes.insert(coord_key_of(0, 0, 0), 1);
    meshes.insert(coord_key_of(-1, -1, -1), 99);
    let axes = ChunkAxes { d: 0, u: 1, v: 2 };
    let slices = vec![
        SliceBounds { d: 5, min_u: 0, max_u: 1, min_v: -1, max_v: 0 },
        SliceBounds { d: 6, min_u: 0, max_u: 2, min_v: 0, max_v: 2 },
        SliceBounds { d: 7, min_u: 1, max_u: 0, min_v: 0, max_v: 0 },
    ];
    let mut out = FxHashSet::default();
    cull_chunks_rasterizer(&meshes, axes, &slices, (-1, -1, -1), &mut out);
    let expected: FxHashSet<u32> = [50, 51, 99].into_iter().collect();
    assert_eq!(out, expected);

    // Marching along z: slice coordinate goes in the third place.
    let mut out = FxHashSet::default();
    let axes = ChunkAxes { d: 2, u: 0, v: 1 };
    cull_chunks_rasterizer(&meshes, axes, &[SliceBounds { d: 3, min_u: 6, max_u: 6, min_v: 3, max_v: 3 }], (9, 9, 9), &mut out);
    assert_eq!(out, [63].into_iter().collect());
    assert_ne!(coord_key_of(1, 2, 3), coord_key_of(3, 2, 1));
}

#[test]
fn launcher_plans() {
    let c = run_client("10.0.0.1:1");
    assert_eq!(c.program, Program::Client);
    assert_eq!(c.args, vec!["--address".to_string(), "10.0.0.1:1".to_string()]);
    assert!(!c.background);
    let s = run_server("saves/a");
    assert_eq!(s.program, Program::Server);
    assert_eq!(s.args, vec!["-p".to_string(), "saves/a".to_string()]);
    assert!(s.background);
    assert_eq!(Program::Client.file_name(), "Ascendustry");
    assert_eq!(Program::Server.file_name(), "server");

    let solo = set_play_mode(LaunchMode::Singleplayer("world1".to_string()));
    assert_eq!(solo.len(), 2);
    assert_eq!(solo[0], run_server("world1"));
    assert_eq!(solo[1], run_client("127.0.0.1:42677"));
    let multi = set_play_mode(LaunchMode::Multiplayer("1.2.3.4:5".to_string()));
    assert_eq!(multi, start_multiplayer("1.2.3.4:5"));
    assert_eq!(multi.len(), 1);
}

#[test]
fn data_manager_frees_slots() {
    let mut m: DataManager<u32> = DataManager::new();
    let mut none: Id = None;
    assert_eq!(m.free(&mut none), None);
    let mut far: Id = Some(3);
    assert_eq!(m.free(&mut far), None);
    assert_eq!(far, Some(3));
    let _m2: DataManager<String> = DataManager::with_capacity(8);
    let _h: HashVec<u8> = HashVec::new();
    HashVec::<u8>::push();
}

#[test]
fn decimal_text() {
    let mut s = String::from("n=");
    push_decimal(&mut s, 0);
    push_decimal(&mut s, 1234567890123);
    assert_eq!(s, "n=01234567890123");
}

#[test]
fn widgets_draw_in_order() {
    let t = |x| WidgetTransform::new(x, 0, 10, 10);
    let inner = TexturedPanel::new(t(2), 7, None);
    let panel = TexturedPanel::new(t(1), 5, Some(Box::new(WidgetType::TexturedPanel(inner))));
    let list = List::new(t(0), vec![WidgetType::TexturedPanel(panel), WidgetType::List(List::new(t(9), Vec::new()))]);
    assert_eq!(list.children().len(), 2);
    let mut commands = Vec::new();
    WidgetType::List(list).draw(&mut commands);
    assert_eq!(
        commands,
        vec![
            DrawCommand::TexturedPanel { transform: t(1), texture: 5 },
            DrawCommand::TexturedPanel { transform: t(2), texture: 7 },
        ]
    );
    assert_eq!(t(4).extract(), (4, 0, 10, 10));
}

#[test]
fn translator_makes_two_triangles_per_command() {
    let mut tm = TextureManager::new(4096, 4);
    let tex = tm.register_atlas(&vec![0u8; 8 * 6 * 4], 8, 6).unwrap();
    let tex2 = tm.register_atlas(&vec![0u8; 2 * 2 * 4], 2, 2).unwrap();
    assert_eq!(tex.id(), 0);
    let commands = vec![
        DrawCommand::Panel { transform: WidgetTransform::new(1, 2, 3, 4), color: 0xAB },
        DrawCommand::TexturedPanel { transform: WidgetTransform::new(10, 20, 5, 5), texture: tex2.id() },
    ];
    let points = UiTranslator::translate(commands, &tm);
    assert_eq!(points.len(), 12);
    let c = |x, y| UiPoint { x, y, color: 0xAB, texel: None };
    assert_eq!(&points[..6], &[c(1, 2), c(1, 6), c(4, 2), c(4, 2), c(1, 6), c(4, 6)]);
    let w = |x, y, u, v| UiPoint { x, y, color: 0xFFFF_FFFF, texel: Some(Texel { u, v }) };
    assert_eq!(
        &points[6..],
        &[w(10, 20, 8, 0), w(15, 20, 10, 0), w(10, 25, 8, 2), w(10, 25, 8, 2), w(15, 20, 10, 0), w(15, 25, 10, 2)]
    );
}

#[test]
fn hotbar_layout() {
    let mut ui = ClientUI::new();
    assert_eq!(ui.layout_hotbar(0, 600, 0, &[]), None);
    let icons = [Some(Some(4)), None, Some(None)];
    let commands = ui.layout_hotbar(1000, 600, 1, &icons).unwrap();
    // 8 backgrounds, a textured icon for slot 0 and a grey one for slot 2.
    assert_eq!(commands.len(), 10);
    let start_x = (1000 - 522) / 2;
    let start_y = 600 - 68;
    assert_eq!(commands[0], DrawCommand::Panel { transform: WidgetTransform::new(start_x, start_y, 60, 60), color: 0xAA33_3333 });
    assert_eq!(commands[1], DrawCommand::TexturedPanel { transform: WidgetTransform::new(start_x + 6, start_y + 6, 48, 48), texture: 4 });
    assert_eq!(commands[2], DrawCommand::Panel { transform: WidgetTransform::new(start_x + 66, start_y, 60, 60), color: 0xFF00_00FF });
    assert_eq!(commands[4], DrawCommand::Panel { transform: WidgetTransform::new(start_x + 132 + 6, start_y + 6, 48, 48), color: 0xFFAA_AAAA });
    let small = ui.layout_hotbar(100, 10, 9, &[]).unwrap();
    assert_eq!(small[0], DrawCommand::Panel { transform: WidgetTransform::new(0, 0, 60, 60), color: 0xAA33_3333 });
}

#[test]
fn item_textures_are_cached() {
    let mut items = ItemManager::new();
    items.register(ItemDefinition {
        id: None,
        id_str: "dirt".to_string(),
        name: "Dirt".to_string(),
        max_stack: 96,
        item_type: "Placeable".to_string(),
        texture_path: Some("items/dirt.png".to_string()),
        texture_index: None,
    });
    items.register(ItemDefinition {
        id: None,
        id_str: "ghost".to_string(),
        name: "Ghost".to_string(),
        max_stack: 1,
        item_type: "Placeable".to_string(),
        texture_path: None,
        texture_index: None,
    });
    let mut ui = ClientUI::default();
    let mut tm = TextureManager::new(4096, 4);
    assert_eq!(ui.texture_request(0, &items), TextureRequest::Load("items/dirt.png".to_string()));
    assert_eq!(ui.texture_request(1, &items), TextureRequest::Unavailable);
    assert_eq!(ui.texture_request(5, &items), TextureRequest::Unavailable);
    assert_eq!(ui.register_item_texture(0, &vec![0u8; 16], 2, 2, &mut tm), Some(0));
    assert_eq!(ui.texture_request(0, &items), TextureRequest::Cached(0));
    ui.set_vertices(vec![1, 2, 3]);
    assert_eq!(ui.vertices(), &[1, 2, 3]);
}
