use ascendustry::assets::{
    assemble_block_definitions, assemble_item_definitions, block_id_str_to_item, default_hardness_bits, default_item_type,
    default_max_stack, default_render_mode_str, default_solid, default_true, f32_bits_is_negative, BlockDefinitionRaw,
    ItemDefinitionRaw,
};
use ascendustry::block::{BlockData, BlockInstance, BlockManager};
use ascendustry::inventory::Item;
use ascendustry::items::{ItemDefinition, ItemInstance, ItemManager};
use ascendustry::types::{PlayerGameMode, Position3I5};
use ascendustry::rect::Rect2;

fn raw_block(id: &str, name: &str, hardness: f32) -> BlockDefinitionRaw {
    BlockDefinitionRaw {
        id: id.to_string(),
        name: name.to_string(),
        solid: default_solid(),
        hardness_bits: hardness.to_bits(),
        texture: None,
        render_mode: default_render_mode_str(),
        drop: None,
        has_item: default_true(),
    }
}

fn raw_item(id: &str, name: &str, max_stack: u32) -> ItemDefinitionRaw {
    ItemDefinitionRaw { id: id.to_string(), name: name.to_string(), max_stack, item_type: default_item_type(), texture: None }
}

fn item_def(id: &str) -> ItemDefinition {
    raw_item(id, id, 96).into_item_definition()
}

fn block_def(id: &str, drop: Option<&str>, has_item: bool, texture: Option<u32>) -> BlockData {
    let mut b = raw_block(id, id, 1.0).into_block_data();
    b.drop = drop.map(|d| d.to_string());
    b.has_item = has_item;
    b.texture_index = texture;
    b
}

#[test]
fn defaults_of_data_files() {
    assert!(default_solid());
    assert!(default_true());
    assert_eq!(default_max_stack(), 96);
    assert_eq!(default_render_mode_str(), "opaque");
    assert_eq!(default_item_type(), "Placeable");
    assert_eq!(f32::from_bits(default_hardness_bits()), 0.5);
}

#[test]
fn float_bits_sign_matches_float_comparison() {
    let samples = [0.0f32, -0.0, 1.0, -1.0, 0.5, -1e-40, 1e-40, f32::INFINITY, f32::NEG_INFINITY, f32::NAN, -f32::NAN, f32::MAX, f32::MIN];
    for x in samples {
        assert_eq!(f32_bits_is_negative(x.to_bits()), x < 0.0, "{:?}", x);
    }
}

#[test]
fn block_validation_messages() {
    assert_eq!(raw_block("", "Dirt", 1.0).validate(), Err("Block id cannot be empty".to_string()));
    assert_eq!(raw_block("dirt", "", 1.0).validate(), Err("Block name cannot be empty".to_string()));
    assert_eq!(raw_block("dirt", "Dirt", -2.0).validate(), Err("Block 'dirt' has negative hardness".to_string()));
    assert_eq!(raw_block("dirt", "Dirt", 0.0).validate(), Ok(()));
}

#[test]
fn item_validation_messages() {
    assert_eq!(raw_item("", "Dirt", 1).validate(), Err("Item id cannot be empty".to_string()));
    assert_eq!(raw_item("dirt", "", 1).validate(), Err("Item name cannot be empty".to_string()));
    assert_eq!(raw_item("dirt", "Dirt", 0).validate(), Err("Item 'dirt' has max_stack of 0".to_string()));
    assert_eq!(raw_item("dirt", "Dirt", 1).validate(), Ok(()));
}

#[test]
fn assembling_definitions_reports_the_first_error() {
    let files = vec![
        ("\"a.json\"".to_string(), Ok(raw_block("a", "A", 1.0))),
        ("\"b.json\"".to_string(), Ok(raw_block("b", "", 1.0))),
        ("\"c.json\"".to_string(), Err("Failed to parse \"c.json\": bad".to_string())),
    ];
    assert_eq!(assemble_block_definitions(files).err(), Some("\"b.json\": Block name cannot be empty".to_string()));

    let files = vec![
        ("\"a.json\"".to_string(), Ok(raw_block("a", "A", 1.0))),
        ("\"c.json\"".to_string(), Err("Failed to parse \"c.json\": bad".to_string())),
    ];
    assert_eq!(assemble_block_definitions(files).err(), Some("Failed to parse \"c.json\": bad".to_string()));

    assert_eq!(assemble_block_definitions(Vec::new()).err(), Some("No block definitions found".to_string()));
    assert_eq!(assemble_item_definitions(Vec::new()).err(), Some("No item definitions found".to_string()));

    let files = vec![("\"x.json\"".to_string(), Ok(raw_item("x", "X", 0)))];
    assert_eq!(assemble_item_definitions(files).err(), Some("\"x.json\": Item 'x' has max_stack of 0".to_string()));
}

#[test]
fn assembling_definitions_keeps_file_order() {
    let files = vec![
        ("a".to_string(), Ok(raw_block("stone", "Stone", 1.5))),
        ("b".to_string(), Ok(raw_block("dirt", "Dirt", 0.5))),
    ];
    let blocks = assemble_block_definitions(files).unwrap();
    assert_eq!(blocks.len(), 2);
    assert_eq!(blocks[0].id_str, "stone");
    assert_eq!(blocks[1].id_str, "dirt");
    assert_eq!(blocks[0].id, None);
    assert_eq!(f32::from_bits(blocks[0].hardness_bits), 1.5);

    let items = assemble_item_definitions(vec![("a".to_string(), Ok(raw_item("dirt", "Dirt", 64)))]).unwrap();
    assert_eq!(items[0].max_stack, 64);
    assert_eq!(items[0].item_type, "Placeable");
}

#[test]
fn base_items_of_blocks() {
    assert_eq!(block_id_str_to_item("dirt"), Some(Item::Dirt));
    assert_eq!(block_id_str_to_item("grass"), Some(Item::Grass));
    assert_eq!(block_id_str_to_item("stone"), Some(Item::Stone));
    assert_eq!(block_id_str_to_item("sand"), None);
}

#[test]
fn item_registry_numbers_in_order() {
    let mut items = ItemManager::new();
    items.register(item_def("dirt"));
    items.register(item_def("sword"));
    assert_eq!(items.item_count(), 2);
    assert_eq!(items.get_id_by_string("sword"), Some(1));
    assert_eq!(items.get_by_id(0).unwrap().id_str, "dirt");
    assert_eq!(items.get_by_id(0).unwrap().get_id(), 0);
    assert!(items.get_by_id(2).is_none());
    assert!(items.get_by_string("axe").is_none());
    assert_eq!(ItemInstance::new(4).get_id(), 4);
    items.dispose();
    assert_eq!(items.item_count(), 0);
}

#[test]
fn block_registry_links_items() {
    let mut items = ItemManager::new();
    items.register(item_def("dirt"));
    items.register(item_def("cobble"));

    let mut blocks = BlockManager::new();
    blocks.register(block_def("air", None, false, None));
    blocks.register(block_def("dirt", None, true, Some(3)));
    blocks.register(block_def("stone", Some("cobble"), true, Some(5)));
    blocks.register(block_def("glass", None, true, None));
    assert_eq!(blocks.block_count(), 4);
    assert_eq!(blocks.get_block_by_string("stone".to_string()).unwrap().get_id(), 2);
    assert_eq!(blocks.get_block_by_id(1).unwrap().get_id_str(), "dirt");

    blocks.resolve_item_mappings(&items);
    assert_eq!(blocks.item_to_block_id(0), Some(1));
    assert_eq!(blocks.item_to_block_id(1), Some(2));
    assert_eq!(blocks.item_to_block_id(7), None);

    assert_eq!(blocks.block_to_item(2, &items), Some(ItemInstance::new(1)));
    assert_eq!(blocks.block_to_item(0, &items), None);
    assert_eq!(blocks.block_to_item(3, &items), None);
    assert_eq!(blocks.block_to_item(9, &items), None);

    blocks.build_texture_lookup();
    assert_eq!(blocks.get_texture_lookup(), &[0, 3, 5, 0]);
    blocks.dispose();
    assert_eq!(blocks.block_count(), 0);
}

#[test]
fn block_instances() {
    assert!(BlockInstance::air().is_air());
    assert!(!BlockInstance::air().is_solid());
    assert!(BlockInstance::new(3).is_solid());
    assert_eq!(BlockInstance::new(3).get_block_id(), 3);
}

#[test]
fn packed_positions_round_trip() {
    let p = Position3I5::new(31, 7, 19);
    assert_eq!((p.x(), p.y(), p.z()), (31, 7, 19));
    let q = Position3I5::new(33, 0, 0);
    assert_eq!(q.x(), 1);
}

#[test]
fn game_mode_names_and_rects() {
    assert_eq!(PlayerGameMode::Survival.name(), "PlayerGameMode::Survival");
    assert_eq!(PlayerGameMode::Spectator.name(), "PlayerGameMode::Spectator");
    let r = Rect2::new(-3, 4, 10, 20);
    assert_eq!((r.x(), r.y(), r.w(), r.h()), (-3, 4, 10, 20));
}
