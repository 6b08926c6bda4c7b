use wanderer_tales::hex_vector::HexVector;
use wanderer_tales::map_items::{
    are_render_groups_irrelevant, is_render_group_irrelevant, MaterialKey, MaterialType, MeshType, RenderGroup, SceneState,
};
use wanderer_tales::map_updates::{
    get_corner_heights, hex_tile_pattern, is_moved_event_irrelevant, is_out_of_sight,
    moved_sight_range, tile_height_differences, tile_height_level,
};

#[test]
fn material_names() {
    assert_eq!(MaterialKey::Beach.to_string(), "Beach");
    assert_eq!(MaterialKey::Debug.to_string(), "Debug");
    assert_eq!(MaterialType::Mountain.to_string(), "Mountain");
    assert_eq!(MeshType::HexMapTile([0; 6]).to_string(), "HexMapTile");
    assert_eq!(MeshType::Player.to_string(), "Player");
}

#[test]
fn scene_starts_in_game() {
    assert_eq!(SceneState::default(), SceneState::Game);
}

#[test]
fn render_group_relevance() {
    let groups = [RenderGroup::Gameplay3D];
    assert!(!are_render_groups_irrelevant(&groups, RenderGroup::Gameplay3D));
    assert!(are_render_groups_irrelevant(&groups, RenderGroup::PreviewMap2D));
    assert!(are_render_groups_irrelevant(&[], RenderGroup::PreviewMap2D));
    assert!(!is_render_group_irrelevant(RenderGroup::Gameplay3D, RenderGroup::Gameplay3D));
    assert!(is_render_group_irrelevant(RenderGroup::PreviewMap2D, RenderGroup::Gameplay3D));
}

#[test]
fn moves_that_do_not_concern_the_map() {
    let a = HexVector::new(0, 0, 0);
    let b = HexVector::new(1, -1, 0);
    assert!(is_moved_event_irrelevant(false, Some(3)));
    assert!(is_moved_event_irrelevant(true, None));
    assert!(!is_moved_event_irrelevant(true, Some(3)));
    assert_eq!(moved_sight_range(&a, &b, false, Some(3)), None);
    assert_eq!(moved_sight_range(&a, &b, true, None), None);
    assert_eq!(moved_sight_range(&a, &a, true, Some(3)), None);
}

#[test]
fn move_ranges() {
    let a = HexVector::new(0, 0, 0);
    let b = HexVector::new(2, -1, -1);
    assert_eq!(moved_sight_range(&a, &b, true, Some(5)), Some((5, 3)));
    assert_eq!(moved_sight_range(&a, &b, true, Some(1)), Some((1, 0)));
    assert!(is_out_of_sight(&HexVector::new(4, 0, -4), &a, 3));
    assert!(!is_out_of_sight(&HexVector::new(3, 0, -3), &a, 3));
}

#[test]
fn height_differences_wrap() {
    let diffs = tile_height_differences(10, &[10, 11, 9, 255, 0, 138]);
    assert_eq!(diffs, [0, 1, -1, -11, -10, -128]);
}

#[test]
fn tile_pattern_needs_all_neighbours() {
    assert!(hex_tile_pattern(5, &[Some(5), Some(6), None, Some(5), Some(5), Some(5)]).is_none());
    let tile = hex_tile_pattern(5, &[Some(7), Some(5), Some(4), Some(5), Some(6), Some(5)]).unwrap();
    assert_eq!(tile.cycle(), [-1, 0, 1, 0, 2, 0]);
    assert_eq!(tile.rotation(), 2);
}

#[test]
fn corner_heights() {
    let hd: [i8; 6] = [10, 11, 12, 13, 14, 15];
    assert_eq!(get_corner_heights(&hd, 0), [10, 15]);
    assert_eq!(get_corner_heights(&hd, 3), [13, 12]);
    assert_eq!(get_corner_heights(&hd, 7), [11, 10]);
    // The neighbour before is counted from the index taken as an `i16`.
    assert_eq!(get_corner_heights(&hd, 65538), [10, 11]);
}

#[test]
fn tile_height_levels() {
    assert_eq!(tile_height_level(200, 1), 60);
    assert_eq!(tile_height_level(200, -2), 30);
    assert_eq!(tile_height_level(20, -2), 241);
    assert_eq!(tile_height_level(255, 0), 63);
}
