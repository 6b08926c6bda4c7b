use wanderer_tales::hex_vector::{hex_direction, HexVector};
use wanderer_tales::hex_walk::HexVectorSpiral;
use wanderer_tales::render_map::RenderMap;
use wanderer_tales::source_table::HexToMapSourceEntity;

#[test]
fn table_reads_back_what_was_written() {
    let mut table = HexToMapSourceEntity::default();
    let a = HexVector::new(1, -1, 0);
    let b = HexVector::new(0, 2, -2);
    assert_eq!(table.get(&a), None);
    assert!(!table.contains(&a));

    assert_eq!(table.insert(&a, 11), None);
    assert_eq!(table.insert(&b, 22), None);
    assert_eq!(table.get(&a), Some(11));
    assert_eq!(table.get(&b), Some(22));
    assert!(table.contains(&b));

    assert_eq!(table.insert(&a, 33), Some(11));
    assert_eq!(table.get(&a), Some(33));

    assert_eq!(table.remove(&a), Some(33));
    assert_eq!(table.get(&a), None);
    assert_eq!(table.remove(&a), None);
    assert_eq!(table.get(&b), Some(22));
}

#[test]
fn spawn_walk_skips_known_cells() {
    let origin = HexVector::new(0, 0, 0);
    let mut table = HexToMapSourceEntity::new();
    table.insert(&origin, 7);
    table.insert(&hex_direction(5), 8);

    let mut hexes = HexVectorSpiral::new(&origin, 0, 1);
    // The origin and the first ring cell are known: the walk stops at the second.
    assert_eq!(table.next_missing_cell(&mut hexes), Some(hex_direction(0)));

    let mut spawned = 1;
    let mut next_entity: u64 = 100;
    table.insert(&hex_direction(0), next_entity);
    while let Some(hex) = table.next_missing_cell(&mut hexes) {
        next_entity += 1;
        assert_eq!(table.insert(&hex, next_entity), None);
        spawned += 1;
    }
    assert_eq!(spawned, 5);

    let mut again = HexVectorSpiral::new(&origin, 0, 1);
    assert_eq!(table.next_missing_cell(&mut again), None);
}

#[test]
fn leaving_cells_drops_those_out_of_sight() {
    let origin = HexVector::new(0, 0, 0);
    let mut table = HexToMapSourceEntity::new();
    let mut entity: u64 = 0;
    let mut hexes = HexVectorSpiral::new(&origin, 0, 2);
    while let Some(hex) = table.next_missing_cell(&mut hexes) {
        entity += 1;
        table.insert(&hex, entity);
    }

    // Move one cell towards direction 2 with a sight of 2: walk ring 2 of the old position.
    let new_origin = hex_direction(2);
    let ring = HexVectorSpiral::new(&origin, 2, 1);
    let removed = table.remove_out_of_sight(ring, &new_origin, 2);

    // Cells of ring 2 that are three steps from the new position are dropped.
    assert_eq!(removed.len(), 5);
    for hex_entity in &removed {
        assert!(*hex_entity >= 8);
    }
    assert_eq!(table.get(&origin), Some(1));
    let far = HexVector::new(-2, 2, 0);
    assert_eq!(table.get(&far), None);
    let near = HexVector::new(2, -2, 0);
    assert!(table.contains(&near));
}

#[test]
fn sibling_entities_in_direction_order() {
    let centre = HexVector::new(3, 2, -5);
    let mut table = HexToMapSourceEntity::new();
    table.insert(&centre.get_sibling(0), 10);
    table.insert(&centre.get_sibling(3), 13);
    table.insert(&centre, 1);
    assert_eq!(
        table.sibling_entities(&centre),
        [Some(10), None, None, Some(13), None, None]
    );
}

#[test]
fn render_links_read_back() {
    let mut map = RenderMap::default();
    assert_eq!(map.count(), 0);
    assert_eq!(map.get_render_item(4), None);
    assert_eq!(map.link_source_item(4, 40), None);
    assert_eq!(map.link_source_item(5, 50), None);
    assert_eq!(map.count(), 2);
    assert_eq!(map.get_render_item(4), Some(40));
    assert_eq!(map.link_source_item(4, 41), Some(40));
    assert_eq!(map.count(), 2);
    assert_eq!(map.remove_render_item(4), Some(41));
    assert_eq!(map.remove_render_item(4), None);
    assert_eq!(map.get_render_item(5), Some(50));
    assert_eq!(map.count(), 1);
}

#[test]
fn missing_cells_then_insert_fills_the_walk() {
    let origin = HexVector::new(0, 0, 0);
    let mut table = HexToMapSourceEntity::new();
    table.insert(&origin, 7);
    table.insert(&hex_direction(1), 8);

    let cells = table.missing_cells(HexVectorSpiral::new(&origin, 0, 1));
    assert_eq!(
        cells,
        vec![
            hex_direction(5),
            hex_direction(0),
            hex_direction(2),
            hex_direction(3),
            hex_direction(4)
        ]
    );
    let entities: Vec<u64> = (100..105).collect();
    table.insert_cells(&cells, &entities);
    assert_eq!(table.get(&origin), Some(7));
    assert_eq!(table.get(&hex_direction(1)), Some(8));
    assert_eq!(table.get(&hex_direction(5)), Some(100));
    assert_eq!(table.get(&hex_direction(4)), Some(104));
    assert!(table.missing_cells(HexVectorSpiral::new(&origin, 0, 1)).is_empty());
}

#[test]
fn render_link_counts() {
    let mut map = RenderMap::new();
    map.link_source_item(1, 10);
    map.link_source_item(1, 11);
    assert_eq!(map.count(), 1);
    map.remove_render_item(2);
    assert_eq!(map.count(), 1);
    map.remove_render_item(1);
    assert_eq!(map.count(), 0);
}
