use voxel_sandbox::chunk::ChunkType;
use voxel_sandbox::geom::pack_pos;
use voxel_sandbox::manager::ChunkManager;

fn has_chunk_at(m: &ChunkManager, g: [i32; 3], t: ChunkType) -> bool {
    m.chunk_list.iter().any(|c| c.position == g && c.current_type == t)
}

fn world_has(m: &ChunkManager, p: [i32; 3], t: ChunkType) -> bool {
    m.chunk_list
        .iter()
        .any(|c| c.current_type == t && c.position_hash.get(&pack_pos(p)).is_some())
}

#[test]
fn routing_splits_at_the_cell_edge() {
    // a region crossing the cell boundary between coordinates 127 and
    // 128 reaches exactly two cells on that axis
    let mut m = ChunkManager::new();
    m.place([120, 0, 0], [130, 0, 0], [0, 0, 0, 1000], false, ChunkType::Persistent, 13);
    assert_eq!(m.chunk_list.len(), 2);
    assert!(has_chunk_at(&m, [0, 0, 0], ChunkType::Persistent));
    assert!(has_chunk_at(&m, [1, 0, 0], ChunkType::Persistent));
    // the voxels landed on both sides of the edge
    assert!(world_has(&m, [127, 0, 0], ChunkType::Persistent));
    assert!(world_has(&m, [128, 0, 0], ChunkType::Persistent));
}

#[test]
fn boundary_coordinates_pick_their_cells() {
    let mut m = ChunkManager::new();
    m.place([127, 0, 0], [127, 0, 0], [0, 0, 0, 1000], false, ChunkType::Persistent, 13);
    assert_eq!(m.chunk_list.len(), 1);
    assert!(has_chunk_at(&m, [0, 0, 0], ChunkType::Persistent));
    let mut m = ChunkManager::new();
    m.place([128, 0, 0], [128, 0, 0], [0, 0, 0, 1000], false, ChunkType::Persistent, 13);
    assert_eq!(m.chunk_list.len(), 1);
    assert!(has_chunk_at(&m, [1, 0, 0], ChunkType::Persistent));
}

#[test]
fn a_span_of_cells_is_covered() {
    // 600 units on one axis: three cells
    let mut m = ChunkManager::new();
    m.place([-300, 0, 0], [300, 0, 0], [0, 0, 0, 1000], false, ChunkType::Persistent, 13);
    assert_eq!(m.chunk_list.len(), 3);
    for g in -1..=1 {
        assert!(has_chunk_at(&m, [g, 0, 0], ChunkType::Persistent));
    }
}

#[test]
fn chunks_are_reused_not_duplicated() {
    let mut m = ChunkManager::new();
    m.place([0, 0, 0], [3, 0, 0], [0, 0, 0, 1000], false, ChunkType::Persistent, 13);
    m.place([0, 2, 0], [3, 2, 0], [0, 0, 0, 1000], false, ChunkType::Persistent, 13);
    assert_eq!(m.chunk_list.len(), 1);
    assert!(world_has(&m, [0, 0, 0], ChunkType::Persistent));
    assert!(world_has(&m, [0, 2, 0], ChunkType::Persistent));
}

#[test]
fn roles_do_not_collide() {
    let mut m = ChunkManager::new();
    m.place([0, 0, 0], [3, 0, 0], [0, 0, 0, 1000], false, ChunkType::Persistent, 13);
    m.place([0, 0, 0], [3, 0, 0], [0, 0, 0, 1000], false, ChunkType::CursorIndicator, 13);
    // one chunk per role in the same cell
    assert_eq!(m.chunk_list.len(), 2);
    // deleting under one role leaves the other alone
    m.place([0, 0, 0], [3, 0, 0], [0, 0, 0, 1000], true, ChunkType::CursorIndicator, 13);
    assert!(world_has(&m, [0, 0, 0], ChunkType::Persistent));
    assert!(!world_has(&m, [0, 0, 0], ChunkType::CursorIndicator));
}

#[test]
fn delete_spans_cells() {
    let mut m = ChunkManager::new();
    m.place([120, 0, 0], [130, 0, 0], [0, 0, 0, 1000], false, ChunkType::Persistent, 13);
    m.place([120, 0, 0], [130, 0, 0], [0, 0, 0, 1000], true, ChunkType::Persistent, 13);
    for x in 120..=130 {
        assert!(!world_has(&m, [x, 0, 0], ChunkType::Persistent));
    }
}

#[test]
fn manager_draw_paints_persistent_only() {
    let mut m = ChunkManager::new();
    m.place([0, 0, 0], [3, 0, 0], [100, 100, 100, 1000], false, ChunkType::Persistent, 13);
    m.place([0, 1, 0], [3, 1, 0], [100, 100, 100, 1000], false, ChunkType::CursorIndicator, 13);
    m.draw([-5, -5, -5], [5, 5, 5], [900, 800, 700, 600], 0);
    for c in m.chunk_list.iter() {
        for v in c.voxel_data.iter() {
            match c.current_type {
                ChunkType::Persistent => assert_eq!(v.color, [900, 800, 700, 600]),
                _ => assert_eq!(v.color, [100, 100, 100, 1000]),
            }
        }
    }
}

#[test]
fn manager_draw_creates_no_chunks() {
    let mut m = ChunkManager::new();
    m.draw([-5, -5, -5], [5, 5, 5], [900, 800, 700, 600], 0);
    assert_eq!(m.chunk_list.len(), 0);
}

#[test]
fn big_scenario_checker_box() {
    // the worked example: an 11-cube region under the checkerboard box
    let mut m = ChunkManager::new();
    m.place([-5, -5, -5], [5, 5, 5], [200, 300, 400, 1000], false, ChunkType::Persistent, 0);
    assert_eq!(m.chunk_list.len(), 1);
    let c = &m.chunk_list[0];
    assert_eq!(c.voxel_data.len(), 11 * 11 * 11 - 9 * 9 * 9);
    for x in -5..=5 {
        for y in -5..=5 {
            for z in -5..=5 {
                let boundary = x == -5 || x == 5 || y == -5 || y == 5 || z == -5 || z == 5;
                assert_eq!(world_has(&m, [x, y, z], ChunkType::Persistent), boundary);
            }
        }
    }
    // the alternating tiles: parity of the 64-unit floor tiles
    let at = |p: [i32; 3]| {
        let c = &m.chunk_list[0];
        let &i = c.position_hash.get(&pack_pos(p)).unwrap();
        c.voxel_data[i]
    };
    assert_eq!(at([0, -5, 0]).color, [1000, 1000, 1000, 1000]);
    assert_eq!(at([-1, -5, 0]).color, [200, 300, 400, 1000]);
    assert_eq!(at([-1, -5, -1]).color, [1000, 1000, 1000, 1000]);
}
