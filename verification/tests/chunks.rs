use voxel_sandbox::chunk::{Chunk, ChunkType};
use voxel_sandbox::geom::pack_pos;
use voxel_sandbox::voxel::{Light, VoxelType};

fn light_pool() -> Vec<Light> {
    let mut v = Vec::new();
    for _ in 0..512 {
        v.push(Light::off());
    }
    v
}

#[test]
fn empty_chunk_has_nothing() {
    let c = Chunk::empty(0, 0, 0, true, ChunkType::Persistent);
    assert_eq!(c.voxel_data.len(), 0);
    assert_eq!(c.instance_len, 0);
    assert!(c.position_hash.is_empty());
    assert_eq!(c.position, [0, 0, 0]);
}

#[test]
fn place_fills_and_indexes() {
    let mut c = Chunk::empty(0, 0, 0, true, ChunkType::Persistent);
    let region = [-5, -5, -5];
    let region_last = [5, 5, 5];
    c.place(region, region_last, region, region_last, [200, 300, 400, 1000], false, 0);
    // the hollow box of an 11-cube region: full minus the 9x9x9 interior
    assert_eq!(c.voxel_data.len(), 11 * 11 * 11 - 9 * 9 * 9);
    // the render buffer mirrors the voxels
    assert_eq!(c.instance_data.len(), c.voxel_data.len());
    assert_eq!(c.instance_len, c.voxel_data.len());
    // the position lookup knows a face voxel and rejects an interior one
    assert!(c.position_hash.get(&pack_pos([5, 0, 0])).is_some());
    assert!(c.position_hash.get(&pack_pos([0, 0, 0])).is_none());
    let &i = c.position_hash.get(&pack_pos([5, 0, 0])).unwrap();
    assert_eq!(c.voxel_data[i].position, [5, 0, 0]);
}

#[test]
fn place_twice_is_once() {
    let region = [-5, -5, -5];
    let region_last = [5, 5, 5];
    let color = [200, 300, 400, 1000];
    let mut once = Chunk::empty(0, 0, 0, true, ChunkType::Persistent);
    once.place(region, region_last, region, region_last, color, false, 0);
    let mut twice = Chunk::empty(0, 0, 0, true, ChunkType::Persistent);
    twice.place(region, region_last, region, region_last, color, false, 0);
    twice.place(region, region_last, region, region_last, color, false, 0);
    assert_eq!(once.voxel_data.len(), twice.voxel_data.len());
    for v in once.voxel_data.iter() {
        let &i = twice.position_hash.get(&pack_pos(v.position)).unwrap();
        assert_eq!(twice.voxel_data[i], *v);
    }
}

#[test]
fn delete_clears_the_region() {
    let region = [-5, -5, -5];
    let region_last = [5, 5, 5];
    let color = [200, 300, 400, 1000];
    let mut c = Chunk::empty(0, 0, 0, true, ChunkType::Persistent);
    c.place(region, region_last, region, region_last, color, false, 0);
    assert!(c.voxel_data.len() > 0);
    c.place(region, region_last, region, region_last, color, true, 0);
    assert_eq!(c.voxel_data.len(), 0);
    assert_eq!(c.instance_len, 0);
    for x in -5..=5 {
        for y in -5..=5 {
            for z in -5..=5 {
                assert!(c.position_hash.get(&pack_pos([x, y, z])).is_none());
            }
        }
    }
}

#[test]
fn clear_spares_the_rest() {
    let color = [200, 300, 400, 1000];
    let mut c = Chunk::empty(0, 0, 0, true, ChunkType::Persistent);
    // a floor at y == -20 and one at y == 20
    c.place([-3, -20, -3], [3, -20, 3], [-3, -20, -3], [3, -20, 3], color, false, 13);
    c.place([-3, 20, -3], [3, 20, 3], [-3, 20, -3], [3, 20, 3], color, false, 13);
    assert_eq!(c.voxel_data.len(), 2 * 49);
    // deleting the lower floor's box leaves the upper floor alone
    c.place([-3, -20, -3], [3, -20, 3], [-3, -20, -3], [3, -20, 3], color, true, 13);
    assert_eq!(c.voxel_data.len(), 49);
    assert!(c.position_hash.get(&pack_pos([0, 20, 0])).is_some());
    assert!(c.position_hash.get(&pack_pos([0, -20, 0])).is_none());
    let &i = c.position_hash.get(&pack_pos([2, 20, -1])).unwrap();
    assert_eq!(c.voxel_data[i].position, [2, 20, -1]);
}

#[test]
fn draw_repaints_inside_the_box() {
    let color = [200, 300, 400, 1000];
    let mut c = Chunk::empty(0, 0, 0, true, ChunkType::CursorIndicator);
    c.place([-3, 0, -3], [3, 0, 3], [-3, 0, -3], [3, 0, 3], color, false, 13);
    let mut lights = light_pool();
    c.draw([-1, 0, -1], [1, 0, 1], [900, 800, 700, 600], 0, &mut lights);
    // painting commits the chunk
    assert!(matches!(c.current_type, ChunkType::Persistent));
    for v in c.voxel_data.iter() {
        let inside = v.position[0] >= -1 && v.position[0] <= 1 && v.position[2] >= -1
            && v.position[2] <= 1;
        if inside {
            assert_eq!(v.color, [900, 800, 700, 600]);
        } else {
            assert_eq!(v.color, [200, 300, 400, 1000]);
        }
    }
    // the plain brush claims no light
    for l in lights.iter() {
        assert_eq!(l.color, [0, 0, 0, 0]);
    }
}

#[test]
fn fire_brush_claims_lights() {
    let color = [200, 300, 400, 1000];
    let mut c = Chunk::empty(0, 0, 0, true, ChunkType::Persistent);
    c.place([0, 0, 0], [1, 0, 0], [0, 0, 0], [1, 0, 0], color, false, 13);
    assert_eq!(c.voxel_data.len(), 2);
    let mut lights = light_pool();
    c.draw([0, 0, 0], [1, 0, 0], [900, 800, 700, 1000], 1, &mut lights);
    // the fire brush halves the alpha and tags the voxels
    for v in c.voxel_data.iter() {
        assert_eq!(v.color, [900, 800, 700, 500]);
        assert_eq!(v.current_type, VoxelType::Fire);
    }
    // slots 0 and 1 are reserved; the claims land from slot 2 on
    assert_eq!(lights[0].color, [0, 0, 0, 0]);
    assert_eq!(lights[1].color, [0, 0, 0, 0]);
    assert_eq!(lights[2].color, [900, 800, 700, 500]);
    assert_eq!(lights[3].color, [900, 800, 700, 500]);
    assert_eq!(lights[4].color, [0, 0, 0, 0]);
}

#[test]
fn render_buffer_carries_positions() {
    let color = [200, 300, 400, 1000];
    let mut c = Chunk::empty(0, 0, 0, true, ChunkType::Persistent);
    c.place([7, 7, 7], [7, 7, 7], [7, 7, 7], [7, 7, 7], color, false, 13);
    assert_eq!(c.voxel_data.len(), 1);
    let raw = &c.instance_data[0];
    // a column-major translation matrix in milli-units
    assert_eq!(raw.model[12], 7000);
    assert_eq!(raw.model[13], 7000);
    assert_eq!(raw.model[14], 7000);
    assert_eq!(raw.model[15], 1000);
    assert_eq!(raw.model[0], 1000);
    assert_eq!(raw.color, [200, 300, 400, 1000]);
    assert_eq!(raw.depth_strength, 500);
    assert_eq!(raw.normal_strength, 1000);
}
