use voxel_world_rust::config::{ConfigError, WorldConfig};
use voxel_world_rust::grid::MeshError;
use voxel_world_rust::lattice::{ChunkCoordinate, Extent3, Point3};
use voxel_world_rust::reconciler::MeshHandle;
use voxel_world_rust::terrain::{CaveField, GenerateError};
use voxel_world_rust::volume::ChunkState;
use voxel_world_rust::voxel::{PaletteError, Sd16, Voxel, VoxelId, VoxelIdInfo, VoxelMaterial};
use voxel_world_rust::world::VoxelWorld;

fn config() -> WorldConfig {
    WorldConfig { chunk_edge: 8, view_distance: 1, sea_level: 4, band_thickness: 3, compression_level: 10 }
}

fn palette() -> Vec<VoxelIdInfo> {
    vec![
        VoxelIdInfo { is_empty: true, material: VoxelMaterial::null() },
        VoxelIdInfo { is_empty: false, material: VoxelMaterial(0) },
        VoxelIdInfo { is_empty: false, material: VoxelMaterial(1) },
        VoxelIdInfo { is_empty: false, material: VoxelMaterial(2) },
        VoxelIdInfo { is_empty: false, material: VoxelMaterial(3) },
    ]
}

fn world() -> VoxelWorld {
    let mut w = VoxelWorld::new(config()).unwrap();
    w.register_palette(palette()).unwrap();
    w
}

fn materials(w: &VoxelWorld, x: i32, y: i32, z: i32) -> Option<Vec<u8>> {
    w.published_materials(ChunkCoordinate::new(x, y, z)).map(|ms| ms.iter().map(|m| m.0).collect())
}

#[test]
fn a_world_needs_valid_settings() {
    assert!(VoxelWorld::new(WorldConfig::reference()).is_ok());
    assert_eq!(VoxelWorld::new(WorldConfig { chunk_edge: 33, ..config() }).err(), Some(ConfigError::ChunkEdge));
    assert_eq!(VoxelWorld::new(WorldConfig { view_distance: 0, ..config() }).err(), Some(ConfigError::ViewDistance));
    assert_eq!(VoxelWorld::new(WorldConfig { band_thickness: -2, ..config() }).err(), Some(ConfigError::BandThickness));
    assert_eq!(VoxelWorld::new(WorldConfig { compression_level: 99, ..config() }).err(), Some(ConfigError::CompressionLevel));
}

#[test]
fn the_palette_is_registered_once() {
    let mut w = VoxelWorld::new(config()).unwrap();
    assert_eq!(w.register_palette(Vec::new()), Err(PaletteError::NoEntries));
    assert_eq!(w.register_palette(palette()), Ok(()));
    assert_eq!(w.register_palette(palette()), Err(PaletteError::AlreadyRegistered));
}

#[test]
fn generation_needs_a_palette_and_happens_once() {
    let mut w = VoxelWorld::new(config()).unwrap();
    let c = ChunkCoordinate::new(0, 0, 0);
    let offsets = vec![0; 64];
    assert_eq!(w.generate(c, &offsets, None), Err(GenerateError::PaletteMismatch));
    let short = vec![VoxelIdInfo { is_empty: true, material: VoxelMaterial::null() }, VoxelIdInfo { is_empty: false, material: VoxelMaterial(0) }];
    w.register_palette(short).unwrap();
    assert_eq!(w.generate(c, &offsets, None), Err(GenerateError::PaletteMismatch));

    let mut w = world();
    assert_eq!(w.generate(c, &vec![0; 63], None), Err(GenerateError::SampleCount));
    assert_eq!(w.generate(ChunkCoordinate::new(0, 1, 0), &offsets, None), Err(GenerateError::OutOfRange));
    assert_eq!(w.generate(ChunkCoordinate::new(i32::MAX, 0, 0), &offsets, None), Err(GenerateError::OutOfRange));
    assert_eq!(w.generate(ChunkCoordinate::new(0, 0, i32::MIN), &offsets, None), Err(GenerateError::OutOfRange));
    assert!(!w.is_generated(c));
    assert_eq!(w.read(Point3::new(0, 0, 0)), Voxel::default());
    assert_eq!(w.generate(c, &offsets, None), Ok(()));
    assert!(w.is_generated(c));
    assert_eq!(w.read(Point3::new(0, 4, 0)), Voxel::new(VoxelId(2), Sd16::neg_one()));
    assert_eq!(w.read(Point3::new(0, 5, 0)), Voxel::new(VoxelId(0), Sd16::one()));
    // A second request is refused and changes nothing.
    assert_eq!(w.generate(c, &vec![3; 64], None), Err(GenerateError::AlreadyGenerated));
    assert_eq!(w.read(Point3::new(0, 5, 0)), Voxel::new(VoxelId(0), Sd16::one()));
}

#[test]
fn streaming_covers_the_view() {
    let mut w = world();
    assert_eq!(w.pending_chunks(), Vec::new());
    assert!(w.set_viewpoint(Point3::new(3, 90, 3)));
    let pending = w.pending_chunks();
    assert_eq!(pending.len(), 9);
    for c in &pending {
        assert_eq!(w.generate(*c, &vec![0; 64], None), Ok(()));
    }
    assert_eq!(w.pending_chunks(), Vec::new());
    for z in -1..=1 {
        for x in -1..=1 {
            assert!(w.is_generated(ChunkCoordinate::new(x, 0, z)));
            assert_eq!(w.read(Point3::new(8 * x + 1, 4, 8 * z + 1)), Voxel::new(VoxelId(2), Sd16::neg_one()));
        }
    }
    assert!(!w.is_generated(ChunkCoordinate::new(2, 0, 0)));
    // Moving the observer by one chunk makes one more row pending.
    assert!(w.set_viewpoint(Point3::new(11, 0, 3)));
    let more = w.pending_chunks();
    assert_eq!(more, vec![ChunkCoordinate::new(2, 0, -1), ChunkCoordinate::new(2, 0, 0), ChunkCoordinate::new(2, 0, 1)]);
    w.clear_viewpoint();
    assert_eq!(w.pending_chunks(), Vec::new());
}

#[test]
fn a_viewpoint_whose_region_leaves_the_lattice_is_refused() {
    let mut w = world();
    assert!(w.set_viewpoint(Point3::new(100, 0, 100)));
    assert!(!w.set_viewpoint(Point3::new(i32::MAX, 0, 0)));
    assert!(!w.set_viewpoint(Point3::new(0, 0, i32::MIN + 15)));
    assert!(w.set_viewpoint(Point3::new(i32::MIN + 16, i32::MAX, i32::MAX - 16)));
}

#[test]
fn writes_mark_the_chunk_and_its_face_neighbors() {
    let mut w = world();
    // A voxel on the face of chunk (1, 0, 0) towards chunk (0, 0, 0).
    w.write(Point3::new(8, 3, 3), Voxel::new(VoxelId(1), Sd16::neg_one()));
    assert!(w.is_dirty(ChunkCoordinate::new(1, 0, 0)));
    assert!(w.is_dirty(ChunkCoordinate::new(0, 0, 0)));
    assert!(w.is_dirty(ChunkCoordinate::new(2, 0, 0)));
    assert!(!w.is_dirty(ChunkCoordinate::new(0, 1, 0)));
    assert_eq!(w.chunk_state(ChunkCoordinate::new(1, 0, 0)), ChunkState::Hot);
    assert_eq!(w.chunk_state(ChunkCoordinate::new(0, 0, 0)), ChunkState::Absent);
}

#[test]
fn polling_publishes_one_surface_for_each_material_that_shows() {
    let mut w = world();
    // Three voxels of two materials in chunk (0, 0, 0).
    w.write(Point3::new(1, 1, 1), Voxel::new(VoxelId(1), Sd16::neg_one()));
    w.write(Point3::new(2, 1, 1), Voxel::new(VoxelId(1), Sd16::neg_one()));
    w.write(Point3::new(5, 5, 5), Voxel::new(VoxelId(4), Sd16::neg_one()));
    let delta = w.poll_geometry_deltas().unwrap();
    assert_eq!(delta.despawned, Vec::new());
    // The chunk and its six face neighbours were dirty; each has a mesh in the batch.
    assert_eq!(delta.spawned.len(), 7);
    let own = delta.spawned.iter().find(|m| m.coord == ChunkCoordinate::new(0, 0, 0)).unwrap();
    assert_eq!(own.surfaces.len(), 2);
    assert_eq!(own.surfaces[0].material, VoxelMaterial(0));
    assert_eq!(own.surfaces[0].quads.len(), 6);
    assert_eq!(own.surfaces[0].buffer.indices.len(), 36);
    assert_eq!(own.surfaces[1].material, VoxelMaterial(3));
    assert_eq!(own.surfaces[1].quads.len(), 6);
    for m in &delta.spawned {
        if m.coord != ChunkCoordinate::new(0, 0, 0) {
            assert_eq!(m.surfaces.len(), 0);
        }
    }
    assert_eq!(materials(&w, 0, 0, 0), Some(vec![0, 3]));
    assert_eq!(materials(&w, 1, 0, 0), None);
    assert!(!w.is_dirty(ChunkCoordinate::new(0, 0, 0)));
    // The meshed chunk is compressed and still reads the same.
    assert_eq!(w.chunk_state(ChunkCoordinate::new(0, 0, 0)), ChunkState::Cold);
    assert_eq!(w.read(Point3::new(5, 5, 5)), Voxel::new(VoxelId(4), Sd16::neg_one()));
    // Nothing dirty: an empty delta.
    let idle = w.poll_geometry_deltas().unwrap();
    assert_eq!(idle.despawned, Vec::new());
    assert_eq!(idle.spawned.len(), 0);
}

#[test]
fn an_edit_replaces_the_published_surfaces() {
    let mut w = world();
    let extent = Extent3::from_min_and_max(Point3::new(0, 0, 0), Point3::new(3, 0, 3));
    w.edit(&extent, &|_p: Point3, _v: Voxel| Voxel::new(VoxelId(2), Sd16::neg_one()));
    w.poll_geometry_deltas().unwrap();
    assert_eq!(materials(&w, 0, 0, 0), Some(vec![1]));
    // The slab changes material in one corner.
    w.write(Point3::new(0, 0, 0), Voxel::new(VoxelId(3), Sd16::neg_one()));
    assert_eq!(w.chunk_state(ChunkCoordinate::new(0, 0, 0)), ChunkState::Hot);
    let delta = w.poll_geometry_deltas().unwrap();
    assert_eq!(delta.despawned, vec![MeshHandle { chunk: ChunkCoordinate::new(0, 0, 0), material: VoxelMaterial(1) }]);
    assert_eq!(materials(&w, 0, 0, 0), Some(vec![1, 2]));
    // The slab is removed.
    w.edit(&extent, &|_p: Point3, _v: Voxel| Voxel::default());
    let delta = w.poll_geometry_deltas().unwrap();
    assert_eq!(delta.despawned.len(), 2);
    assert_eq!(materials(&w, 0, 0, 0), None);
}

#[test]
fn chunks_that_leave_the_view_are_taken_down_and_come_back() {
    let mut w = world();
    assert!(w.set_viewpoint(Point3::new(4, 0, 4)));
    w.write(Point3::new(4, 4, 4), Voxel::new(VoxelId(1), Sd16::neg_one()));
    w.poll_geometry_deltas().unwrap();
    assert_eq!(materials(&w, 0, 0, 0), Some(vec![0]));
    // Far away the chunk is no longer resident.
    assert!(w.set_viewpoint(Point3::new(4000, 0, 4)));
    let delta = w.poll_geometry_deltas().unwrap();
    assert_eq!(delta.despawned, vec![MeshHandle { chunk: ChunkCoordinate::new(0, 0, 0), material: VoxelMaterial(0) }]);
    assert_eq!(delta.spawned.len(), 0);
    assert_eq!(materials(&w, 0, 0, 0), None);
    assert!(w.is_dirty(ChunkCoordinate::new(0, 0, 0)));
    // Back again it is extracted anew.
    assert!(w.set_viewpoint(Point3::new(4, 0, 4)));
    let delta = w.poll_geometry_deltas().unwrap();
    assert!(delta.spawned.iter().any(|m| m.coord == ChunkCoordinate::new(0, 0, 0) && m.surfaces.len() == 1));
    assert_eq!(materials(&w, 0, 0, 0), Some(vec![0]));
}

#[test]
fn polling_fails_without_a_palette_or_on_an_unknown_type() {
    let mut w = VoxelWorld::new(config()).unwrap();
    w.write(Point3::new(1, 1, 1), Voxel::new(VoxelId(1), Sd16::neg_one()));
    assert_eq!(w.poll_geometry_deltas().err(), Some(MeshError::NoPalette));
    assert!(w.is_dirty(ChunkCoordinate::new(0, 0, 0)));

    let mut w = world();
    w.write(Point3::new(1, 1, 1), Voxel::new(VoxelId(9), Sd16::neg_one()));
    assert_eq!(w.poll_geometry_deltas().err(), Some(MeshError::UnknownVoxelType(VoxelId(9))));
    assert!(w.is_dirty(ChunkCoordinate::new(0, 0, 0)));
    assert!(w.is_dirty(ChunkCoordinate::new(0, 0, 1)));
    assert_eq!(materials(&w, 0, 0, 0), None);
    // Once the voxel is repaired the poll succeeds.
    w.write(Point3::new(1, 1, 1), Voxel::new(VoxelId(4), Sd16::neg_one()));
    assert!(w.poll_geometry_deltas().is_ok());
    assert_eq!(materials(&w, 0, 0, 0), Some(vec![3]));
}

#[test]
fn compression_keeps_voxels() {
    let mut w = world();
    let v = Voxel::new(VoxelId(2), Sd16(-77));
    w.write(Point3::new(-1, -1, -1), v);
    assert!(w.force_compress(ChunkCoordinate::new(-1, -1, -1)));
    assert!(!w.force_compress(ChunkCoordinate::new(-1, -1, -1)));
    assert_eq!(w.chunk_state(ChunkCoordinate::new(-1, -1, -1)), ChunkState::Cold);
    assert_eq!(w.read(Point3::new(-1, -1, -1)), v);
}

#[test]
fn an_extraction_pass_in_steps() {
    let mut w = VoxelWorld::new(config()).unwrap();
    assert_eq!(w.begin_extraction().err(), Some(MeshError::NoPalette));
    assert_eq!(w.extract(ChunkCoordinate::new(0, 0, 0)).err(), Some(MeshError::NoPalette));

    let mut w = world();
    assert!(w.set_viewpoint(Point3::new(4, 0, 4)));
    w.write(Point3::new(4, 4, 4), Voxel::new(VoxelId(1), Sd16::neg_one()));
    // Far from the observer: dirty, but not resident.
    w.write(Point3::new(400, 4, 4), Voxel::new(VoxelId(1), Sd16::neg_one()));
    let batch = w.begin_extraction().unwrap();
    assert_eq!(batch.len(), 7);
    assert!(batch.contains(&ChunkCoordinate::new(0, 0, 0)));
    assert!(!w.is_dirty(ChunkCoordinate::new(0, 0, 0)));
    assert!(w.is_dirty(ChunkCoordinate::new(50, 0, 0)));
    // Giving up makes the batch dirty again.
    w.abort_extraction(&batch);
    assert!(w.is_dirty(ChunkCoordinate::new(0, 0, 0)));
    let batch = w.begin_extraction().unwrap();
    assert_eq!(batch.len(), 7);
    let fresh: Vec<_> = batch.iter().map(|c| w.extract(*c).unwrap()).collect();
    assert_eq!(w.chunk_state(ChunkCoordinate::new(0, 0, 0)), ChunkState::Hot);
    let delta = w.finish_extraction(fresh);
    assert_eq!(delta.despawned, Vec::new());
    assert_eq!(delta.spawned.len(), 7);
    assert_eq!(materials(&w, 0, 0, 0), Some(vec![0]));
    assert_eq!(w.chunk_state(ChunkCoordinate::new(0, 0, 0)), ChunkState::Cold);
    assert!(w.is_dirty(ChunkCoordinate::new(50, 0, 0)));
    assert_eq!(materials(&w, 50, 0, 0), None);
    // The padded copy of a chunk shows its voxels and those around it.
    let padded = w.padded_chunk(ChunkCoordinate::new(0, 0, 0));
    assert_eq!(padded.chunk_edge(), 8);
    assert_eq!(padded.chunk(), ChunkCoordinate::new(0, 0, 0));
    assert_eq!(padded.get(4, 4, 4), Voxel::new(VoxelId(1), Sd16::neg_one()));
    assert_eq!(padded.get(-1, 8, 0), Voxel::default());
    assert_eq!(w.settings(), config());
}

#[test]
fn generation_with_a_cave_field() {
    let mut w = world();
    let offsets = vec![0; 64];
    // Heights 4: five layers of 64 samples; the lowest layer is carved out.
    let mut samples = vec![0; 5 * 64];
    for s in samples.iter_mut().take(64) {
        *s = -100;
    }
    let caves = CaveField { samples, threshold: 99 };
    let short = CaveField { samples: vec![0; 64], threshold: 99 };
    let c = ChunkCoordinate::new(0, 0, 0);
    assert_eq!(w.generate(c, &offsets, Some(&short)), Err(GenerateError::SampleCount));
    assert!(!w.is_generated(c));
    assert_eq!(w.generate(c, &offsets, Some(&caves)), Ok(()));
    assert_eq!(w.read(Point3::new(3, 0, 3)), Voxel::new(VoxelId(0), Sd16::one()));
    assert_eq!(w.read(Point3::new(3, 1, 3)), Voxel::new(VoxelId(1), Sd16::neg_one()));
    assert_eq!(w.read(Point3::new(3, 4, 3)), Voxel::new(VoxelId(2), Sd16::neg_one()));
}

#[test]
fn a_scheduler_tick_generates_what_is_pending() {
    let mut w = world();
    // Without an observer a tick does nothing.
    assert_eq!(w.stream(&|_c: ChunkCoordinate| vec![0; 64]), Ok(0));
    assert!(!w.is_generated(ChunkCoordinate::new(0, 0, 0)));
    assert!(w.set_viewpoint(Point3::new(3, 0, 3)));
    // The offset of a column depends on its chunk.
    let sampler = |c: ChunkCoordinate| vec![c.x + 2 * c.z; 64];
    assert_eq!(w.stream(&sampler), Ok(9));
    assert_eq!(w.pending_chunks(), Vec::new());
    for z in -1..=1 {
        for x in -1..=1 {
            assert!(w.is_generated(ChunkCoordinate::new(x, 0, z)));
            let height = 4 + x + 2 * z;
            let p = Point3::new(8 * x + 5, height, 8 * z + 2);
            assert_eq!(w.read(p), Voxel::new(VoxelId(2), Sd16::neg_one()));
            assert_eq!(w.read(Point3::new(p.x, height + 1, p.z)).voxel_id, VoxelId(0));
        }
    }
    // A second tick at the same place has nothing to do.
    assert_eq!(w.stream(&sampler), Ok(0));
    // A sampler that gives too few offsets stops the tick.
    assert!(w.set_viewpoint(Point3::new(11, 0, 3)));
    assert_eq!(w.stream(&|_c: ChunkCoordinate| vec![0; 3]), Err(GenerateError::SampleCount));
    assert!(!w.is_generated(ChunkCoordinate::new(2, 0, 0)));
    assert_eq!(w.stream(&sampler), Ok(3));
    assert!(w.is_generated(ChunkCoordinate::new(2, 0, 1)));
}

#[test]
fn a_scheduler_tick_with_caves() {
    let mut w = world();
    let sampler = |_c: ChunkCoordinate| vec![0; 64];
    // Heights 4: five layers of 64 samples; the column of chunk (0, 0, 0) loses its lowest layer.
    let carver = |c: ChunkCoordinate, offsets: &Vec<i32>| {
        if c == ChunkCoordinate::new(0, 0, 0) {
            let mut samples = vec![0; 5 * offsets.len()];
            for s in samples.iter_mut().take(64) {
                *s = 7;
            }
            Some(CaveField { samples, threshold: 6 })
        } else {
            None
        }
    };
    // Without an observer a tick does nothing and is no error.
    assert_eq!(w.stream_carved(&sampler, &carver), Ok(0));
    assert!(w.set_viewpoint(Point3::new(3, 0, 3)));
    assert_eq!(w.stream_carved(&sampler, &carver), Ok(9));
    assert_eq!(w.pending_chunks(), Vec::new());
    assert_eq!(w.read(Point3::new(3, 0, 3)), Voxel::new(VoxelId(0), Sd16::one()));
    assert_eq!(w.read(Point3::new(3, 1, 3)), Voxel::new(VoxelId(1), Sd16::neg_one()));
    assert_eq!(w.read(Point3::new(11, 0, 3)), Voxel::new(VoxelId(3), Sd16::neg_one()));
    // A cave field of the wrong size stops the tick at its column.
    assert!(w.set_viewpoint(Point3::new(11, 0, 3)));
    let short = |_c: ChunkCoordinate, _offsets: &Vec<i32>| Some(CaveField { samples: vec![0; 3], threshold: 6 });
    assert_eq!(w.stream_carved(&sampler, &short), Err(GenerateError::SampleCount));
    assert!(!w.is_generated(ChunkCoordinate::new(2, 0, -1)));
    assert_eq!(w.stream_carved(&sampler, &carver), Ok(3));
}
