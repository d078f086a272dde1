use chunkworld::cache::{LoadedChunks, SpawnError};
use chunkworld::coords::{chunk_cells, chunk_origin, div_floor, world_to_chunk, ChunkCoord};
use chunkworld::interest::{desired_chunks, DesiredChunks};
use chunkworld::terrain::{classify, is_obstacle, Terrain};
use noise::{NoiseFn, Perlin};

fn coord(x: i32, y: i32) -> ChunkCoord {
    ChunkCoord { x, y }
}

fn sorted(mut v: Vec<ChunkCoord>) -> Vec<(i32, i32)> {
    v.sort_by_key(|c| (c.x, c.y));
    v.into_iter().map(|c| (c.x, c.y)).collect()
}

fn square(cx: i32, cy: i32, r: i32) -> Vec<(i32, i32)> {
    let mut out = Vec::new();
    for x in cx - r..=cx + r {
        for y in cy - r..=cy + r {
            out.push((x, y));
        }
    }
    out
}

/// Spawns every chunk of the plan with the same sample in every cell.
fn spawn_all(cache: &mut LoadedChunks, plan: &[ChunkCoord], sample: i32) {
    let n = cache.chunk_size() as usize;
    for c in plan {
        let samples = vec![sample; n * n];
        assert_eq!(cache.spawn_chunk(*c, &samples), Ok(()));
    }
}

#[test]
fn floor_division_rounds_down() {
    assert_eq!(div_floor(7, 4), 1);
    assert_eq!(div_floor(8, 4), 2);
    assert_eq!(div_floor(0, 4), 0);
    assert_eq!(div_floor(-1, 4), -1);
    assert_eq!(div_floor(-4, 4), -1);
    assert_eq!(div_floor(-5, 4), -2);
    assert_eq!(div_floor(i32::MIN, 1), i32::MIN);
}

#[test]
fn world_cells_map_to_chunks() {
    assert_eq!(world_to_chunk(0, 0, 8), coord(0, 0));
    assert_eq!(world_to_chunk(7, 8, 8), coord(0, 1));
    assert_eq!(world_to_chunk(-1, -8, 8), coord(-1, -1));
    assert_eq!(world_to_chunk(-9, 15, 8), coord(-2, 1));
}

#[test]
fn chunk_origin_and_cells() {
    assert_eq!(chunk_origin(coord(-2, 3), 4), (-8, 12));
    let cells = chunk_cells(coord(-1, 2), 2);
    assert_eq!(cells, vec![(-2, 4), (-2, 5), (-1, 4), (-1, 5)]);
}

#[test]
fn desired_set_around_origin() {
    let d = desired_chunks(0, 0, 4, 1);
    assert_eq!(d.chunks.len(), 9);
    assert_eq!(sorted(d.chunks), square(0, 0, 1));
}

#[test]
fn desired_set_size_and_center() {
    for (px, py, n, r) in [(0, 0, 4, 0), (-1, -1, 4, 2), (95, -96, 48, 3), (1000, 7, 8, 1)] {
        let d = desired_chunks(px, py, n, r);
        let side = (2 * r + 1) as usize;
        assert_eq!(d.chunks.len(), side * side);
        let c = world_to_chunk(px, py, n);
        assert_eq!(sorted(d.chunks), square(c.x, c.y, r));
    }
    let d = desired_chunks(-1, -1, 4, 2);
    assert!(d.chunks.contains(&coord(-1, -1)));
    assert!(d.chunks.contains(&coord(-3, 1)));
    assert!(!d.chunks.contains(&coord(2, 0)));
}

#[test]
fn one_tick_loads_the_desired_set() {
    let mut cache = LoadedChunks::new(4, 50, 100);
    let desired = desired_chunks(0, 0, 4, 1);
    let plan = cache.reconcile(&desired);
    assert!(plan.evicted.is_empty());
    assert_eq!(sorted(plan.to_spawn.clone()), square(0, 0, 1));
    spawn_all(&mut cache, &plan.to_spawn, 100);
    assert_eq!(cache.loaded_count(), 9);
    assert_eq!(sorted(cache.loaded_coords()), sorted(desired.chunks));
}

#[test]
fn second_reconcile_is_quiet() {
    let mut cache = LoadedChunks::new(4, 50, 100);
    let desired = desired_chunks(10, -3, 4, 2);
    let plan = cache.reconcile(&desired);
    spawn_all(&mut cache, &plan.to_spawn, 0);
    let again = cache.reconcile(&desired);
    assert!(again.evicted.is_empty());
    assert!(again.to_spawn.is_empty());
    assert_eq!(cache.loaded_count(), 25);
}

#[test]
fn loaded_chunk_is_not_spawned_again() {
    let mut cache = LoadedChunks::new(4, 50, 100);
    let desired = desired_chunks(0, 0, 4, 1);
    let plan = cache.reconcile(&desired);
    spawn_all(&mut cache, &plan.to_spawn, -300);
    let before = cache.content(coord(0, 0)).unwrap().clone();
    assert_eq!(cache.spawn_chunk(coord(0, 0), &vec![500; 16]), Err(SpawnError::AlreadyLoaded));
    assert_eq!(cache.content(coord(0, 0)).unwrap(), &before);
    // moving within the same chunk keeps every chunk, untouched
    let plan = cache.reconcile(&desired_chunks(3, 2, 4, 1));
    assert!(plan.evicted.is_empty() && plan.to_spawn.is_empty());
    assert_eq!(cache.content(coord(0, 0)).unwrap(), &before);
}

#[test]
fn evicted_chunks_leave_no_content() {
    let mut cache = LoadedChunks::new(4, 50, 100);
    let plan = cache.reconcile(&desired_chunks(0, 0, 4, 1));
    spawn_all(&mut cache, &plan.to_spawn, 0);
    assert_eq!(cache.items_referencing(coord(-1, -1)), 16);
    let kept = cache.content(coord(1, 0)).unwrap().clone();
    // the viewpoint moves two chunks right: column -1 and 0 leave
    let plan = cache.reconcile(&desired_chunks(8, 0, 4, 1));
    assert_eq!(
        sorted(plan.evicted.clone()),
        vec![(-1, -1), (-1, 0), (-1, 1), (0, -1), (0, 0), (0, 1)]
    );
    assert_eq!(sorted(plan.to_spawn.clone()), vec![(2, -1), (2, 0), (2, 1), (3, -1), (3, 0), (3, 1)]);
    for c in &plan.evicted {
        assert_eq!(cache.items_referencing(*c), 0);
        assert!(!cache.is_loaded(*c));
        assert!(cache.content(*c).is_none());
    }
    assert_eq!(cache.loaded_count(), 3);
    assert!(cache.is_loaded(coord(1, 0)));
    assert_eq!(cache.content(coord(1, 0)).unwrap(), &kept);
}

#[test]
fn regenerated_chunk_is_identical() {
    let mut cache = LoadedChunks::new(2, 50, 100);
    let c = coord(-3, 5);
    let samples = vec![-900, -600, 50, 900];
    assert_eq!(cache.spawn_chunk(c, &samples), Ok(()));
    let first = cache.content(c).unwrap().clone();
    let plan = cache.reconcile(&DesiredChunks { chunks: vec![] });
    assert_eq!(plan.evicted, vec![c]);
    assert!(!cache.is_loaded(c));
    assert_eq!(cache.spawn_chunk(c, &samples), Ok(()));
    assert_eq!(cache.content(c).unwrap(), &first);
    let terrains: Vec<Terrain> = first.iter().map(|i| i.terrain).collect();
    assert_eq!(terrains, vec![Terrain::DeepWater, Terrain::Water, Terrain::Grass, Terrain::Mountain]);
    let cells: Vec<(i32, i32)> = first.iter().map(|i| (i.x, i.y)).collect();
    assert_eq!(cells, chunk_cells(c, 2));
    assert!(first.iter().all(|i| i.chunk_coords == c));
}

#[test]
fn chunks_beyond_the_world_bound_are_skipped() {
    let mut cache = LoadedChunks::new(4, 1, 100);
    let plan = cache.reconcile(&desired_chunks(4, 0, 4, 1));
    assert_eq!(sorted(plan.to_spawn.clone()), vec![(0, -1), (0, 0), (0, 1), (1, -1), (1, 0), (1, 1)]);
    assert_eq!(cache.spawn_chunk(coord(2, 0), &vec![0; 16]), Err(SpawnError::OutOfBounds));
    assert_eq!(cache.spawn_chunk(coord(0, -2), &vec![0; 16]), Err(SpawnError::OutOfBounds));
}

#[test]
fn spawn_errors() {
    let mut cache = LoadedChunks::new(4, 50, 2);
    assert_eq!(cache.spawn_chunk(coord(0, 0), &vec![0; 15]), Err(SpawnError::SampleCount));
    assert_eq!(cache.spawn_chunk(coord(0, 0), &vec![0; 16]), Ok(()));
    assert_eq!(cache.spawn_chunk(coord(1, 0), &vec![0; 16]), Ok(()));
    assert_eq!(cache.spawn_chunk(coord(2, 0), &vec![0; 16]), Err(SpawnError::Budget));
    assert_eq!(cache.loaded_count(), 2);
    // the budgeted chunk is asked for again on the next tick
    let plan = cache.reconcile(&DesiredChunks { chunks: vec![coord(0, 0), coord(1, 0), coord(2, 0)] });
    assert_eq!(plan.to_spawn, vec![coord(2, 0)]);
}

#[test]
fn reconcile_lists_each_chunk_once() {
    let mut cache = LoadedChunks::new(4, 50, 10);
    let plan = cache.reconcile(&DesiredChunks { chunks: vec![coord(1, 1), coord(1, 1), coord(0, 0)] });
    assert_eq!(plan.to_spawn, vec![coord(1, 1), coord(0, 0)]);
}

#[test]
fn terrain_table() {
    assert_eq!(classify(-1201), Terrain::Unclassified);
    assert_eq!(classify(-1200), Terrain::DeepWater);
    assert_eq!(classify(-801), Terrain::DeepWater);
    assert_eq!(classify(-800), Terrain::Water);
    assert_eq!(classify(-500), Terrain::Shallows);
    assert_eq!(classify(-100), Terrain::Sand);
    assert_eq!(classify(-1), Terrain::Sand);
    assert_eq!(classify(0), Terrain::Grass);
    assert_eq!(classify(400), Terrain::Forest);
    assert_eq!(classify(800), Terrain::Mountain);
    assert_eq!(classify(1000), Terrain::Mountain);
    assert_eq!(classify(1199), Terrain::Mountain);
    assert_eq!(classify(1200), Terrain::Unclassified);
    assert!(is_obstacle(-800));
    assert!(is_obstacle(-101));
    assert!(!is_obstacle(-100));
    assert!(!is_obstacle(-900));
    assert!(!is_obstacle(300));
}

fn noise_samples(perlin: &Perlin, c: ChunkCoord, n: i32) -> Vec<i32> {
    chunk_cells(c, n)
        .iter()
        .map(|&(x, y)| (perlin.get([f64::from(x) * 12.0 / 300.0, f64::from(y) * 12.0 / 300.0]) * 1000.0).round() as i32)
        .collect()
}

#[test]
fn noise_terrain_survives_eviction() {
    let c = coord(-2, 3);
    let first = noise_samples(&Perlin::new(9), c, 4);
    let again = noise_samples(&Perlin::new(9), c, 4);
    assert_eq!(first, again);
    let mut cache = LoadedChunks::new(4, 50, 10);
    assert_eq!(cache.spawn_chunk(c, &first), Ok(()));
    let before = cache.content(c).unwrap().clone();
    cache.reconcile(&DesiredChunks { chunks: vec![coord(0, 0)] });
    assert!(!cache.is_loaded(c));
    assert_eq!(cache.spawn_chunk(c, &noise_samples(&Perlin::new(9), c, 4)), Ok(()));
    assert_eq!(cache.content(c).unwrap(), &before);
    for (item, v) in before.iter().zip(first.iter()) {
        assert_eq!(item.terrain, classify(*v));
    }
}
