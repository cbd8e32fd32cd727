use noise::{NoiseFn, Perlin};
use rust_project::domain::{Position, ResourceType, Tile};
use rust_project::map::{Grid, GridError, ResourceParams, ValidationError};

struct ObstacleParams {
    seed: u32,
    scale: f64,
    threshold: f64,
    max_density: f32,
}

impl ObstacleParams {
    fn new(seed: u32) -> Self {
        Self {
            seed,
            scale: 14.0,
            threshold: 0.32,
            max_density: 0.30,
        }
    }
}

/// The noise side of obstacle generation, as the program does it: every
/// tile whose noise value reaches the threshold competes, ranked by value.
fn generate_obstacles(grid: &mut Grid, params: ObstacleParams) {
    let noise = Perlin::new(params.seed);
    let scale = if params.scale.is_finite() && params.scale > 0.0 {
        params.scale
    } else {
        14.0
    };
    let width = grid.width();
    let total = width * grid.height();
    let mut scores = Vec::new();

    for idx in 0..total {
        let x = (idx % width) as f64 / scale;
        let y = (idx / width) as f64 / scale;
        let score = noise.get([x, y]);

        if score >= params.threshold {
            let bits = score.to_bits() as i64;
            scores.push(Some(bits ^ ((((bits >> 63) as u64) >> 1) as i64)));
        } else {
            scores.push(None);
        }
    }

    let density = params.max_density.clamp(0.0, 0.30);
    let max_tiles = (total as f32 * density).round() as usize;
    grid.generate_obstacles_ranked(&scores, max_tiles);
}

fn with_obstacles(width: usize, height: usize, seed: u32) -> Grid {
    let mut grid = Grid::new(width, height);

    generate_obstacles(&mut grid, ObstacleParams::new(seed));
    grid
}

fn tiles(grid: &Grid) -> Vec<Tile> {
    let mut values = Vec::new();

    for y in 0..grid.height() {
        for x in 0..grid.width() {
            values.push(grid.get_tile(Position::new(x as i32, y as i32)).unwrap());
        }
    }

    values
}

fn count_tile(grid: &Grid, tile: Tile) -> usize {
    tiles(grid)
        .into_iter()
        .filter(|current| *current == tile)
        .count()
}

#[test]
fn grid_reads_writes_and_walkability_work() {
    let mut grid = Grid::new(4, 3);
    let pos = Position::new(2, 1);

    assert!(grid.in_bounds(pos));
    assert!(!grid.in_bounds(Position::new(4, 1)));
    assert_eq!(grid.get_tile(pos), Some(Tile::Empty));

    grid.set_tile(pos, Tile::Obstacle).unwrap();

    assert_eq!(grid.get_tile(pos), Some(Tile::Obstacle));
    assert!(!grid.is_walkable(pos));
    assert!(grid.set_tile(Position::new(-1, 0), Tile::Empty).is_err());
}

#[test]
fn obstacles_depend_on_seed_and_keep_a_playable_density() {
    let grid_a = with_obstacles(30, 20, 10);
    let grid_b = with_obstacles(30, 20, 11);
    let obstacles = count_tile(&grid_a, Tile::Obstacle);

    assert_ne!(tiles(&grid_a), tiles(&grid_b));
    assert!(obstacles > 0);
    assert!(obstacles <= 180);
}

#[test]
fn custom_obstacle_density_is_limited() {
    let mut grid = Grid::new(20, 20);

    generate_obstacles(
        &mut grid,
        ObstacleParams {
            seed: 1,
            scale: 5.0,
            threshold: -1.0,
            max_density: 0.80,
        },
    );

    assert!(count_tile(&grid, Tile::Obstacle) <= 120);
}

#[test]
fn resources_are_placed_on_free_tiles_with_valid_amounts() {
    let mut grid = with_obstacles(20, 20, 3);

    grid.place_resources(ResourceParams::new(7, 4, 3));

    assert_eq!(grid.resources().len(), 7);

    for resource in grid.resources() {
        assert!((50..=200).contains(&resource.remaining));
        assert_eq!(
            grid.get_tile(resource.position),
            Some(Tile::Resource(resource.resource_type))
        );
    }

    assert_eq!(
        grid.resources()
            .iter()
            .filter(|resource| resource.resource_type == ResourceType::Energy)
            .count(),
        4
    );
    assert_eq!(
        grid.resources()
            .iter()
            .filter(|resource| resource.resource_type == ResourceType::Crystal)
            .count(),
        3
    );
}

#[test]
fn base_is_centered_and_spawns_stay_walkable() {
    let mut grid = with_obstacles(20, 20, 5);
    let base = grid.place_base().unwrap();

    grid.place_resources(ResourceParams::new(12, 8, 8));

    assert_eq!(base, Position::new(10, 10));
    assert_eq!(grid.base_position(), Some(base));
    assert_eq!(grid.get_tile(base), Some(Tile::Base));
    assert_eq!(grid.spawn_positions().len(), 4);
    assert!(grid.validate_start().is_ok());

    for spawn in grid.spawn_positions() {
        assert!(grid.is_walkable(spawn));
    }
}

#[test]
fn every_tile_scoring_fills_exactly_the_cap() {
    let mut grid = Grid::new(20, 20);

    generate_obstacles(
        &mut grid,
        ObstacleParams {
            seed: 1,
            scale: 5.0,
            threshold: -1.0,
            max_density: 0.80,
        },
    );

    assert_eq!(count_tile(&grid, Tile::Obstacle), 120);
}

#[test]
fn taking_a_resource_removes_it_when_empty() {
    let mut grid = Grid::with_resources(4, 4, ResourceParams::new(2, 1, 0));
    let resource = grid.resources()[0].clone();

    for _ in 0..resource.remaining {
        assert_eq!(
            grid.take_resource(resource.position),
            Some(resource.resource_type)
        );
    }

    assert_eq!(grid.take_resource(resource.position), None);
    assert_eq!(grid.get_tile(resource.position), Some(Tile::Empty));
    assert!(grid.resources().is_empty());
}

#[test]
fn validation_fails_when_a_spawn_is_blocked() {
    let mut grid = Grid::with_base(5, 5).unwrap();
    let spawn = grid.spawn_positions()[0];

    grid.set_tile(spawn, Tile::Obstacle).unwrap();

    assert_eq!(
        grid.validate_start(),
        Err(ValidationError::InvalidSpawn(spawn))
    );
}

#[test]
fn resources_are_placed_on_free_tiles_with_valid_amounts_on_an_open_grid() {
    let mut grid = Grid::new(20, 20);

    grid.place_resources(ResourceParams::new(7, 4, 3));

    assert_eq!(grid.resources().len(), 7);

    for resource in grid.resources() {
        assert!((50..=200).contains(&resource.remaining));
        assert_eq!(
            grid.get_tile(resource.position),
            Some(Tile::Resource(resource.resource_type))
        );
    }

    assert_eq!(
        grid.resources()
            .iter()
            .filter(|resource| resource.resource_type == ResourceType::Energy)
            .count(),
        4
    );
    assert_eq!(
        grid.resources()
            .iter()
            .filter(|resource| resource.resource_type == ResourceType::Crystal)
            .count(),
        3
    );
}

#[test]
fn placement_depends_on_the_seed_only() {
    let a = Grid::with_resources(12, 12, ResourceParams::new(42, 3, 3));
    let b = Grid::with_resources(12, 12, ResourceParams::new(42, 3, 3));
    let c = Grid::with_resources(12, 12, ResourceParams::new(43, 3, 3));

    assert_eq!(a.resources(), b.resources());
    assert_eq!(tiles(&a), tiles(&b));
    assert_ne!(a.resources(), c.resources());
    // the amounts are drawn too, not fixed at a bound
    let first = a.resources()[0].remaining;
    assert!(a.resources().iter().any(|r| r.remaining != first));
    assert!(a.resources().iter().all(|r| (50..=200).contains(&r.remaining)));
}

#[test]
fn placement_stops_when_free_tiles_run_out() {
    let mut grid = Grid::with_base(3, 3).unwrap();

    grid.place_resources(ResourceParams::new(1, 5, 5));

    // the base and its four neighbours leave four corners
    assert_eq!(grid.resources().len(), 4);
    assert_eq!(count_tile(&grid, Tile::Base), 1);
    for spawn in grid.spawn_positions() {
        assert_eq!(grid.get_tile(spawn), Some(Tile::Empty));
    }
}

#[test]
fn replacing_resources_clears_the_old_ones() {
    let mut grid = Grid::with_resources(10, 10, ResourceParams::new(5, 6, 6));
    assert_eq!(count_tile(&grid, Tile::Resource(ResourceType::Energy)), 6);

    grid.place_resources(ResourceParams::new(6, 1, 0));

    assert_eq!(grid.resources().len(), 1);
    assert_eq!(count_tile(&grid, Tile::Resource(ResourceType::Energy)), 1);
    assert_eq!(count_tile(&grid, Tile::Resource(ResourceType::Crystal)), 0);
}

#[test]
fn base_is_centered_and_spawns_stay_walkable_on_an_open_grid() {
    let mut grid = Grid::new(20, 20);
    let base = grid.place_base().unwrap();

    grid.place_resources(ResourceParams::new(12, 8, 8));

    assert_eq!(base, Position::new(10, 10));
    assert_eq!(grid.base_position(), Some(base));
    assert_eq!(grid.get_tile(base), Some(Tile::Base));
    assert_eq!(grid.spawn_positions().len(), 4);
    assert!(grid.validate_start().is_ok());

    for spawn in grid.spawn_positions() {
        assert!(grid.is_walkable(spawn));
    }
}

#[test]
fn placing_the_base_again_moves_nothing_twice() {
    let mut grid = Grid::new(6, 4);
    grid.set_tile(Position::new(3, 1), Tile::Obstacle).unwrap();

    let first = grid.place_base().unwrap();
    let second = grid.place_base().unwrap();

    assert_eq!(first, Position::new(3, 2));
    assert_eq!(second, first);
    assert_eq!(count_tile(&grid, Tile::Base), 1);
    assert_eq!(grid.get_tile(Position::new(3, 1)), Some(Tile::Empty));
    assert_eq!(
        grid.spawn_positions(),
        vec![
            Position::new(3, 1),
            Position::new(4, 2),
            Position::new(3, 3),
            Position::new(2, 2)
        ]
    );
}

#[test]
fn empty_grid_has_no_base_position() {
    let mut grid = Grid::new(0, 0);

    assert_eq!(
        grid.place_base(),
        Err(GridError::OutOfBounds(Position::new(0, 0)))
    );
    assert!(Grid::with_base(0, 3).is_err());
    assert_eq!(grid.validate_start(), Err(ValidationError::MissingBase));
}

#[test]
fn validation_errors_name_the_problem() {
    let mut grid = Grid::new(1, 1);
    assert_eq!(grid.validate_start(), Err(ValidationError::MissingBase));
    grid.place_base().unwrap();
    assert_eq!(grid.validate_start(), Err(ValidationError::NoSpawn));

    let mut grid = Grid::with_base(3, 3).unwrap();
    grid.set_tile(Position::new(1, 1), Tile::Empty).unwrap();
    assert_eq!(grid.base_position(), None);
    assert_eq!(grid.validate_start(), Err(ValidationError::MissingBase));
}

#[test]
fn a_new_base_replaces_the_old_one() {
    let mut grid = Grid::with_base(5, 5).unwrap();

    grid.set_tile(Position::new(0, 0), Tile::Base).unwrap();

    assert_eq!(grid.base_position(), Some(Position::new(0, 0)));
    assert_eq!(grid.get_tile(Position::new(2, 2)), Some(Tile::Empty));
    assert_eq!(count_tile(&grid, Tile::Base), 1);
}

#[test]
fn writing_over_a_deposit_forgets_it() {
    let mut grid = Grid::with_resources(5, 5, ResourceParams::new(9, 1, 0));
    let pos = grid.resources()[0].position;

    grid.set_tile(pos, Tile::Obstacle).unwrap();

    assert!(grid.resources().is_empty());
    assert_eq!(grid.take_resource(pos), None);
    assert_eq!(grid.get_tile(pos), Some(Tile::Obstacle));
}

#[test]
fn reading_outside_the_grid_gives_nothing() {
    let grid = Grid::new(3, 2);

    assert_eq!(grid.get_tile(Position::new(3, 0)), None);
    assert_eq!(grid.get_tile(Position::new(0, -1)), None);
    assert!(!grid.is_walkable(Position::new(5, 5)));
    assert_eq!(grid.width(), 3);
    assert_eq!(grid.height(), 2);
    assert_eq!(count_tile(&grid, Tile::Empty), 6);
}

#[test]
fn ranked_obstacles_are_capped_and_spare_the_base() {
    let mut grid = Grid::with_base(3, 3).unwrap();
    // every tile scores; the base tile (4) and its neighbours (1, 3, 5, 7) are spared
    let scores = vec![
        Some(9),
        Some(8),
        Some(1),
        Some(7),
        Some(100),
        Some(6),
        Some(5),
        Some(4),
        Some(9),
    ];

    grid.generate_obstacles_ranked(&scores, 3);

    // the corners rank 0 (9), 8 (9), 6 (5), 2 (1): the first three win
    assert_eq!(count_tile(&grid, Tile::Obstacle), 3);
    assert_eq!(grid.get_tile(Position::new(0, 0)), Some(Tile::Obstacle));
    assert_eq!(grid.get_tile(Position::new(2, 2)), Some(Tile::Obstacle));
    assert_eq!(grid.get_tile(Position::new(0, 2)), Some(Tile::Obstacle));
    assert_eq!(grid.get_tile(Position::new(2, 0)), Some(Tile::Empty));
    assert_eq!(grid.get_tile(Position::new(1, 1)), Some(Tile::Base));
    assert!(grid.validate_start().is_ok());
}

#[test]
fn tiles_without_a_score_are_cleared() {
    let mut grid = Grid::new(2, 2);
    grid.set_tile(Position::new(0, 0), Tile::Obstacle).unwrap();
    grid.set_tile(Position::new(1, 1), Tile::Resource(ResourceType::Crystal)).unwrap();

    grid.generate_obstacles_ranked(&vec![None, Some(3), None, Some(2)], 1);

    assert_eq!(grid.get_tile(Position::new(0, 0)), Some(Tile::Empty));
    assert_eq!(grid.get_tile(Position::new(1, 0)), Some(Tile::Obstacle));
    assert_eq!(grid.get_tile(Position::new(1, 1)), Some(Tile::Resource(ResourceType::Crystal)));
}

#[test]
fn a_grid_without_tiles_may_be_wider_than_coordinates_reach() {
    let mut grid = Grid::new(1 << 31, 0);

    assert_eq!(grid.width(), 1 << 31);
    assert_eq!(grid.height(), 0);
    assert_eq!(grid.get_tile(Position::new(0, 0)), None);
    assert!(grid.place_base().is_err());
    assert_eq!(grid.validate_start(), Err(ValidationError::MissingBase));
}
