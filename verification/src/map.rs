//! The map: a rectangular grid of tiles, the resource deposits on it and the
//! base with its spawn tiles.

use rand::rngs::StdRng;
use rand::{Rng, SeedableRng};
use vstd::prelude::*;

use crate::domain::{Position, ResourceNode, ResourceType, Tile};
use crate::knowledge::{has_resource_at, resource_index, resource_map, unique_positions};

verus! {

/// The seeded random number generator of the `rand` crate.
#[verifier::external_type_specification]
#[verifier::external_body]
pub struct ExStdRng(StdRng);

/// `rand`'s `StdRng::seed_from_u64`: a generator whose stream is fixed by
/// `seed`. Nothing is stated of the stream itself.
#[verifier::external_body]
fn seeded_rng(seed: u64) -> (rng: StdRng) {
    StdRng::seed_from_u64(seed)
}

/// `rand`'s `Rng::random_range` on `0..len`: some index below `len` (the
/// crate panics on an empty range, which `requires` rules out). Which index
/// comes out depends on the generator's state and is not stated.
#[verifier::external_body]
fn random_index(rng: &mut StdRng, len: usize) -> (i: usize)
    requires
        len > 0,
    ensures
        i < len,
{
    rng.random_range(0..len)
}

/// `rand`'s `Rng::random_range` on `low..=high`: some value between the
/// bounds, both included. Which one comes out is not stated.
#[verifier::external_body]
fn random_amount(rng: &mut StdRng, low: u16, high: u16) -> (a: u16)
    requires
        low <= high,
    ensures
        low <= a <= high,
{
    rng.random_range(low..=high)
}

/// Least amount a freshly placed deposit holds.
pub const MIN_RESOURCE_AMOUNT: u16 = 50;

/// Greatest amount a freshly placed deposit holds.
pub const MAX_RESOURCE_AMOUNT: u16 = 200;

#[derive(Debug, Clone, Copy, PartialEq, Eq, Structural)]
pub enum GridError {
    OutOfBounds(Position),
}

#[derive(Debug, Clone, Copy, PartialEq, Eq, Structural)]
pub enum ValidationError {
    MissingBase,
    InvalidBase(Position),
    NoSpawn,
    InvalidSpawn(Position),
}

/// How many deposits of each kind to place, and the seed that decides where.
#[derive(Debug, Clone, Copy, PartialEq, Eq, Structural)]
pub struct ResourceParams {
    pub seed: u64,
    pub energy: usize,
    pub crystals: usize,
}

impl ResourceParams {
    pub fn new(seed: u64, energy: usize, crystals: usize) -> (p: Self)
        ensures
            p.seed == seed,
            p.energy == energy,
            p.crystals == crystals,
    {
        ResourceParams { seed, energy, crystals }
    }
}

/// `s` without its entry at `p` (the entries keep their order).
pub open spec fn without_resource_at(s: Seq<ResourceNode>, p: Position) -> Seq<ResourceNode> {
    if has_resource_at(s, p) {
        s.remove(resource_index(s, p))
    } else {
        s
    }
}

pub open spec fn min_int(a: int, b: int) -> int {
    if a <= b {
        a
    } else {
        b
    }
}

/// The grid that `Grid::new(width, height)` builds.
pub open spec fn empty_grid(width: int, height: int) -> GridView {
    GridView {
        width,
        height,
        tiles: Seq::new((width * height) as nat, |i: int| Tile::Empty),
        resources: Seq::empty(),
        base: None,
    }
}

/// Candidate `j` ranks before candidate `i`: a higher score, or the same
/// score and a lower index.
pub open spec fn outranks(scores: Seq<Option<i64>>, j: int, i: int) -> bool {
    scores[j].unwrap() > scores[i].unwrap() || (scores[j].unwrap() == scores[i].unwrap() && j < i)
}

pub open spec fn abs_int(v: int) -> int {
    if v < 0 {
        -v
    } else {
        v
    }
}

/// The four tiles next to `b`: north, east, south, west.
pub open spec fn neighbor_candidates(b: Position) -> Seq<Position> {
    seq![
        Position { x: b.x, y: (b.y - 1) as i32 },
        Position { x: (b.x + 1) as i32, y: b.y },
        Position { x: b.x, y: (b.y + 1) as i32 },
        Position { x: (b.x - 1) as i32, y: b.y },
    ]
}

/// The abstract content of a grid. Tiles are stored row after row.
pub struct GridView {
    pub width: int,
    pub height: int,
    pub tiles: Seq<Tile>,
    pub resources: Seq<ResourceNode>,
    pub base: Option<Position>,
}

impl GridView {
    pub open spec fn in_bounds(self, p: Position) -> bool {
        0 <= p.x && 0 <= p.y && p.x < self.width && p.y < self.height
    }

    pub open spec fn index_of(self, p: Position) -> int {
        p.y * self.width + p.x
    }

    pub open spec fn position_of(self, i: int) -> Position {
        Position { x: (i % self.width) as i32, y: (i / self.width) as i32 }
    }

    /// The tile at an in-bounds position.
    pub open spec fn tile(self, p: Position) -> Tile {
        self.tiles[self.index_of(p)]
    }

    pub open spec fn get_tile(self, p: Position) -> Option<Tile> {
        if self.in_bounds(p) {
            Some(self.tile(p))
        } else {
            None
        }
    }

    /// A robot may stand on empty tiles, the base and deposits.
    pub open spec fn is_walkable(self, p: Position) -> bool {
        match self.get_tile(p) {
            Some(Tile::Empty) | Some(Tile::Base) | Some(Tile::Resource(_)) => true,
            _ => false,
        }
    }

    /// The tiles fill the rectangle, whose sides are addressable by
    /// `Position` coordinates.
    pub open spec fn shape_wf(self) -> bool {
        &&& 0 <= self.width
        &&& 0 <= self.height
        &&& self.tiles.len() > 0 ==> self.width <= i32::MAX && self.height <= i32::MAX
        &&& self.tiles.len() == self.width * self.height
        &&& self.tiles.len() <= usize::MAX
    }

    /// Where `place_base` puts the base: the middle of the grid.
    pub open spec fn default_base(self) -> Position {
        Position { x: (self.width / 2) as i32, y: (self.height / 2) as i32 }
    }

    /// The in-bounds tiles next to `b`: north, east, south, west.
    pub open spec fn base_neighbors(self, b: Position) -> Seq<Position> {
        neighbor_candidates(b).filter(|p: Position| self.in_bounds(p))
    }

    /// The spawn tiles: the walkable tiles next to the base.
    pub open spec fn spawn_positions(self) -> Seq<Position> {
        match self.base {
            Some(b) => self.base_neighbors(b).filter(|p: Position| self.is_walkable(p)),
            None => Seq::empty(),
        }
    }

    /// The first position of `s` that is not walkable.
    pub open spec fn first_blocked(self, s: Seq<Position>) -> Option<Position>
        decreases s.len(),
    {
        if s.len() == 0 {
            None
        } else if !self.is_walkable(s[0]) {
            Some(s[0])
        } else {
            self.first_blocked(s.drop_first())
        }
    }

    /// What `validate_start` answers.
    pub open spec fn start_check(self) -> Result<(), ValidationError> {
        match self.base {
            None => Err(ValidationError::MissingBase),
            Some(b) => if self.get_tile(b) != Some(Tile::Base) {
                Err(ValidationError::InvalidBase(b))
            } else if self.base_neighbors(b).len() == 0 {
                Err(ValidationError::NoSpawn)
            } else {
                match self.first_blocked(self.base_neighbors(b)) {
                    Some(p) => Err(ValidationError::InvalidSpawn(p)),
                    None => Ok(()),
                }
            },
        }
    }

    /// The grid after a successful `place_base`: the base stands at
    /// `default_base()`, its in-bounds neighbours are empty, the tile of the
    /// former base is empty, and the deposits on any of these tiles are gone.
    pub open spec fn with_base_placed(self) -> GridView {
        let pos = self.default_base();
        let area = self.base_neighbors(pos);
        GridView {
            tiles: Seq::new(
                self.tiles.len(),
                |i: int|
                    {
                        let q = self.position_of(i);
                        if q == pos {
                            Tile::Base
                        } else if area.contains(q) {
                            Tile::Empty
                        } else if self.base == Some(q) {
                            Tile::Empty
                        } else {
                            self.tiles[i]
                        }
                    },
            ),
            resources: self.resources.filter(
                |r: ResourceNode| r.position != pos && !area.contains(r.position),
            ),
            base: Some(pos),
            ..self
        }
    }

    /// The grid after `take_resource(pos)`, and what that call answers: one
    /// unit leaves the deposit at `pos`; an exhausted deposit disappears and
    /// its tile becomes empty.
    pub open spec fn after_take(self, pos: Position) -> (GridView, Option<ResourceType>) {
        if !has_resource_at(self.resources, pos) {
            (self, None)
        } else {
            let i = resource_index(self.resources, pos);
            let n = self.resources[i];
            if n.remaining == 0 {
                (self, None)
            } else if n.remaining == 1 {
                (
                    GridView {
                        tiles: self.tiles.update(self.index_of(pos), Tile::Empty),
                        resources: self.resources.remove(i),
                        ..self
                    },
                    Some(n.resource_type),
                )
            } else {
                (
                    GridView {
                        resources: self.resources.update(
                            i,
                            ResourceNode { remaining: (n.remaining - 1) as u16, ..n },
                        ),
                        ..self
                    },
                    Some(n.resource_type),
                )
            }
        }
    }

    /// The tile at index `i` is a neighbour of the base.
    pub open spec fn is_spawn_index(self, i: int) -> bool {
        match self.base {
            Some(b) => {
                let p = self.position_of(i);
                abs_int(p.x - b.x) + abs_int(p.y - b.y) == 1
            },
            None => false,
        }
    }

    /// The tile at index `i` can receive a deposit: it is empty and not a
    /// spawn tile.
    pub open spec fn is_free_index(self, i: int) -> bool {
        self.tiles[i] == Tile::Empty && !self.is_spawn_index(i)
    }

    /// The indices of the tiles that can receive a deposit, ascending.
    pub open spec fn free_list(self) -> Seq<int> {
        self.free_prefix(self.tiles.len() as int)
    }

    /// The free indices below `n`, ascending.
    pub open spec fn free_prefix(self, n: int) -> Seq<int> {
        Seq::new(n as nat, |i: int| i).filter(|i: int| self.is_free_index(i))
    }

    /// The grid with every deposit removed and their tiles emptied.
    pub open spec fn without_resources(self) -> GridView {
        GridView {
            tiles: Seq::new(
                self.tiles.len(),
                |i: int|
                    if has_resource_at(self.resources, self.position_of(i)) {
                        Tile::Empty
                    } else {
                        self.tiles[i]
                    },
            ),
            resources: Seq::empty(),
            ..self
        }
    }

    /// `self` is what `place_resources` can leave on `before` with these
    /// counts: the deposits of `before` are gone (their tiles emptied); then
    /// as many energy deposits as asked and as there are free tiles, then as
    /// many crystal deposits as asked and as there are free tiles left, each
    /// on a distinct free tile of the cleared grid, holding an amount within
    /// the bounds; no other tile changes.
    pub open spec fn is_placement_of(self, before: GridView, energy: int, crystals: int) -> bool {
        let c = before.without_resources();
        let fl = c.free_list();
        let ne = min_int(energy, fl.len() as int);
        let nc = min_int(crystals, fl.len() - ne);
        &&& self.width == before.width
        &&& self.height == before.height
        &&& self.base == before.base
        &&& self.resources.len() == ne + nc
        &&& forall|k: int|
            0 <= k < self.resources.len() ==> {
                let r = #[trigger] self.resources[k];
                &&& r.resource_type == (if k < ne {
                    ResourceType::Energy
                } else {
                    ResourceType::Crystal
                })
                &&& MIN_RESOURCE_AMOUNT <= r.remaining <= MAX_RESOURCE_AMOUNT
                &&& fl.contains(self.index_of(r.position))
            }
        &&& self.tiles.len() == c.tiles.len()
        &&& forall|j: int|
            0 <= j < self.tiles.len() ==> #[trigger] self.tiles[j] == if has_resource_at(
                self.resources,
                c.position_of(j),
            ) {
                Tile::Resource(resource_map(self.resources)[c.position_of(j)].resource_type)
            } else {
                c.tiles[j]
            }
    }

    /// Obstacle generation leaves the base and deposit tiles as they are.
    pub open spec fn keeps_tile(self, i: int) -> bool {
        self.tiles[i] == Tile::Base || self.tiles[i] is Resource
    }

    /// The tile at index `i` competes for an obstacle: it is neither base,
    /// deposit nor spawn tile, and its score reached the threshold.
    pub open spec fn is_obstacle_candidate(self, scores: Seq<Option<i64>>, i: int) -> bool {
        !self.keeps_tile(i) && !self.is_spawn_index(i) && scores[i] is Some
    }

    /// The candidates below index `k` that rank before candidate `i`.
    pub open spec fn outrankers(self, scores: Seq<Option<i64>>, i: int, k: int) -> Set<int> {
        Set::new(
            |j: int| 0 <= j < k && self.is_obstacle_candidate(scores, j) && outranks(scores, j, i),
        )
    }

    /// How many candidates rank before candidate `i`.
    pub open spec fn obstacle_rank(self, scores: Seq<Option<i64>>, i: int) -> nat {
        self.outrankers(scores, i, self.tiles.len() as int).len()
    }

    /// The grid after obstacle generation from `scores`: base and deposit
    /// tiles stay, the `max_tiles` best ranked candidates become obstacles,
    /// every other tile becomes empty.
    pub open spec fn with_obstacles_ranked(self, scores: Seq<Option<i64>>, max_tiles: int) -> GridView {
        GridView {
            tiles: Seq::new(
                self.tiles.len(),
                |i: int|
                    if self.keeps_tile(i) {
                        self.tiles[i]
                    } else if self.is_obstacle_candidate(scores, i) && self.obstacle_rank(scores, i)
                        < max_tiles {
                        Tile::Obstacle
                    } else {
                        Tile::Empty
                    },
            ),
            ..self
        }
    }

    /// What every grid satisfies: the tiles fill the rectangle, each deposit
    /// lies on a tile of its kind, holds something and at most the greatest
    /// amount placed, and no two share a tile;
    /// the base, when there is one, is the only tile marked as base.
    pub open spec fn wf(self) -> bool {
        &&& self.shape_wf()
        &&& unique_positions(self.resources)
        &&& forall|i: int|
            0 <= i < self.resources.len() ==> {
                let r = #[trigger] self.resources[i];
                &&& self.in_bounds(r.position)
                &&& self.tile(r.position) == Tile::Resource(r.resource_type)
                &&& r.remaining > 0
                &&& r.remaining <= MAX_RESOURCE_AMOUNT
            }
        &&& match self.base {
            Some(b) => self.in_bounds(b) && self.tile(b) == Tile::Base,
            None => true,
        }
        &&& forall|p: Position|
            self.in_bounds(p) && #[trigger] self.tile(p) == Tile::Base ==> self.base == Some(p)
    }

    /// The grid after `set_tile(pos, tile)` on an in-bounds position: the
    /// deposit at `pos` is forgotten, a new base replaces the old one (whose
    /// tile becomes empty), and overwriting the base removes it.
    pub open spec fn with_tile(self, pos: Position, tile: Tile) -> GridView {
        let cleared = if tile == Tile::Base && self.base is Some {
            self.tiles.update(self.index_of(self.base.unwrap()), Tile::Empty)
        } else {
            self.tiles
        };
        GridView {
            tiles: cleared.update(self.index_of(pos), tile),
            resources: without_resource_at(self.resources, pos),
            base: if tile == Tile::Base {
                Some(pos)
            } else if self.base == Some(pos) {
                None
            } else {
                self.base
            },
            ..self
        }
    }
}

/// Row-major indexing is a bijection between in-bounds positions and
/// `0 .. width * height`.
pub proof fn lemma_index_of(w: int, h: int, x: int, y: int)
    requires
        0 <= x < w,
        0 <= y < h,
    ensures
        0 <= y * w + x < w * h,
        (y * w + x) % w == x,
        (y * w + x) / w == y,
{
    assert(0 <= y * w + x < w * h) by (nonlinear_arith)
        requires
            0 <= x < w,
            0 <= y < h,
    ;
    vstd::arithmetic::div_mod::lemma_fundamental_div_mod_converse(y * w + x, w, y, x);
}

pub proof fn lemma_position_of(w: int, h: int, i: int)
    requires
        0 <= i < w * h,
        0 < w,
    ensures
        0 <= i % w < w,
        0 <= i / w < h,
        (i / w) * w + (i % w) == i,
{
    vstd::arithmetic::div_mod::lemma_fundamental_div_mod(i, w);
    vstd::arithmetic::div_mod::lemma_mod_pos_bound(i, w);
    vstd::arithmetic::div_mod::lemma_div_pos_is_pos(i, w);
    assert(w * (i / w) == (i / w) * w) by (nonlinear_arith);
    assert((i / w) < h) by (nonlinear_arith)
        requires
            i == (i / w) * w + (i % w),
            0 <= i % w,
            i < w * h,
            0 < w,
    ;
}

impl GridView {
    pub proof fn lemma_index_in_range(self, p: Position)
        requires
            self.in_bounds(p),
        ensures
            0 <= self.index_of(p) < self.width * self.height,
            self.position_of(self.index_of(p)) == p,
    {
        lemma_index_of(self.width, self.height, p.x as int, p.y as int);
    }

    /// A grid with a tile in bounds has sides that `Position` coordinates
    /// address.
    pub proof fn lemma_addressable(self, p: Position)
        requires
            self.shape_wf(),
            self.in_bounds(p),
        ensures
            self.width <= i32::MAX,
            self.height <= i32::MAX,
    {
        assert(self.width * self.height >= 1) by (nonlinear_arith)
            requires
                self.width >= 1,
                self.height >= 1,
        ;
    }

    pub proof fn lemma_index_injective(self, p: Position, q: Position)
        requires
            self.in_bounds(p),
            self.in_bounds(q),
            self.index_of(p) == self.index_of(q),
        ensures
            p == q,
    {
        self.lemma_index_in_range(p);
        self.lemma_index_in_range(q);
    }

    pub proof fn lemma_position_in_range(self, i: int)
        requires
            0 <= i < self.width * self.height,
            0 <= self.width <= i32::MAX,
            0 <= self.height <= i32::MAX,
        ensures
            self.in_bounds(self.position_of(i)),
            self.index_of(self.position_of(i)) == i,
    {
        if self.width == 0 {
            assert(self.width * self.height == 0);
        }
        lemma_position_of(self.width, self.height, i);
    }
}


/// Each entry left after removing the one at `p` is an entry of `s` that is
/// not at `p`.
pub proof fn lemma_without_resource_at(s: Seq<ResourceNode>, p: Position)
    requires
        unique_positions(s),
    ensures
        unique_positions(without_resource_at(s, p)),
        !has_resource_at(without_resource_at(s, p), p),
        forall|j: int|
            0 <= j < without_resource_at(s, p).len() ==> s.contains(
                #[trigger] without_resource_at(s, p)[j],
            ),
        forall|j: int|
            0 <= j < without_resource_at(s, p).len() ==> (
            #[trigger] without_resource_at(s, p)[j]).position != p,
        has_resource_at(s, p) ==> without_resource_at(s, p).len() == s.len() - 1,
        !has_resource_at(s, p) ==> without_resource_at(s, p) == s,
{
    let t = without_resource_at(s, p);
    if has_resource_at(s, p) {
        let i0 = resource_index(s, p);
        crate::knowledge::lemma_resource_map_remove(s, i0);
        assert forall|j: int| 0 <= j < t.len() implies s.contains(#[trigger] t[j]) && t[j].position
            != p by {
            let k = if j < i0 { j } else { j + 1 };
            assert(t[j] == s[k]);
            assert(s[k].position != s[i0].position);
        }
        if has_resource_at(t, p) {
            let j = choose|j: int| 0 <= j < t.len() && #[trigger] t[j].position == p;
            assert(t[j].position != p);
        }
    } else {
        assert forall|j: int| 0 <= j < t.len() implies s.contains(#[trigger] t[j]) && t[j].position
            != p by {
            assert(t[j] == s[j]);
        }
    }
}

impl GridView {
    /// Setting a tile keeps every grid invariant.
    pub proof fn lemma_with_tile_wf(self, pos: Position, tile: Tile)
        requires
            self.wf(),
            self.in_bounds(pos),
        ensures
            self.with_tile(pos, tile).wf(),
    {
        let n = self.with_tile(pos, tile);
        self.lemma_index_in_range(pos);
        if self.base is Some {
            self.lemma_index_in_range(self.base.unwrap());
        }
        lemma_without_resource_at(self.resources, pos);
        assert forall|i: int| 0 <= i < n.resources.len() implies {
            let r = #[trigger] n.resources[i];
            &&& n.in_bounds(r.position)
            &&& n.tile(r.position) == Tile::Resource(r.resource_type)
            &&& r.remaining > 0
            &&& r.remaining <= MAX_RESOURCE_AMOUNT
        } by {
            let r = n.resources[i];
            assert(self.resources.contains(r));
            let k = choose|k: int| 0 <= k < self.resources.len() && self.resources[k] == r;
            assert(self.resources[k] == r);
            self.lemma_index_in_range(r.position);
            if self.index_of(r.position) == self.index_of(pos) {
                self.lemma_index_injective(r.position, pos);
            }
            if self.base is Some && self.index_of(r.position) == self.index_of(self.base.unwrap()) {
                self.lemma_index_injective(r.position, self.base.unwrap());
            }
        }
        match n.base {
            Some(b) => {
                if b != pos {
                    self.lemma_index_in_range(b);
                    if self.index_of(b) == self.index_of(pos) {
                        self.lemma_index_injective(b, pos);
                    }
                }
            },
            None => {},
        }
        assert forall|p: Position| n.in_bounds(p) && #[trigger] n.tile(p) == Tile::Base implies n.base
            == Some(p) by {
            self.lemma_index_in_range(p);
            if p != pos {
                if self.index_of(p) == self.index_of(pos) {
                    self.lemma_index_injective(p, pos);
                }
                assert(self.index_of(p) != self.index_of(pos));
                if tile == Tile::Base && self.base is Some {
                    let b = self.base.unwrap();
                    if p == b {
                        assert(n.tile(p) == Tile::Empty);
                    } else {
                        if self.index_of(p) == self.index_of(b) {
                            self.lemma_index_injective(p, b);
                        }
                        assert(n.tile(p) == self.tile(p));
                    }
                } else {
                    assert(n.tile(p) == self.tile(p));
                }
            }
        }
    }
}

/// Removing the entry at `p` from a list without repeated positions keeps
/// exactly the entries that are not at `p`.
pub proof fn lemma_without_is_filter(s: Seq<ResourceNode>, p: Position)
    requires
        unique_positions(s),
    ensures
        without_resource_at(s, p) == s.filter(|r: ResourceNode| r.position != p),
    decreases s.len(),
{
    reveal_with_fuel(Seq::filter, 1);
    let f = |r: ResourceNode| r.position != p;
    if s.len() == 0 {
        assert(!has_resource_at(s, p));
    } else {
        let t = s.drop_last();
        let x = s.last();
        assert(unique_positions(t)) by {
            assert forall|i: int, j: int|
                0 <= i < t.len() && 0 <= j < t.len() && i != j implies #[trigger] t[i].position
                != #[trigger] t[j].position by {
                assert(t[i] == s[i] && t[j] == s[j]);
            }
        }
        lemma_without_is_filter(t, p);
        assert(s.filter(f) == if f(x) { t.filter(f).push(x) } else { t.filter(f) });
        if x.position == p {
            assert(!has_resource_at(t, p)) by {
                if has_resource_at(t, p) {
                    let k = choose|k: int| 0 <= k < t.len() && #[trigger] t[k].position == p;
                    assert(s[k].position == s[s.len() - 1].position);
                }
            }
            assert(s[s.len() - 1].position == p);
            assert(has_resource_at(s, p));
            let k = resource_index(s, p);
            assert(k == s.len() - 1);
            assert(s.remove(k) =~= t);
        } else if has_resource_at(t, p) {
            let k = resource_index(t, p);
            assert(t[k].position == p);
            assert(s[k].position == p);
            assert(has_resource_at(s, p));
            let k2 = resource_index(s, p);
            assert(s[k2].position == p);
            assert(k2 == k);
            assert(s.remove(k) =~= t.remove(k).push(x));
        } else {
            assert(!has_resource_at(s, p)) by {
                if has_resource_at(s, p) {
                    let k = choose|k: int| 0 <= k < s.len() && #[trigger] s[k].position == p;
                    if k < t.len() {
                        assert(t[k].position == p);
                    }
                }
            }
            assert(t.push(x) =~= s);
        }
    }
}

/// Filtering twice keeps what passes both tests.
pub proof fn lemma_filter_filter<A>(
    s: Seq<A>,
    f: spec_fn(A) -> bool,
    g: spec_fn(A) -> bool,
    fg: spec_fn(A) -> bool,
)
    requires
        forall|x: A| #[trigger] fg(x) == (f(x) && g(x)),
    ensures
        s.filter(f).filter(g) == s.filter(fg),
    decreases s.len(),
{
    reveal_with_fuel(Seq::filter, 1);
    if s.len() > 0 {
        lemma_filter_filter(s.drop_last(), f, g, fg);
        let x = s.last();
        if f(x) {
            assert(s.filter(f) == s.drop_last().filter(f).push(x));
            assert(s.filter(f).drop_last() =~= s.drop_last().filter(f));
        }
    }
}

impl GridView {
    /// Forgetting the base keeps every grid invariant.
    pub proof fn lemma_clear_base_wf(self)
        requires
            self.wf(),
        ensures
            (GridView {
                tiles: match self.base {
                    Some(b) => self.tiles.update(self.index_of(b), Tile::Empty),
                    None => self.tiles,
                },
                base: None,
                ..self
            }).wf(),
    {
        let n = GridView {
            tiles: match self.base {
                Some(b) => self.tiles.update(self.index_of(b), Tile::Empty),
                None => self.tiles,
            },
            base: None,
            ..self
        };
        if let Some(b) = self.base {
            self.lemma_index_in_range(b);
            assert forall|i: int| 0 <= i < n.resources.len() implies {
                let r = #[trigger] n.resources[i];
                &&& n.in_bounds(r.position)
                &&& n.tile(r.position) == Tile::Resource(r.resource_type)
                &&& r.remaining > 0
                &&& r.remaining <= MAX_RESOURCE_AMOUNT
            } by {
                let r = n.resources[i];
                assert(self.resources[i] == r);
                self.lemma_index_in_range(r.position);
                if self.index_of(r.position) == self.index_of(b) {
                    self.lemma_index_injective(r.position, b);
                }
            }
            assert forall|p: Position| n.in_bounds(p) && #[trigger] n.tile(p) == Tile::Base implies n.base
                == Some(p) by {
                self.lemma_index_in_range(p);
                assert(n.tiles == self.tiles.update(self.index_of(b), Tile::Empty));
                if self.index_of(p) == self.index_of(b) {
                    self.lemma_index_injective(p, b);
                    assert(n.tile(p) == Tile::Empty);
                } else {
                    assert(n.tile(p) == self.tile(p));
                }
            }
        }
    }
}

/// The map grid.
#[derive(Debug, Clone, PartialEq, Eq)]
pub struct Grid {
    width: usize,
    height: usize,
    tiles: Vec<Tile>,
    resources: Vec<ResourceNode>,
    base: Option<Position>,
}

impl Grid {
    pub closed spec fn view(&self) -> GridView {
        GridView {
            width: self.width as int,
            height: self.height as int,
            tiles: self.tiles@,
            resources: self.resources@,
            base: self.base,
        }
    }

    pub open spec fn wf(&self) -> bool {
        self@.wf()
    }

    /// An empty grid. The tile count must fit in `usize`, and a grid with
    /// tiles must have sides that `Position` coordinates can address.
    pub fn new(width: usize, height: usize) -> (g: Self)
        requires
            width * height <= usize::MAX,
            width * height > 0 ==> width <= i32::MAX && height <= i32::MAX,
        ensures
            g.wf(),
            g@ == empty_grid(width as int, height as int),
    {
        let n = width * height;
        let mut tiles: Vec<Tile> = Vec::new();
        let mut i: usize = 0;
        while i < n
            invariant
                i <= n,
                tiles@ == Seq::new(i as nat, |k: int| Tile::Empty),
            decreases n - i,
        {
            tiles.push(Tile::Empty);
            i = i + 1;
            assert(tiles@ =~= Seq::new(i as nat, |k: int| Tile::Empty));
        }
        let g = Grid { width, height, tiles, resources: Vec::new(), base: None };
        assert(g@ =~= empty_grid(width as int, height as int));
        assert forall|p: Position| g@.in_bounds(p) && #[trigger] g@.tile(p) == Tile::Base implies g@.base
            == Some(p) by {
            g@.lemma_index_in_range(p);
        }
        g
    }

    /// The number of tiles.
    pub(crate) fn tile_count(&self) -> (n: usize)
        ensures
            n == self@.tiles.len(),
    {
        self.tiles.len()
    }

    pub fn width(&self) -> (w: usize)
        ensures
            w == self@.width,
    {
        self.width
    }

    pub fn height(&self) -> (h: usize)
        ensures
            h == self@.height,
    {
        self.height
    }

    pub fn resources(&self) -> (r: &[ResourceNode])
        ensures
            r@ == self@.resources,
    {
        self.resources.as_slice()
    }

    pub fn base_position(&self) -> (b: Option<Position>)
        ensures
            b == self@.base,
    {
        self.base
    }

    pub fn in_bounds(&self, pos: Position) -> (r: bool)
        ensures
            r == self@.in_bounds(pos),
    {
        pos.x >= 0 && pos.y >= 0 && (pos.x as usize) < self.width && (pos.y as usize) < self.height
    }

    pub(crate) fn tile_index(&self, pos: Position) -> (r: Option<usize>)
        requires
            self@.shape_wf(),
        ensures
            match r {
                Some(i) => self@.in_bounds(pos) && i == self@.index_of(pos) && i < self@.tiles.len(),
                None => !self@.in_bounds(pos),
            },
    {
        if !self.in_bounds(pos) {
            return None;
        }
        let x = pos.x as usize;
        let y = pos.y as usize;
        proof {
            self@.lemma_index_in_range(pos);
            assert(self.tiles@.len() == self.tiles.len());
            assert(y * self.width <= y * self.width + x);
        }
        Some(y * self.width + x)
    }

    pub fn get_tile(&self, pos: Position) -> (t: Option<Tile>)
        requires
            self.wf(),
        ensures
            t == self@.get_tile(pos),
    {
        match self.tile_index(pos) {
            Some(idx) => Some(self.tiles[idx]),
            None => None,
        }
    }

    pub fn is_walkable(&self, pos: Position) -> (r: bool)
        requires
            self.wf(),
        ensures
            r == self@.is_walkable(pos),
    {
        match self.get_tile(pos) {
            Some(Tile::Empty) | Some(Tile::Base) | Some(Tile::Resource(_)) => true,
            _ => false,
        }
    }
}

impl Grid {
    /// Forgets the base; its tile becomes empty.
    fn clear_base(&mut self)
        requires
            old(self)@.shape_wf(),
        ensures
            final(self)@ == (GridView {
                tiles: match old(self)@.base {
                    Some(b) => if old(self)@.in_bounds(b) && old(self)@.tile(b) == Tile::Base {
                        old(self)@.tiles.update(old(self)@.index_of(b), Tile::Empty)
                    } else {
                        old(self)@.tiles
                    },
                    None => old(self)@.tiles,
                },
                base: None,
                ..old(self)@
            }),
    {
        if let Some(pos) = self.base.take() {
            if let Some(idx) = self.tile_index(pos) {
                if matches!(self.tiles[idx], Tile::Base) {
                    self.tiles.set(idx, Tile::Empty);
                }
            }
        }
    }

    /// Keeps the base record in step with a tile that is about to be written.
    fn update_base(&mut self, pos: Position, tile: Tile)
        requires
            old(self)@.shape_wf(),
            old(self)@.base is Some ==> old(self)@.in_bounds(old(self)@.base.unwrap()) && old(
                self,
            )@.tile(old(self)@.base.unwrap()) == Tile::Base,
        ensures
            final(self)@ == (GridView {
                tiles: if tile == Tile::Base && old(self)@.base is Some {
                    old(self)@.tiles.update(old(self)@.index_of(old(self)@.base.unwrap()), Tile::Empty)
                } else {
                    old(self)@.tiles
                },
                base: if tile == Tile::Base {
                    Some(pos)
                } else if old(self)@.base == Some(pos) {
                    None
                } else {
                    old(self)@.base
                },
                ..old(self)@
            }),
    {
        if matches!(tile, Tile::Base) {
            self.clear_base();
            self.base = Some(pos);
        } else if self.base == Some(pos) {
            self.base = None;
        }
    }

    /// Forgets the deposit at `pos`, if any.
    fn remove_resource_at(&mut self, pos: Position)
        requires
            unique_positions(old(self)@.resources),
        ensures
            final(self)@ == (GridView {
                resources: without_resource_at(old(self)@.resources, pos),
                ..old(self)@
            }),
    {
        let mut i: usize = 0;
        while i < self.resources.len()
            invariant
                self@ == old(self)@,
                unique_positions(self.resources@),
                i <= self.resources.len(),
                forall|j: int| 0 <= j < i ==> (#[trigger] self.resources@[j]).position != pos,
            decreases self.resources.len() - i,
        {
            if self.resources[i].position == pos {
                proof {
                    let s = self.resources@;
                    assert(s[i as int].position == pos);
                    assert(has_resource_at(s, pos));
                    let k = resource_index(s, pos);
                    assert(s[k].position == pos);
                    assert(k == i as int);
                }
                self.resources.remove(i);
                return;
            }
            i = i + 1;
        }
    }

    /// Writes `tile` at `pos`; see `GridView::with_tile`. Fails, changing
    /// nothing, when `pos` is off the grid.
    pub fn set_tile(&mut self, pos: Position, tile: Tile) -> (r: Result<(), GridError>)
        requires
            old(self).wf(),
        ensures
            final(self).wf(),
            old(self)@.in_bounds(pos) ==> r == Ok::<(), GridError>(()) && final(self)@ == old(
                self,
            )@.with_tile(pos, tile),
            !old(self)@.in_bounds(pos) ==> r == Err::<(), GridError>(GridError::OutOfBounds(pos))
                && final(self)@ == old(self)@,
    {
        let idx = match self.tile_index(pos) {
            Some(i) => i,
            None => return Err(GridError::OutOfBounds(pos)),
        };
        self.remove_resource_at(pos);
        proof {
            if self@.base is Some {
                assert(old(self)@.tile(old(self)@.base.unwrap()) == Tile::Base);
                old(self)@.lemma_index_in_range(old(self)@.base.unwrap());
            }
        }
        self.update_base(pos, tile);
        self.tiles.set(idx, tile);
        proof {
            old(self)@.lemma_with_tile_wf(pos, tile);
            assert(self@ =~= old(self)@.with_tile(pos, tile));
        }
        Ok(())
    }
}

/// A list with one more element contains what the shorter list contains and
/// the new element.
pub proof fn lemma_push_contains<A>(s: Seq<A>, x: A, y: A)
    ensures
        s.push(x).contains(y) == (s.contains(y) || y == x),
{
    if s.push(x).contains(y) {
        let k = choose|k: int| 0 <= k < s.push(x).len() && s.push(x)[k] == y;
        if k < s.len() {
            assert(s[k] == y);
        }
    }
    if s.contains(y) {
        let k = choose|k: int| 0 <= k < s.len() && s[k] == y;
        assert(s.push(x)[k] == y);
    }
    if y == x {
        assert(s.push(x)[s.len() as int] == y);
    }
}

impl Grid {
    fn default_base_position(&self) -> (p: Position)
        requires
            self@.shape_wf(),
        ensures
            p == self@.default_base(),
    {
        Position::new((self.width / 2) as i32, (self.height / 2) as i32)
    }

    fn base_neighbors(&self, base: Position) -> (r: Vec<Position>)
        requires
            self@.shape_wf(),
            self@.in_bounds(base),
        ensures
            r@ == self@.base_neighbors(base),
    {
        proof {
            self@.lemma_addressable(base);
        }
        let mut r: Vec<Position> = Vec::new();
        let north = Position::new(base.x, base.y - 1);
        let east = Position::new(base.x + 1, base.y);
        let south = Position::new(base.x, base.y + 1);
        let west = Position::new(base.x - 1, base.y);
        if self.in_bounds(north) {
            r.push(north);
        }
        if self.in_bounds(east) {
            r.push(east);
        }
        if self.in_bounds(south) {
            r.push(south);
        }
        if self.in_bounds(west) {
            r.push(west);
        }
        proof {
            let c = neighbor_candidates(base);
            let f = |p: Position| self@.in_bounds(p);
            reveal_with_fuel(Seq::filter, 5);
            assert(c.drop_last().drop_last().drop_last().drop_last() =~= Seq::<Position>::empty());
            assert(c.drop_last().drop_last().drop_last() =~= seq![north]);
            assert(c.drop_last().drop_last() =~= seq![north, east]);
            assert(c.drop_last() =~= seq![north, east, south]);
            assert(c =~= seq![north, east, south, west]);
            assert(r@ =~= c.filter(f));
        }
        r
    }

    /// The spawn tiles: the walkable tiles next to the base, in the order
    /// north, east, south, west; none when there is no base.
    pub fn spawn_positions(&self) -> (r: Vec<Position>)
        requires
            self.wf(),
        ensures
            r@ == self@.spawn_positions(),
    {
        match self.base {
            Some(base) => {
                let candidates = self.base_neighbors(base);
                let mut r: Vec<Position> = Vec::new();
                let mut i: usize = 0;
                while i < candidates.len()
                    invariant
                        self.wf(),
                        i <= candidates.len(),
                        r@ == candidates@.subrange(0, i as int).filter(
                            |p: Position| self@.is_walkable(p),
                        ),
                    decreases candidates.len() - i,
                {
                    proof {
                        reveal_with_fuel(Seq::filter, 1);
                        assert(candidates@.subrange(0, i as int + 1).drop_last()
                            =~= candidates@.subrange(0, i as int));
                    }
                    if self.is_walkable(candidates[i]) {
                        r.push(candidates[i]);
                    }
                    i = i + 1;
                }
                assert(candidates@.subrange(0, candidates@.len() as int) =~= candidates@);
                r
            },
            None => Vec::new(),
        }
    }

    /// Checks that the grid is ready for a start: there is a base, it is
    /// marked on its tile, it has at least one in-bounds neighbour, and all
    /// of these are walkable (the first one that is not is reported).
    pub fn validate_start(&self) -> (r: Result<(), ValidationError>)
        requires
            self.wf(),
        ensures
            r == self@.start_check(),
    {
        let base = match self.base {
            Some(b) => b,
            None => return Err(ValidationError::MissingBase),
        };
        if !matches!(self.get_tile(base), Some(Tile::Base)) {
            return Err(ValidationError::InvalidBase(base));
        }
        let spawns = self.base_neighbors(base);
        if spawns.len() == 0 {
            return Err(ValidationError::NoSpawn);
        }
        let mut i: usize = 0;
        assert(spawns@.subrange(0, spawns@.len() as int) =~= spawns@);
        while i < spawns.len()
            invariant
                self.wf(),
                i <= spawns.len(),
                self@.base == Some(base),
                self@.get_tile(base) == Some(Tile::Base),
                spawns@ == self@.base_neighbors(base),
                spawns@.len() > 0,
                self@.first_blocked(spawns@) == self@.first_blocked(
                    spawns@.subrange(i as int, spawns@.len() as int),
                ),
            decreases spawns.len() - i,
        {
            let spawn = spawns[i];
            proof {
                let rest = spawns@.subrange(i as int, spawns@.len() as int);
                assert(rest[0] == spawn);
                assert(rest.drop_first() =~= spawns@.subrange(i as int + 1, spawns@.len() as int));
            }
            if !self.is_walkable(spawn) {
                return Err(ValidationError::InvalidSpawn(spawn));
            }
            i = i + 1;
        }
        proof {
            assert(spawns@.subrange(spawns@.len() as int, spawns@.len() as int).len() == 0);
        }
        Ok(())
    }
}

/// The tiles while `place_base` empties the neighbours of the new base: the
/// neighbours handled so far and the former base are empty.
pub open spec fn tiles_during_base_placement(
    g: GridView,
    done: Seq<Position>,
) -> Seq<Tile> {
    Seq::new(
        g.tiles.len(),
        |i: int|
            {
                let q = g.position_of(i);
                if done.contains(q) {
                    Tile::Empty
                } else if g.base == Some(q) {
                    Tile::Empty
                } else {
                    g.tiles[i]
                }
            },
    )
}

impl Grid {
    /// Puts the base in the middle of the grid and empties its in-bounds
    /// neighbours; see `GridView::with_base_placed`. Fails, changing
    /// nothing, on a grid without tiles.
    pub fn place_base(&mut self) -> (r: Result<Position, GridError>)
        requires
            old(self).wf(),
        ensures
            final(self).wf(),
            old(self)@.in_bounds(old(self)@.default_base()) ==> r == Ok::<Position, GridError>(
                old(self)@.default_base(),
            ) && final(self)@ == old(self)@.with_base_placed(),
            !old(self)@.in_bounds(old(self)@.default_base()) ==> r == Err::<Position, GridError>(
                GridError::OutOfBounds(old(self)@.default_base()),
            ) && final(self)@ == old(self)@,
    {
        let pos = self.default_base_position();
        if !self.in_bounds(pos) {
            return Err(GridError::OutOfBounds(pos));
        }
        let ghost g0 = self@;
        proof {
            g0.lemma_clear_base_wf();
            if let Some(b) = g0.base {
                g0.lemma_index_in_range(b);
            }
        }
        self.clear_base();
        let spawns = self.base_neighbors(pos);
        let ghost area = spawns@;
        proof {
            assert(self@.tiles =~= tiles_during_base_placement(g0, Seq::empty())) by {
                assert forall|j: int| 0 <= j < self@.tiles.len() implies self@.tiles[j]
                    == tiles_during_base_placement(g0, Seq::empty())[j] by {
                    g0.lemma_position_in_range(j);
                    if let Some(b) = g0.base {
                        if g0.position_of(j) == b {
                            assert(j == g0.index_of(b));
                        } else if j == g0.index_of(b) {
                            g0.lemma_index_in_range(b);
                        }
                    }
                }
            }
            assert((|p: Position| self@.in_bounds(p)) =~= (|p: Position| g0.in_bounds(p)));
            crate::knowledge::lemma_filter_keeps_every(
                g0.resources,
                |r: ResourceNode| !area.subrange(0, 0).contains(r.position),
            );
        }
        let mut i: usize = 0;
        while i < spawns.len()
            invariant
                self.wf(),
                i <= spawns.len(),
                spawns@ == area,
                area == g0.base_neighbors(pos),
                g0.wf(),
                g0.in_bounds(pos),
                self@.width == g0.width,
                self@.height == g0.height,
                self@.base == None::<Position>,
                self@.tiles == tiles_during_base_placement(g0, area.subrange(0, i as int)),
                self@.resources == g0.resources.filter(
                    |r: ResourceNode| !area.subrange(0, i as int).contains(r.position),
                ),
            decreases spawns.len() - i,
        {
            let spawn = spawns[i];
            let ghost before = self@;
            let ghost done = area.subrange(0, i as int);
            proof {
                reveal_with_fuel(Seq::filter, 5);
                assert(area.contains(spawn));
                assert(g0.in_bounds(spawn));
            }
            self.set_tile(spawn, Tile::Empty)?;
            proof {
                let done2 = area.subrange(0, i as int + 1);
                assert(done2 =~= done.push(spawn));
                assert forall|q: Position| #[trigger] done2.contains(q) == (done.contains(q) || q == spawn) by {
                    lemma_push_contains(done, spawn, q);
                }
                g0.lemma_index_in_range(spawn);
                assert(self@.tiles =~= tiles_during_base_placement(g0, done2)) by {
                    assert forall|j: int| 0 <= j < self@.tiles.len() implies self@.tiles[j]
                        == tiles_during_base_placement(g0, done2)[j] by {
                        g0.lemma_position_in_range(j);
                        if g0.position_of(j) == spawn {
                            assert(j == g0.index_of(spawn));
                        } else if j == g0.index_of(spawn) {
                            assert(g0.position_of(j) == spawn);
                        }
                    }
                }
                lemma_without_is_filter(before.resources, spawn);
                lemma_filter_filter(
                    g0.resources,
                    |r: ResourceNode| !done.contains(r.position),
                    |r: ResourceNode| r.position != spawn,
                    |r: ResourceNode| !done2.contains(r.position),
                );
            }
            i = i + 1;
        }
        let ghost before = self@;
        proof {
            assert(area.subrange(0, area.len() as int) =~= area);
            g0.lemma_index_in_range(pos);
        }
        self.set_tile(pos, Tile::Base)?;
        proof {
            let target = g0.with_base_placed();
            assert(self@.tiles =~= target.tiles) by {
                assert forall|j: int| 0 <= j < self@.tiles.len() implies self@.tiles[j]
                    == target.tiles[j] by {
                    g0.lemma_position_in_range(j);
                    if g0.position_of(j) == pos {
                        assert(j == g0.index_of(pos));
                    } else if j == g0.index_of(pos) {
                        assert(g0.position_of(j) == pos);
                    }
                }
            }
            lemma_without_is_filter(before.resources, pos);
            lemma_filter_filter(
                g0.resources,
                |r: ResourceNode| !area.contains(r.position),
                |r: ResourceNode| r.position != pos,
                |r: ResourceNode| r.position != pos && !area.contains(r.position),
            );
            assert(self@ =~= target);
        }
        Ok(pos)
    }
}

impl Grid {
    /// Takes one unit from the deposit at `pos`; see `GridView::after_take`.
    pub fn take_resource(&mut self, pos: Position) -> (r: Option<ResourceType>)
        requires
            old(self).wf(),
        ensures
            final(self).wf(),
            (final(self)@, r) == old(self)@.after_take(pos),
    {
        let i = match crate::knowledge::find_resource(self.resources.as_slice(), pos) {
            Some(i) => i,
            None => return None,
        };
        proof {
            let s = self.resources@;
            assert(has_resource_at(s, pos));
            let k = resource_index(s, pos);
            assert(s[k].position == pos);
            assert(k == i as int);
            assert(old(self)@.in_bounds(s[k].position));
        }
        let node = self.resources[i];
        if node.remaining == 0 {
            return None;
        }
        let remaining = node.remaining - 1;
        self.resources.set(i, ResourceNode { remaining, ..node });
        let resource_type = node.resource_type;
        if remaining == 0 {
            let ghost mid = self.resources@;
            self.resources.remove(i);
            proof {
                assert(self.resources@ =~= old(self)@.resources.remove(i as int));
                old(self)@.lemma_index_in_range(pos);
            }
            if let Some(idx) = self.tile_index(pos) {
                self.tiles.set(idx, Tile::Empty);
            }
            proof {
                let g0 = old(self)@;
                crate::knowledge::lemma_resource_map_remove(g0.resources, i as int);
                assert forall|j: int| 0 <= j < self@.resources.len() implies {
                    let r = #[trigger] self@.resources[j];
                    &&& self@.in_bounds(r.position)
                    &&& self@.tile(r.position) == Tile::Resource(r.resource_type)
                    &&& r.remaining > 0
                    &&& r.remaining <= MAX_RESOURCE_AMOUNT
                } by {
                    let k = if j < i { j } else { j + 1 };
                    let r = self@.resources[j];
                    assert(r == g0.resources[k]);
                    assert(g0.resources[k].position != g0.resources[i as int].position);
                    g0.lemma_index_in_range(r.position);
                    if g0.index_of(r.position) == g0.index_of(pos) {
                        g0.lemma_index_injective(r.position, pos);
                    }
                }
                if let Some(b) = g0.base {
                    g0.lemma_index_in_range(b);
                    if g0.index_of(b) == g0.index_of(pos) {
                        g0.lemma_index_injective(b, pos);
                    }
                }
                assert(self@.tiles == g0.tiles.update(g0.index_of(pos), Tile::Empty));
                assert forall|p: Position| self@.in_bounds(p) && #[trigger] self@.tile(p) == Tile::Base implies self@.base
                    == Some(p) by {
                    g0.lemma_index_in_range(p);
                    if g0.index_of(p) == g0.index_of(pos) {
                        g0.lemma_index_injective(p, pos);
                        assert(self@.tile(p) == Tile::Empty);
                    } else {
                        assert(self@.tile(p) == g0.tile(p));
                    }
                }
            }
        } else {
            proof {
                let g0 = old(self)@;
                let n2 = ResourceNode { remaining, ..node };
                crate::knowledge::lemma_resource_map_update(g0.resources, i as int, n2);
                assert forall|j: int| 0 <= j < self@.resources.len() implies {
                    let r = #[trigger] self@.resources[j];
                    &&& self@.in_bounds(r.position)
                    &&& self@.tile(r.position) == Tile::Resource(r.resource_type)
                    &&& r.remaining > 0
                    &&& r.remaining <= MAX_RESOURCE_AMOUNT
                } by {
                    assert(g0.resources[j].position == self@.resources[j].position);
                }
                assert forall|p: Position| self@.in_bounds(p) && #[trigger] self@.tile(p) == Tile::Base implies self@.base
                    == Some(p) by {
                    assert(self@.tile(p) == g0.tile(p));
                }
            }
        }
        Some(resource_type)
    }
}

fn abs_i64(v: i64) -> (r: i64)
    requires
        v > i64::MIN,
    ensures
        r == abs_int(v as int),
{
    if v < 0 {
        -v
    } else {
        v
    }
}

impl GridView {
    /// Emptying the tiles of all deposits and forgetting them keeps every
    /// grid invariant.
    pub proof fn lemma_without_resources_wf(self)
        requires
            self.wf(),
        ensures
            self.without_resources().wf(),
    {
        let n = self.without_resources();
        if let Some(b) = self.base {
            self.lemma_index_in_range(b);
            assert(self.position_of(self.index_of(b)) == b);
            if has_resource_at(self.resources, b) {
                let k = choose|k: int|
                    0 <= k < self.resources.len() && #[trigger] self.resources[k].position == b;
                assert(self.tile(self.resources[k].position) == Tile::Resource(
                    self.resources[k].resource_type,
                ));
            }
            assert(n.tile(b) == Tile::Base);
        }
        assert forall|p: Position| n.in_bounds(p) && #[trigger] n.tile(p) == Tile::Base implies n.base
            == Some(p) by {
            self.lemma_index_in_range(p);
            assert(self.position_of(self.index_of(p)) == p);
            if !has_resource_at(self.resources, p) {
                assert(n.tile(p) == self.tile(p));
            }
        }
    }
}

impl Grid {
    pub(crate) fn pos_from_idx(&self, idx: usize) -> (p: Position)
        requires
            self@.shape_wf(),
            idx < self@.tiles.len(),
        ensures
            p == self@.position_of(idx as int),
            self@.in_bounds(p),
            self@.index_of(p) == idx,
    {
        proof {
            self@.lemma_position_in_range(idx as int);
            if self.width == 0 {
                assert(self@.width * self@.height == 0);
            }
            lemma_position_of(self@.width, self@.height, idx as int);
        }
        Position::new((idx % self.width) as i32, (idx / self.width) as i32)
    }

    fn is_spawn_idx(&self, idx: usize) -> (r: bool)
        requires
            self@.shape_wf(),
            idx < self@.tiles.len(),
        ensures
            r == self@.is_spawn_index(idx as int),
    {
        let base = match self.base {
            Some(b) => b,
            None => return false,
        };
        let pos = self.pos_from_idx(idx);
        let dx = abs_i64(pos.x as i64 - base.x as i64);
        let dy = abs_i64(pos.y as i64 - base.y as i64);
        dx + dy == 1
    }

    /// The indices of the tiles that can receive a deposit, ascending.
    fn free_tiles(&self) -> (r: Vec<usize>)
        requires
            self@.shape_wf(),
        ensures
            r@.len() == self@.free_list().len(),
            forall|k: int| 0 <= k < r@.len() ==> #[trigger] r@[k] == self@.free_list()[k],
    {
        let n = self.tiles.len();
        let mut r: Vec<usize> = Vec::new();
        let mut i: usize = 0;
        while i < n
            invariant
                self@.shape_wf(),
                n == self@.tiles.len(),
                i <= n,
                r@.len() == self@.free_prefix(i as int).len(),
                forall|k: int| 0 <= k < r@.len() ==> #[trigger] r@[k] == self@.free_prefix(i as int)[k],
            decreases n - i,
        {
            let ghost before = r@;
            proof {
                reveal_with_fuel(Seq::filter, 1);
                assert(Seq::new(i as nat + 1, |k: int| k).drop_last() =~= Seq::new(i as nat, |k: int| k));
            }
            if matches!(self.tiles[i], Tile::Empty) && !self.is_spawn_idx(i) {
                r.push(i);
            }
            i = i + 1;
        }
        r
    }

    /// Forgets every deposit and empties its tile.
    fn clear_resources(&mut self)
        requires
            old(self).wf(),
        ensures
            final(self).wf(),
            final(self)@ == old(self)@.without_resources(),
    {
        let mut resources: Vec<ResourceNode> = Vec::new();
        std::mem::swap(&mut resources, &mut self.resources);
        let ghost g0 = old(self)@;
        let mut k: usize = 0;
        while k < resources.len()
            invariant
                g0.wf(),
                resources@ == g0.resources,
                k <= resources.len(),
                self@.width == g0.width,
                self@.height == g0.height,
                self@.base == g0.base,
                self@.resources == Seq::<ResourceNode>::empty(),
                self@.tiles == Seq::new(
                    g0.tiles.len(),
                    |i: int|
                        if has_resource_at(g0.resources.subrange(0, k as int), g0.position_of(i)) {
                            Tile::Empty
                        } else {
                            g0.tiles[i]
                        },
                ),
            decreases resources.len() - k,
        {
            let pos = resources[k].position;
            let ghost before = self@.tiles;
            proof {
                assert(g0.in_bounds(g0.resources[k as int].position));
                g0.lemma_index_in_range(pos);
            }
            if let Some(idx) = self.tile_index(pos) {
                self.tiles.set(idx, Tile::Empty);
            }
            proof {
                let sub = g0.resources.subrange(0, k as int);
                let sub2 = g0.resources.subrange(0, k as int + 1);
                assert forall|i: int| 0 <= i < self@.tiles.len() implies self@.tiles[i] == (if has_resource_at(
                    sub2,
                    g0.position_of(i),
                ) {
                    Tile::Empty
                } else {
                    g0.tiles[i]
                }) by {
                    g0.lemma_position_in_range(i);
                    let q = g0.position_of(i);
                    if has_resource_at(sub2, q) {
                        let j = choose|j: int| 0 <= j < sub2.len() && #[trigger] sub2[j].position == q;
                        if j < k {
                            assert(sub[j].position == q);
                        }
                    }
                    if has_resource_at(sub, q) {
                        let j = choose|j: int| 0 <= j < sub.len() && #[trigger] sub[j].position == q;
                        assert(sub2[j].position == q);
                    }
                    if q == pos {
                        assert(sub2[k as int].position == q);
                        assert(i == g0.index_of(pos));
                    } else if i == g0.index_of(pos) {
                        assert(g0.position_of(i) == pos);
                    }
                }
                assert(self@.tiles =~= Seq::new(
                    g0.tiles.len(),
                    |i: int|
                        if has_resource_at(sub2, g0.position_of(i)) {
                            Tile::Empty
                        } else {
                            g0.tiles[i]
                        },
                ));
            }
            k = k + 1;
        }
        proof {
            assert(g0.resources.subrange(0, resources@.len() as int) =~= g0.resources);
            g0.lemma_without_resources_wf();
            assert(self@ =~= g0.without_resources());
        }
    }
}

/// Appending an entry adds exactly its position to the positions covered.
pub proof fn lemma_has_resource_push(s: Seq<ResourceNode>, r: ResourceNode, q: Position)
    ensures
        has_resource_at(s.push(r), q) == (has_resource_at(s, q) || r.position == q),
{
    let t = s.push(r);
    if has_resource_at(t, q) {
        let k = choose|k: int| 0 <= k < t.len() && #[trigger] t[k].position == q;
        if k < s.len() {
            assert(s[k].position == q);
        }
    }
    if has_resource_at(s, q) {
        let k = choose|k: int| 0 <= k < s.len() && #[trigger] s[k].position == q;
        assert(t[k].position == q);
    }
    if r.position == q {
        assert(t[s.len() as int].position == q);
    }
}

/// Removing the element at `i` from a list without repetitions removes
/// exactly that element.
proof fn lemma_swap_remove(s: Seq<usize>, i: int)
    requires
        s.no_duplicates(),
        0 <= i < s.len(),
    ensures
        s.update(i, s.last()).drop_last().no_duplicates(),
        s.update(i, s.last()).drop_last().len() == s.len() - 1,
        forall|y: usize| #[trigger]
            s.update(i, s.last()).drop_last().contains(y) == (s.contains(y) && y != s[i]),
{
    let t = s.update(i, s.last()).drop_last();
    let l = s.len() - 1;
    assert forall|a: int, b: int| 0 <= a < t.len() && 0 <= b < t.len() && a != b implies t[a]
        != t[b] by {
        let a2 = if a == i { l } else { a };
        let b2 = if b == i { l } else { b };
        assert(t[a] == s[a2]);
        assert(t[b] == s[b2]);
    }
    assert forall|y: usize| #[trigger] t.contains(y) == (s.contains(y) && y != s[i]) by {
        if t.contains(y) {
            let a = choose|a: int| 0 <= a < t.len() && t[a] == y;
            let a2 = if a == i { l } else { a };
            assert(t[a] == s[a2]);
            assert(a2 != i);
        }
        if s.contains(y) && y != s[i] {
            let a = choose|a: int| 0 <= a < s.len() && s[a] == y;
            assert(a != i);
            if a == l {
                assert(t[i] == y);
            } else {
                assert(t[a] == y);
            }
        }
    }
}

impl GridView {
    /// One placement step on drawn values: the free tile at `choice` in
    /// `free` receives a deposit of kind `t` holding `amount`, and `free`
    /// loses it (its last entry takes its place).
    pub open spec fn drawn(self, free: Seq<usize>, t: ResourceType, choice: int, amount: u16) -> (
        GridView,
        Seq<usize>,
    ) {
        let idx = free[choice] as int;
        (
            GridView {
                tiles: self.tiles.update(idx, Tile::Resource(t)),
                resources: self.resources.push(
                    ResourceNode { position: self.position_of(idx), resource_type: t, remaining: amount },
                ),
                ..self
            },
            free.update(choice, free.last()).drop_last(),
        )
    }

    /// The placement steps on the drawn values in `draws`, in order.
    pub open spec fn drawn_steps(self, free: Seq<usize>, t: ResourceType, draws: Seq<(int, u16)>) -> (
        GridView,
        Seq<usize>,
    )
        decreases draws.len(),
    {
        if draws.len() == 0 {
            (self, free)
        } else {
            let (g1, f1) = self.drawn(free, t, draws[0].0, draws[0].1);
            g1.drawn_steps(f1, t, draws.drop_first())
        }
    }
}

impl GridView {
    /// The tiles that can receive a deposit, as the placement draws from them.
    pub open spec fn free_tiles_drawn(self) -> Seq<usize> {
        self.free_list().map_values(|i: int| i as usize)
    }

    /// What placing deposits on the draws `de` (energy) and then `dc`
    /// (crystals) leaves on `self`: the deposits are cleared first, and the
    /// draws pick from the free tiles of the cleared grid.
    pub open spec fn placed_on_draws(self, de: Seq<(int, u16)>, dc: Seq<(int, u16)>) -> GridView {
        let c = self.without_resources();
        let (e, f1) = c.drawn_steps(c.free_tiles_drawn(), ResourceType::Energy, de);
        e.drawn_steps(f1, ResourceType::Crystal, dc).0
    }
}

/// Draws that a list of `n` free tiles can take: the `i`-th picks one of
/// the `n - i` tiles left and an amount within the bounds.
pub open spec fn valid_draws(n: int, draws: Seq<(int, u16)>) -> bool {
    forall|i: int|
        0 <= i < draws.len() ==> 0 <= (#[trigger] draws[i]).0 < n - i && MIN_RESOURCE_AMOUNT
            <= draws[i].1 <= MAX_RESOURCE_AMOUNT
}

/// One more draw is one more step after the others.
proof fn lemma_drawn_steps_push(
    g: GridView,
    free: Seq<usize>,
    t: ResourceType,
    draws: Seq<(int, u16)>,
    d: (int, u16),
)
    ensures
        g.drawn_steps(free, t, draws.push(d)) == g.drawn_steps(free, t, draws).0.drawn(
            g.drawn_steps(free, t, draws).1,
            t,
            d.0,
            d.1,
        ),
    decreases draws.len(),
{
    if draws.len() == 0 {
        assert(draws.push(d).drop_first() =~= Seq::<(int, u16)>::empty());
        let (g1, f1) = g.drawn(free, t, d.0, d.1);
        assert(g1.drawn_steps(f1, t, Seq::<(int, u16)>::empty()) == (g1, f1));
    } else {
        let (g1, f1) = g.drawn(free, t, draws[0].0, draws[0].1);
        assert(draws.push(d).drop_first() =~= draws.drop_first().push(d));
        assert(draws.push(d)[0] == draws[0]);
        lemma_drawn_steps_push(g1, f1, t, draws.drop_first(), d);
    }
}

impl Grid {
    /// Places one deposit on drawn values: the free tile `free[choice]`
    /// receives a deposit of kind `resource_type` holding `amount`; see
    /// `GridView::drawn`.
    fn place_drawn(&mut self, resource_type: ResourceType, free: &mut Vec<usize>, choice: usize, amount: u16)
        requires
            old(self).wf(),
            old(free)@.no_duplicates(),
            forall|k: int|
                0 <= k < old(free)@.len() ==> (#[trigger] old(free)@[k]) < old(self)@.tiles.len()
                    && old(self)@.is_free_index(old(free)@[k] as int),
            choice < old(free)@.len(),
            MIN_RESOURCE_AMOUNT <= amount <= MAX_RESOURCE_AMOUNT,
        ensures
            final(self).wf(),
            (final(self)@, final(free)@) == old(self)@.drawn(old(free)@, resource_type, choice as int, amount),
            final(free)@.no_duplicates(),
            forall|k: int|
                0 <= k < final(free)@.len() ==> (#[trigger] final(free)@[k]) < final(self)@.tiles.len()
                    && final(self)@.is_free_index(final(free)@[k] as int),
    {
        let ghost before = self@;
        let ghost free_before = free@;
        proof {
            lemma_swap_remove(free@, choice as int);
        }
        let idx = free.swap_remove(choice);
        let pos = self.pos_from_idx(idx);
        let node = ResourceNode::new(pos, resource_type, amount);
        proof {
            assert(free_before[choice as int] == idx);
            assert(before.tiles[idx as int] == Tile::Empty);
            assert(!has_resource_at(before.resources, pos)) by {
                if has_resource_at(before.resources, pos) {
                    let k = choose|k: int|
                        0 <= k < before.resources.len() && #[trigger] before.resources[k].position == pos;
                    assert(before.tile(before.resources[k].position) == Tile::Resource(
                        before.resources[k].resource_type,
                    ));
                }
            }
            crate::knowledge::lemma_resource_map_push(before.resources, node);
        }
        self.tiles.set(idx, Tile::Resource(resource_type));
        self.resources.push(node);
        proof {
            let after = self@;
            assert(after.resources == before.resources.push(node));
            assert forall|i: int| 0 <= i < after.resources.len() implies {
                let r = #[trigger] after.resources[i];
                &&& after.in_bounds(r.position)
                &&& after.tile(r.position) == Tile::Resource(r.resource_type)
                &&& r.remaining > 0
                &&& r.remaining <= MAX_RESOURCE_AMOUNT
            } by {
                let r = after.resources[i];
                if i < before.resources.len() {
                    assert(before.resources[i] == r);
                    before.lemma_index_in_range(r.position);
                    if before.index_of(r.position) == idx as int {
                        before.lemma_index_injective(r.position, pos);
                    }
                }
            }
            if let Some(b) = after.base {
                before.lemma_index_in_range(b);
                assert(before.index_of(b) != idx as int);
            }
            assert forall|p: Position| after.in_bounds(p) && #[trigger] after.tile(p) == Tile::Base implies after.base
                == Some(p) by {
                before.lemma_index_in_range(p);
                if before.index_of(p) != idx as int {
                    assert(after.tile(p) == before.tile(p));
                }
            }
            assert forall|k: int| 0 <= k < free@.len() implies (#[trigger] free@[k]) < self@.tiles.len()
                && self@.is_free_index(free@[k] as int) by {
                let x = free@[k];
                assert(free@.contains(x));
                assert(free_before.contains(x));
                assert(x != idx);
                assert(after.tiles[x as int] == before.tiles[x as int]);
            }
            assert(self@.tiles == before.tiles.update(idx as int, Tile::Resource(resource_type)));
        }
    }
}

impl Grid {
    /// Places up to `count` deposits of one kind, each on a tile drawn from
    /// `free` (which loses it), holding a drawn amount within the bounds.
    /// Stops early when `free` runs out.
    fn place_resource_type(
        &mut self,
        resource_type: ResourceType,
        count: usize,
        rng: &mut StdRng,
        free: &mut Vec<usize>,
    )
        requires
            old(self).wf(),
            old(free)@.no_duplicates(),
            forall|k: int|
                0 <= k < old(free)@.len() ==> (#[trigger] old(free)@[k]) < old(self)@.tiles.len()
                    && old(self)@.is_free_index(old(free)@[k] as int),
        ensures
            final(self).wf(),
            final(self)@.width == old(self)@.width,
            final(self)@.height == old(self)@.height,
            final(self)@.base == old(self)@.base,
            final(self)@.resources.len() == old(self)@.resources.len() + if count <= old(free)@.len() {
                count as int
            } else {
                old(free)@.len() as int
            },
            final(self)@.resources.subrange(0, old(self)@.resources.len() as int) == old(
                self,
            )@.resources,
            forall|k: int|
                old(self)@.resources.len() <= k < final(self)@.resources.len() ==> {
                    let r = #[trigger] final(self)@.resources[k];
                    &&& r.resource_type == resource_type
                    &&& MIN_RESOURCE_AMOUNT <= r.remaining <= MAX_RESOURCE_AMOUNT
                    &&& old(free)@.contains(final(self)@.index_of(r.position) as usize)
                    &&& !final(free)@.contains(final(self)@.index_of(r.position) as usize)
                },
            final(free)@.len() == old(free)@.len() - (final(self)@.resources.len() - old(
                self,
            )@.resources.len()),
            exists|draws: Seq<(int, u16)>|
                #![trigger old(self)@.drawn_steps(old(free)@, resource_type, draws)]
                draws.len() == final(self)@.resources.len() - old(self)@.resources.len() && valid_draws(
                    old(free)@.len() as int,
                    draws,
                ) && (final(self)@, final(free)@) == old(self)@.drawn_steps(old(free)@, resource_type, draws),
            final(free)@.no_duplicates(),
            forall|k: int|
                0 <= k < final(free)@.len() ==> (#[trigger] final(free)@[k]) < final(self)@.tiles.len()
                    && final(self)@.is_free_index(final(free)@[k] as int) && old(free)@.contains(
                    final(free)@[k],
                ),
            final(self)@.tiles.len() == old(self)@.tiles.len(),
            forall|j: int|
                0 <= j < final(self)@.tiles.len() ==> #[trigger] final(self)@.tiles[j] == if has_resource_at(
                    final(self)@.resources.subrange(
                        old(self)@.resources.len() as int,
                        final(self)@.resources.len() as int,
                    ),
                    old(self)@.position_of(j),
                ) {
                    Tile::Resource(resource_type)
                } else {
                    old(self)@.tiles[j]
                },
    {
        let ghost g0 = self@;
        let ghost f0 = free@;
        let ghost n0 = self@.resources.len() as int;
        let mut placed: usize = 0;
        let ghost mut draws: Seq<(int, u16)> = Seq::empty();
        assert(self@.resources.subrange(n0, n0) =~= Seq::<ResourceNode>::empty());
        assert(forall|j: int| 0 <= j < self@.tiles.len() ==> !has_resource_at(#[trigger] self@.resources.subrange(n0, n0), g0.position_of(j)));
        while placed < count && free.len() > 0
            invariant
                g0.wf(),
                self@.wf(),
                self@.width == g0.width,
                self@.height == g0.height,
                self@.base == g0.base,
                self@.tiles.len() == g0.tiles.len(),
                placed <= count,
                n0 == g0.resources.len(),
                f0 == old(free)@,
                free@.len() + placed == f0.len(),
                draws.len() == placed,
                valid_draws(f0.len() as int, draws),
                (self@, free@) == g0.drawn_steps(f0, resource_type, draws),
                self@.resources.len() == n0 + placed,
                self@.resources.subrange(0, n0) == g0.resources,
                free@.no_duplicates(),
                forall|k: int|
                    0 <= k < free@.len() ==> (#[trigger] free@[k]) < self@.tiles.len()
                        && self@.is_free_index(free@[k] as int) && f0.contains(free@[k]),
                forall|k: int|
                    n0 <= k < self@.resources.len() ==> {
                        let r = #[trigger] self@.resources[k];
                        &&& r.resource_type == resource_type
                        &&& MIN_RESOURCE_AMOUNT <= r.remaining <= MAX_RESOURCE_AMOUNT
                        &&& f0.contains(self@.index_of(r.position) as usize)
                        &&& !free@.contains(self@.index_of(r.position) as usize)
                    },
                forall|j: int|
                    0 <= j < self@.tiles.len() ==> #[trigger] self@.tiles[j] == if has_resource_at(
                        self@.resources.subrange(n0, self@.resources.len() as int),
                        g0.position_of(j),
                    ) {
                        Tile::Resource(resource_type)
                    } else {
                        g0.tiles[j]
                    },
            decreases count - placed,
        {
            let ghost before = self@;
            let ghost free_before = free@;
            let choice = random_index(rng, free.len());
            let remaining = random_amount(rng, MIN_RESOURCE_AMOUNT, MAX_RESOURCE_AMOUNT);
            let ghost idx = free_before[choice as int];
            let ghost pos = before.position_of(idx as int);
            let ghost node = ResourceNode { position: pos, resource_type, remaining };
            self.place_drawn(resource_type, free, choice, remaining);
            proof {
                lemma_swap_remove(free_before, choice as int);
                lemma_drawn_steps_push(g0, f0, resource_type, draws, (choice as int, remaining));
                draws = draws.push((choice as int, remaining));
                assert forall|i: int| 0 <= i < draws.len() implies 0 <= (#[trigger] draws[i]).0 < f0.len()
                    - i && MIN_RESOURCE_AMOUNT <= draws[i].1 <= MAX_RESOURCE_AMOUNT by {
                    if i < draws.len() - 1 {
                        assert(draws[i] == draws.drop_last()[i]);
                    }
                }
                let after = self@;
                g0.lemma_position_in_range(idx as int);
                assert(pos == before.position_of(idx as int));
                assert(after.resources == before.resources.push(node));
                assert(before.resources.len() == n0 + placed);
                assert(after.resources.subrange(0, n0) =~= before.resources.subrange(0, n0));
                assert(after.resources.subrange(n0, after.resources.len() as int) =~= before.resources.subrange(
                    n0,
                    before.resources.len() as int,
                ).push(node));
                assert forall|k: int| 0 <= k < free@.len() implies (#[trigger] free@[k]) < self@.tiles.len()
                    && self@.is_free_index(free@[k] as int) && f0.contains(free@[k]) by {
                    let x = free@[k];
                    assert(free@.contains(x));
                    assert(free_before.contains(x));
                }
                assert forall|k: int| n0 <= k < self@.resources.len() implies {
                    let r = #[trigger] self@.resources[k];
                    &&& r.resource_type == resource_type
                    &&& MIN_RESOURCE_AMOUNT <= r.remaining <= MAX_RESOURCE_AMOUNT
                    &&& f0.contains(self@.index_of(r.position) as usize)
                    &&& !free@.contains(self@.index_of(r.position) as usize)
                } by {
                    if k == before.resources.len() {
                        assert(self@.resources[k] == node);
                        assert(free_before[choice as int] == idx);
                        assert(free_before.contains(idx));
                        g0.lemma_position_in_range(idx as int);
                        assert(g0.index_of(pos) == idx as int);
                    } else {
                        assert(self@.resources[k] == before.resources[k]);
                    }
                }
                assert forall|j: int| 0 <= j < self@.tiles.len() implies #[trigger] self@.tiles[j] == if has_resource_at(
                    self@.resources.subrange(n0, self@.resources.len() as int),
                    g0.position_of(j),
                ) {
                    Tile::Resource(resource_type)
                } else {
                    g0.tiles[j]
                } by {
                    let part = before.resources.subrange(n0, before.resources.len() as int);
                    lemma_has_resource_push(part, node, g0.position_of(j));
                    g0.lemma_position_in_range(j);
                    g0.lemma_position_in_range(idx as int);
                    if j == idx as int {
                        assert(g0.position_of(j) == pos);
                    } else {
                        assert(g0.position_of(j) != pos);
                        assert(self@.tiles[j] == before.tiles[j]);
                    }
                }
            }
            placed = placed + 1;
        }
    }
}

impl GridView {
    /// The free indices below `n` ascend, lie below `n` and are free.
    pub proof fn lemma_free_prefix(self, n: int)
        requires
            0 <= n,
        ensures
            forall|a: int, b: int|
                0 <= a < b < self.free_prefix(n).len() ==> #[trigger] self.free_prefix(n)[a]
                    < #[trigger] self.free_prefix(n)[b],
            forall|a: int|
                0 <= a < self.free_prefix(n).len() ==> 0 <= #[trigger] self.free_prefix(n)[a] < n
                    && self.is_free_index(self.free_prefix(n)[a]),
        decreases n,
    {
        reveal_with_fuel(Seq::filter, 1);
        let f = |i: int| self.is_free_index(i);
        let s = Seq::new(n as nat, |i: int| i);
        if n > 0 {
            self.lemma_free_prefix(n - 1);
            let prev = self.free_prefix(n - 1);
            assert(s.drop_last() =~= Seq::new((n - 1) as nat, |i: int| i));
            assert(s.last() == n - 1);
            assert(s.filter(f) == if f(s.last()) {
                s.drop_last().filter(f).push(s.last())
            } else {
                s.drop_last().filter(f)
            });
            let cur = self.free_prefix(n);
            if f(n - 1) {
                assert(cur == prev.push(n - 1));
                assert forall|a: int, b: int| 0 <= a < b < cur.len() implies #[trigger] cur[a]
                    < #[trigger] cur[b] by {
                    if b < prev.len() {
                        assert(prev[a] < prev[b]);
                    } else {
                        assert(prev[a] < n - 1);
                    }
                }
                assert forall|a: int| 0 <= a < cur.len() implies 0 <= #[trigger] cur[a] < n
                    && self.is_free_index(cur[a]) by {
                    if a < prev.len() {
                        assert(cur[a] == prev[a]);
                    }
                }
            } else {
                assert(cur == prev);
            }
        } else {
            assert(self.free_prefix(n) =~= Seq::<int>::empty());
        }
    }
}

proof fn lemma_ascending_no_duplicates(s: Seq<usize>)
    requires
        forall|a: int, b: int| 0 <= a < b < s.len() ==> #[trigger] s[a] < #[trigger] s[b],
    ensures
        s.no_duplicates(),
{
    assert forall|a: int, b: int| 0 <= a < s.len() && 0 <= b < s.len() && a != b implies s[a]
        != s[b] by {
        if a < b {
            assert(s[a] < s[b]);
        } else {
            assert(s[b] < s[a]);
        }
    }
}

/// The two rounds of `place_resources` together make a placement.
#[verifier::rlimit(60)]
proof fn lemma_placement(
    g0: GridView,
    c: GridView,
    e: GridView,
    fin: GridView,
    f0: Seq<usize>,
    f1: Seq<usize>,
    energy: int,
    crystals: int,
)
    requires
        energy >= 0,
        crystals >= 0,
        c.tiles.len() <= usize::MAX,
        c == g0.without_resources(),
        c.wf(),
        e.wf(),
        fin.wf(),
        c.resources.len() == 0,
        f0.len() == c.free_list().len(),
        forall|k: int| 0 <= k < f0.len() ==> #[trigger] f0[k] == c.free_list()[k],
        e.width == c.width,
        e.height == c.height,
        e.base == c.base,
        fin.width == c.width,
        fin.height == c.height,
        fin.base == c.base,
        e.resources.len() == min_int(energy, f0.len() as int),
        fin.resources.len() == e.resources.len() + min_int(crystals, f1.len() as int),
        f1.len() == f0.len() - e.resources.len(),
        fin.resources.subrange(0, e.resources.len() as int) == e.resources,
        forall|k: int|
            0 <= k < e.resources.len() ==> {
                let r = #[trigger] e.resources[k];
                &&& r.resource_type == ResourceType::Energy
                &&& MIN_RESOURCE_AMOUNT <= r.remaining <= MAX_RESOURCE_AMOUNT
                &&& f0.contains(e.index_of(r.position) as usize)
            },
        forall|k: int|
            0 <= k < f1.len() ==> f0.contains(#[trigger] f1[k]),
        forall|k: int|
            e.resources.len() <= k < fin.resources.len() ==> {
                let r = #[trigger] fin.resources[k];
                &&& r.resource_type == ResourceType::Crystal
                &&& MIN_RESOURCE_AMOUNT <= r.remaining <= MAX_RESOURCE_AMOUNT
                &&& f1.contains(fin.index_of(r.position) as usize)
            },
        e.tiles.len() == c.tiles.len(),
        fin.tiles.len() == c.tiles.len(),
        forall|j: int|
            0 <= j < e.tiles.len() ==> #[trigger] e.tiles[j] == if has_resource_at(
                e.resources.subrange(0, e.resources.len() as int),
                c.position_of(j),
            ) {
                Tile::Resource(ResourceType::Energy)
            } else {
                c.tiles[j]
            },
        forall|j: int|
            0 <= j < fin.tiles.len() ==> #[trigger] fin.tiles[j] == if has_resource_at(
                fin.resources.subrange(e.resources.len() as int, fin.resources.len() as int),
                e.position_of(j),
            ) {
                Tile::Resource(ResourceType::Crystal)
            } else {
                e.tiles[j]
            },
    ensures
        fin.is_placement_of(g0, energy, crystals),
{
    let fl = c.free_list();
    let ne = e.resources.len() as int;
    assert(e.resources.subrange(0, ne) =~= e.resources);
    let cpart = fin.resources.subrange(ne, fin.resources.len() as int);
    assert forall|k: int| 0 <= k < fin.resources.len() implies {
        let r = #[trigger] fin.resources[k];
        &&& r.resource_type == (if k < ne {
            ResourceType::Energy
        } else {
            ResourceType::Crystal
        })
        &&& MIN_RESOURCE_AMOUNT <= r.remaining <= MAX_RESOURCE_AMOUNT
        &&& fl.contains(fin.index_of(r.position))
    } by {
        let r = fin.resources[k];
        assert(fin.in_bounds(r.position));
        fin.lemma_index_in_range(r.position);
        let x = fin.index_of(r.position);
        if k < ne {
            assert(fin.resources.subrange(0, ne)[k] == fin.resources[k]);
            assert(e.resources[k] == r);
            assert(e.index_of(r.position) == x);
            assert(f0.contains(x as usize));
        } else {
            assert(f1.contains(x as usize));
            let a = choose|a: int| 0 <= a < f1.len() && f1[a] == x as usize;
            assert(f0.contains(f1[a]));
        }
        let kk = choose|kk: int| 0 <= kk < f0.len() && f0[kk] == x as usize;
        assert(fl[kk] == f0[kk]);
        assert(fl[kk] == x);
    }
    assert forall|j: int| 0 <= j < fin.tiles.len() implies #[trigger] fin.tiles[j] == if has_resource_at(
        fin.resources,
        c.position_of(j),
    ) {
        Tile::Resource(resource_map(fin.resources)[c.position_of(j)].resource_type)
    } else {
        c.tiles[j]
    } by {
        let q = c.position_of(j);
        assert(e.position_of(j) == q);
        assert(e.tiles[j] == if has_resource_at(e.resources, q) {
            Tile::Resource(ResourceType::Energy)
        } else {
            c.tiles[j]
        });
        if has_resource_at(cpart, q) {
            let a = choose|a: int| 0 <= a < cpart.len() && #[trigger] cpart[a].position == q;
            assert(cpart[a] == fin.resources[ne + a]);
            crate::knowledge::lemma_resource_map_index(fin.resources, ne + a);
        } else if has_resource_at(e.resources, q) {
            let a = choose|a: int| 0 <= a < e.resources.len() && #[trigger] e.resources[a].position == q;
            assert(fin.resources.subrange(0, ne)[a] == fin.resources[a]);
            assert(fin.resources[a] == e.resources[a]);
            crate::knowledge::lemma_resource_map_index(fin.resources, a);
        } else {
            if has_resource_at(fin.resources, q) {
                let a = choose|a: int| 0 <= a < fin.resources.len() && #[trigger] fin.resources[a].position == q;
                if a < ne {
                    assert(fin.resources.subrange(0, ne)[a] == fin.resources[a]);
                    assert(e.resources[a].position == q);
                } else {
                    assert(cpart[a - ne] == fin.resources[a]);
                    assert(cpart[a - ne].position == q);
                }
            }
        }
    }
}

impl Grid {
    /// Removes every deposit and places new ones; see
    /// `GridView::is_placement_of`. Each deposit's free tile and amount are
    /// drawn from `rand`'s `StdRng` seeded by `params.seed`, and the grid is
    /// exactly what `GridView::placed_on_draws` gives for the values drawn.
    /// Which values the generator yields is not stated: `rand` documents
    /// `StdRng` as not portable.
    pub fn place_resources(&mut self, params: ResourceParams)
        requires
            old(self).wf(),
        ensures
            final(self).wf(),
            final(self)@.is_placement_of(old(self)@, params.energy as int, params.crystals as int),
            ({
                let n = old(self)@.without_resources().free_list().len() as int;
                exists|de: Seq<(int, u16)>, dc: Seq<(int, u16)>|
                    #![trigger old(self)@.placed_on_draws(de, dc)]
                    de.len() == min_int(params.energy as int, n) && dc.len() == min_int(
                        params.crystals as int,
                        n - de.len(),
                    ) && valid_draws(n, de) && valid_draws(n - de.len(), dc) && final(self)@
                        == old(self)@.placed_on_draws(de, dc)
            }),
    {
        let mut rng = seeded_rng(params.seed);
        let ghost g0 = self@;
        self.clear_resources();
        let ghost c = self@;
        assert(c.tiles.len() == self.tiles.len());
        let mut free_tiles = self.free_tiles();
        proof {
            c.lemma_free_prefix(c.tiles.len() as int);
            assert forall|a: int, b: int| 0 <= a < b < free_tiles@.len() implies #[trigger] free_tiles@[a]
                < #[trigger] free_tiles@[b] by {
                assert(c.free_list()[a] < c.free_list()[b]);
            }
            lemma_ascending_no_duplicates(free_tiles@);
            assert forall|k: int| 0 <= k < free_tiles@.len() implies (#[trigger] free_tiles@[k])
                < c.tiles.len() && c.is_free_index(free_tiles@[k] as int) by {
                assert(c.free_list()[k] == free_tiles@[k]);
            }
        }
        let ghost f0 = free_tiles@;
        self.place_resource_type(ResourceType::Energy, params.energy, &mut rng, &mut free_tiles);
        let ghost e = self@;
        let ghost f1 = free_tiles@;
        self.place_resource_type(ResourceType::Crystal, params.crystals, &mut rng, &mut free_tiles);
        proof {
            lemma_placement(g0, c, e, self@, f0, f1, params.energy as int, params.crystals as int);
            assert(f0 =~= c.free_tiles_drawn());
            let de = choose|d: Seq<(int, u16)>|
                #![trigger c.drawn_steps(f0, ResourceType::Energy, d)]
                d.len() == e.resources.len() - c.resources.len() && valid_draws(f0.len() as int, d) && (
                e,
                f1,
            ) == c.drawn_steps(f0, ResourceType::Energy, d);
            let dc = choose|d: Seq<(int, u16)>|
                #![trigger e.drawn_steps(f1, ResourceType::Crystal, d)]
                d.len() == self@.resources.len() - e.resources.len() && valid_draws(f1.len() as int, d)
                    && (self@, free_tiles@) == e.drawn_steps(f1, ResourceType::Crystal, d);
            assert(c == g0.without_resources());
            assert(self@ == g0.placed_on_draws(de, dc));
        }
    }

    /// An empty grid with its base placed; fails on a grid without tiles.
    pub fn with_base(width: usize, height: usize) -> (r: Result<Self, GridError>)
        requires
            width * height <= usize::MAX,
            width * height > 0 ==> width <= i32::MAX && height <= i32::MAX,
        ensures
            match r {
                Ok(g) => g.wf() && empty_grid(width as int, height as int).in_bounds(
                    empty_grid(width as int, height as int).default_base(),
                ) && g@ == empty_grid(width as int, height as int).with_base_placed(),
                Err(e) => !empty_grid(width as int, height as int).in_bounds(
                    empty_grid(width as int, height as int).default_base(),
                ) && e == GridError::OutOfBounds(
                    empty_grid(width as int, height as int).default_base(),
                ),
            },
    {
        let mut grid = Self::new(width, height);
        grid.place_base()?;
        Ok(grid)
    }

    /// An empty grid with deposits placed; see `GridView::is_placement_of`.
    pub fn with_resources(width: usize, height: usize, params: ResourceParams) -> (g: Self)
        requires
            width * height <= usize::MAX,
            width * height > 0 ==> width <= i32::MAX && height <= i32::MAX,
        ensures
            g.wf(),
            g@.is_placement_of(
                empty_grid(width as int, height as int),
                params.energy as int,
                params.crystals as int,
            ),
            ({
                let e = empty_grid(width as int, height as int);
                let n = e.without_resources().free_list().len() as int;
                exists|de: Seq<(int, u16)>, dc: Seq<(int, u16)>|
                    #![trigger e.placed_on_draws(de, dc)]
                    de.len() == min_int(params.energy as int, n) && dc.len() == min_int(
                        params.crystals as int,
                        n - de.len(),
                    ) && valid_draws(n, de) && valid_draws(n - de.len(), dc) && g@ == e.placed_on_draws(
                        de,
                        dc,
                    )
            }),
    {
        let mut grid = Self::new(width, height);
        grid.place_resources(params);
        grid
    }
}

impl GridView {
    /// The outrankers below `k` are finite, at most `k` of them, and grow by
    /// one index at a time.
    pub proof fn lemma_outrankers_step(self, scores: Seq<Option<i64>>, i: int, k: int)
        requires
            0 <= k,
        ensures
            self.outrankers(scores, i, k).finite(),
            self.outrankers(scores, i, k).len() <= k,
            self.outrankers(scores, i, k + 1) == if self.is_obstacle_candidate(scores, k) && outranks(
                scores,
                k,
                i,
            ) {
                self.outrankers(scores, i, k).insert(k)
            } else {
                self.outrankers(scores, i, k)
            },
            !self.outrankers(scores, i, k).contains(k),
    {
        vstd::set_lib::lemma_int_range(0, k);
        vstd::set_lib::lemma_len_subset(self.outrankers(scores, i, k), vstd::set_lib::set_int_range(0, k));
        if self.is_obstacle_candidate(scores, k) && outranks(scores, k, i) {
            assert(self.outrankers(scores, i, k + 1) =~= self.outrankers(scores, i, k).insert(k));
        } else {
            assert(self.outrankers(scores, i, k + 1) =~= self.outrankers(scores, i, k));
        }
    }
}

/// Whether a tile is one that obstacle generation leaves alone.
fn is_kept(t: Tile) -> (r: bool)
    ensures
        r == (t == Tile::Base || t is Resource),
{
    matches!(t, Tile::Base | Tile::Resource(_))
}

/// The sort entry of candidate `j`: its key turned so that a higher key
/// comes first, then its index.
pub open spec fn rank_entry(scores: Seq<Option<i64>>, j: int) -> (i64, usize) {
    ((-1 - scores[j].unwrap()) as i64, j as usize)
}

/// `a` comes no later than `b` in the order of pairs (first field, then
/// second).
pub open spec fn pair_le(a: (i64, usize), b: (i64, usize)) -> bool {
    a.0 < b.0 || (a.0 == b.0 && a.1 <= b.1)
}

/// `slice::sort` on pairs of integers: the entries stay the same and come
/// out in ascending order, pairs being ordered by their first field, then
/// their second (std's documented order on tuples).
#[verifier::external_body]
fn sort_pairs(v: &mut Vec<(i64, usize)>)
    ensures
        final(v)@.to_multiset() == old(v)@.to_multiset(),
        forall|a: int, b: int|
            0 <= a < b < final(v)@.len() ==> pair_le(#[trigger] final(v)@[a], #[trigger] final(v)@[b]),
{
    v.sort();
}

impl GridView {
    /// In a sorted list of the candidates' entries, the candidate at position
    /// `q` has exactly `q` candidates ranked before it.
    proof fn lemma_rank_is_position(self, scores: Seq<Option<i64>>, s: Seq<(i64, usize)>, q: int)
        requires
            scores.len() == self.tiles.len(),
            self.tiles.len() <= usize::MAX,
            s.no_duplicates(),
            forall|a: int, b: int| 0 <= a < b < s.len() ==> pair_le(#[trigger] s[a], #[trigger] s[b]),
            forall|a: int|
                0 <= a < s.len() ==> (#[trigger] s[a]).1 < self.tiles.len()
                    && self.is_obstacle_candidate(scores, s[a].1 as int) && s[a] == rank_entry(
                    scores,
                    s[a].1 as int,
                ),
            forall|j: int|
                0 <= j < self.tiles.len() && self.is_obstacle_candidate(scores, j) ==> s.contains(
                    #[trigger] rank_entry(scores, j),
                ),
            0 <= q < s.len(),
        ensures
            self.obstacle_rank(scores, s[q].1 as int) == q,
    {
        let n = self.tiles.len() as int;
        let t = s[q].1 as int;
        let o = self.outrankers(scores, t, n);
        let f = |a: int| s[a].1 as int;
        let range = vstd::set_lib::set_int_range(0, q);
        assert forall|a: int, b: int| 0 <= a < b < s.len() implies s[a] != s[b] by {}
        assert forall|j: int| o.contains(j) implies range.map(f).contains(j) by {
            assert(s.contains(rank_entry(scores, j)));
            let a = choose|a: int| 0 <= a < s.len() && s[a] == rank_entry(scores, j);
            assert(s[a].1 == j);
            if a >= q {
                if a == q {
                    assert(j == t);
                } else {
                    assert(pair_le(s[q], s[a]));
                }
            }
            assert(range.contains(a));
            assert(f(a) == j);
        }
        assert forall|j: int| range.map(f).contains(j) implies o.contains(j) by {
            let a = choose|a: int| range.contains(a) && f(a) == j;
            assert(pair_le(s[a], s[q]));
            assert(s[a] != s[q]);
        }
        assert(o =~= range.map(f));
        assert forall|x1: int, x2: int|
            range.contains(x1) && range.contains(x2) && #[trigger] f(x1) == #[trigger] f(x2) implies x1
            == x2 by {
            assert(s[x1] == rank_entry(scores, s[x1].1 as int));
            assert(s[x2] == rank_entry(scores, s[x2].1 as int));
        }
        vstd::set_lib::lemma_int_range(0, q);
        vstd::set_lib::lemma_map_size(range, range.map(f), f);
    }
}

impl Grid {
    /// Obstacle generation from scores worked out elsewhere: `scores[i]` is
    /// the key of tile `i` when its noise value reached the threshold (keys
    /// order tiles as their values do) and `None` otherwise. The candidates
    /// are sorted by key, highest first (ties by index), and the first
    /// `max_tiles` become obstacles. See `GridView::with_obstacles_ranked`.
    pub fn generate_obstacles_ranked(&mut self, scores: &Vec<Option<i64>>, max_tiles: usize)
        requires
            old(self).wf(),
            scores@.len() == old(self)@.tiles.len(),
        ensures
            final(self).wf(),
            final(self)@ == old(self)@.with_obstacles_ranked(scores@, max_tiles as int),
    {
        let n = self.tiles.len();
        let ghost g0 = self@;
        let mut entries: Vec<(i64, usize)> = Vec::new();
        let mut idx: usize = 0;
        while idx < n
            invariant
                self@ == g0,
                g0.shape_wf(),
                n == g0.tiles.len(),
                scores@.len() == n,
                idx <= n,
                forall|a: int, b: int|
                    0 <= a < b < entries@.len() ==> (#[trigger] entries@[a]).1 < (#[trigger] entries@[b]).1,
                forall|a: int|
                    0 <= a < entries@.len() ==> (#[trigger] entries@[a]).1 < idx
                        && g0.is_obstacle_candidate(scores@, entries@[a].1 as int) && entries@[a]
                        == rank_entry(scores@, entries@[a].1 as int),
                forall|j: int|
                    0 <= j < idx && g0.is_obstacle_candidate(scores@, j) ==> entries@.contains(
                        #[trigger] rank_entry(scores@, j),
                    ),
            decreases n - idx,
        {
            if !is_kept(self.tiles[idx]) && !self.is_spawn_idx(idx) {
                if let Some(key) = scores[idx] {
                    let ghost before = entries@;
                    entries.push((-1 - key, idx));
                    proof {
                        assert(entries@[entries@.len() - 1] == rank_entry(scores@, idx as int));
                        assert forall|j: int|
                            0 <= j < idx + 1 && g0.is_obstacle_candidate(scores@, j) implies entries@.contains(
                            #[trigger] rank_entry(scores@, j),
                        ) by {
                            if j < idx {
                                let a = choose|a: int| 0 <= a < before.len() && before[a] == rank_entry(scores@, j);
                                assert(entries@[a] == before[a]);
                            } else {
                                assert(entries@[entries@.len() - 1] == rank_entry(scores@, j));
                            }
                        }
                    }
                }
            }
            idx = idx + 1;
        }
        proof {
            let e = entries@;
            assert forall|a: int, b: int| 0 <= a < e.len() && 0 <= b < e.len() && a != b implies e[a] != e[b] by {
                if a < b {
                    assert(e[a].1 < e[b].1);
                } else {
                    assert(e[b].1 < e[a].1);
                }
            }
            e.lemma_multiset_has_no_duplicates();
        }
        let ghost unsorted = entries@;
        sort_pairs(&mut entries);
        proof {
            let sorted = entries@;
            broadcast use vstd::seq_lib::group_to_multiset_ensures;
            assert(sorted.len() == unsorted.len()) by {
                assert(sorted.to_multiset().len() == unsorted.to_multiset().len());
            }
            sorted.lemma_multiset_has_no_duplicates_conv();
            assert forall|x: (i64, usize)| sorted.contains(x) == unsorted.contains(x) by {
                assert(sorted.to_multiset().count(x) == unsorted.to_multiset().count(x));
            }
            assert forall|a: int| 0 <= a < sorted.len() implies (#[trigger] sorted[a]).1 < n
                && g0.is_obstacle_candidate(scores@, sorted[a].1 as int) && sorted[a] == rank_entry(
                scores@,
                sorted[a].1 as int,
            ) by {
                assert(sorted.contains(sorted[a]));
                assert(unsorted.contains(sorted[a]));
                let b = choose|b: int| 0 <= b < unsorted.len() && unsorted[b] == sorted[a];
            }
            assert forall|j: int| 0 <= j < n && g0.is_obstacle_candidate(scores@, j) implies entries@.contains(
                #[trigger] rank_entry(scores@, j),
            ) by {
                assert(unsorted.contains(rank_entry(scores@, j)));
            }
        }
        let mut i: usize = 0;
        while i < n
            invariant
                g0.wf(),
                n == g0.tiles.len(),
                i <= n,
                self@.width == g0.width,
                self@.height == g0.height,
                self@.resources == g0.resources,
                self@.base == g0.base,
                self@.tiles.len() == n,
                forall|j: int|
                    0 <= j < n ==> #[trigger] self@.tiles[j] == if j < i && !g0.keeps_tile(j) {
                        Tile::Empty
                    } else {
                        g0.tiles[j]
                    },
            decreases n - i,
        {
            if !is_kept(self.tiles[i]) {
                self.tiles.set(i, Tile::Empty);
            }
            i = i + 1;
        }
        let mut q: usize = 0;
        while q < entries.len() && q < max_tiles
            invariant
                g0.wf(),
                n == g0.tiles.len(),
                scores@.len() == n,
                q <= entries@.len(),
                q <= max_tiles,
                self@.width == g0.width,
                self@.height == g0.height,
                self@.resources == g0.resources,
                self@.base == g0.base,
                self@.tiles.len() == n,
                forall|a: int|
                    0 <= a < entries@.len() ==> (#[trigger] entries@[a]).1 < n
                        && g0.is_obstacle_candidate(scores@, entries@[a].1 as int),
                forall|j: int|
                    0 <= j < n ==> #[trigger] self@.tiles[j] == if g0.keeps_tile(j) {
                        g0.tiles[j]
                    } else if exists|a: int| 0 <= a < q && (#[trigger] entries@[a]).1 == j {
                        Tile::Obstacle
                    } else {
                        Tile::Empty
                    },
            decreases entries@.len() - q,
        {
            let t = entries[q].1;
            self.tiles.set(t, Tile::Obstacle);
            proof {
                assert forall|j: int| 0 <= j < n implies #[trigger] self@.tiles[j] == if g0.keeps_tile(j) {
                    g0.tiles[j]
                } else if exists|a: int| 0 <= a < q + 1 && (#[trigger] entries@[a]).1 == j {
                    Tile::Obstacle
                } else {
                    Tile::Empty
                } by {
                    if j == t as int {
                        assert(entries@[q as int].1 == j);
                    } else if exists|a: int| 0 <= a < q + 1 && (#[trigger] entries@[a]).1 == j {
                        let a = choose|a: int| 0 <= a < q + 1 && (#[trigger] entries@[a]).1 == j;
                        assert(a < q);
                    }
                }
            }
            q = q + 1;
        }
        proof {
            let target = g0.with_obstacles_ranked(scores@, max_tiles as int);
            let sorted = entries@;
            assert forall|j: int| 0 <= j < n implies self@.tiles[j] == target.tiles[j] by {
                if !g0.keeps_tile(j) {
                    if exists|a: int| 0 <= a < q && (#[trigger] sorted[a]).1 == j {
                        let a = choose|a: int| 0 <= a < q && (#[trigger] sorted[a]).1 == j;
                        g0.lemma_rank_is_position(scores@, sorted, a);
                        assert(g0.is_obstacle_candidate(scores@, j));
                        assert(g0.obstacle_rank(scores@, j) < max_tiles);
                    } else if g0.is_obstacle_candidate(scores@, j) {
                        assert(sorted.contains(rank_entry(scores@, j)));
                        let a = choose|a: int| 0 <= a < sorted.len() && sorted[a] == rank_entry(scores@, j);
                        g0.lemma_rank_is_position(scores@, sorted, a);
                        assert(sorted[a].1 == j);
                        assert(a >= q);
                    }
                }
            }
            assert(self@.tiles =~= target.tiles);
            assert(self@ =~= target);
            g0.lemma_obstacles_ranked_wf(scores@, max_tiles as int);
        }
    }
}

impl GridView {
    /// Obstacle generation keeps every grid invariant.
    pub proof fn lemma_obstacles_ranked_wf(self, scores: Seq<Option<i64>>, max_tiles: int)
        requires
            self.wf(),
        ensures
            self.with_obstacles_ranked(scores, max_tiles).wf(),
    {
        let n = self.with_obstacles_ranked(scores, max_tiles);
        assert forall|i: int| 0 <= i < n.resources.len() implies {
            let r = #[trigger] n.resources[i];
            &&& n.in_bounds(r.position)
            &&& n.tile(r.position) == Tile::Resource(r.resource_type)
            &&& r.remaining > 0
            &&& r.remaining <= MAX_RESOURCE_AMOUNT
        } by {
            let r = n.resources[i];
            self.lemma_index_in_range(r.position);
        }
        if let Some(b) = self.base {
            self.lemma_index_in_range(b);
        }
        assert forall|p: Position| n.in_bounds(p) && #[trigger] n.tile(p) == Tile::Base implies n.base
            == Some(p) by {
            self.lemma_index_in_range(p);
            let k = self.index_of(p);
            assert(n.tiles[k] == (if self.keeps_tile(k) {
                self.tiles[k]
            } else if self.is_obstacle_candidate(scores, k) && self.obstacle_rank(scores, k) < max_tiles {
                Tile::Obstacle
            } else {
                Tile::Empty
            }));
            assert(self.tile(p) == Tile::Base);
        }
    }
}

impl GridView {
    /// A candidate that ranks before another has the smaller rank.
    pub proof fn lemma_rank_strict(self, scores: Seq<Option<i64>>, j: int, i: int)
        requires
            0 <= j < self.tiles.len(),
            0 <= i < self.tiles.len(),
            self.is_obstacle_candidate(scores, j),
            outranks(scores, j, i),
        ensures
            self.obstacle_rank(scores, j) < self.obstacle_rank(scores, i),
    {
        let n = self.tiles.len() as int;
        self.lemma_outrankers_step(scores, i, n);
        self.lemma_outrankers_step(scores, j, n);
        let oi = self.outrankers(scores, i, n);
        let oj = self.outrankers(scores, j, n);
        assert(!oj.contains(j));
        assert(oj.insert(j).subset_of(oi));
        vstd::set_lib::lemma_len_subset(oj.insert(j), oi);
    }

    /// Obstacle generation marks at most `max_tiles` tiles as obstacles.
    pub proof fn law_obstacles_are_capped(self, scores: Seq<Option<i64>>, max_tiles: int)
        requires
            scores.len() == self.tiles.len(),
            0 <= max_tiles,
        ensures
            Set::new(
                |i: int|
                    0 <= i < self.tiles.len() && self.with_obstacles_ranked(scores, max_tiles).tiles[i]
                        == Tile::Obstacle,
            ).len() <= max_tiles,
    {
        let n = self.tiles.len() as int;
        let g2 = self.with_obstacles_ranked(scores, max_tiles);
        let o = Set::new(|i: int| 0 <= i < n && g2.tiles[i] == Tile::Obstacle);
        let c = Set::new(
            |i: int|
                0 <= i < n && self.is_obstacle_candidate(scores, i) && self.obstacle_rank(scores, i)
                    < max_tiles,
        );
        assert forall|i: int| o.contains(i) implies c.contains(i) by {
            assert(g2.tiles[i] == (if self.keeps_tile(i) {
                self.tiles[i]
            } else if self.is_obstacle_candidate(scores, i) && self.obstacle_rank(scores, i)
                < max_tiles {
                Tile::Obstacle
            } else {
                Tile::Empty
            }));
        }
        vstd::set_lib::lemma_int_range(0, n);
        vstd::set_lib::lemma_len_subset(c, vstd::set_lib::set_int_range(0, n));
        let f = |i: int| self.obstacle_rank(scores, i) as int;
        assert forall|x1: int, x2: int|
            c.contains(x1) && c.contains(x2) && #[trigger] f(x1) == #[trigger] f(x2) implies x1
            == x2 by {
            if x1 != x2 {
                if outranks(scores, x1, x2) {
                    self.lemma_rank_strict(scores, x1, x2);
                } else {
                    assert(outranks(scores, x2, x1));
                    self.lemma_rank_strict(scores, x2, x1);
                }
            }
        }
        vstd::set_lib::lemma_map_size(c, c.map(f), f);
        vstd::set_lib::lemma_int_range(0, max_tiles);
        assert(c.map(f).subset_of(vstd::set_lib::set_int_range(0, max_tiles)));
        vstd::set_lib::lemma_len_subset(c.map(f), vstd::set_lib::set_int_range(0, max_tiles));
        vstd::set_lib::lemma_len_subset(o, c);
    }
}

/// Every deposit of a grid lies in bounds on a tile of its own kind, holds
/// between one unit and the greatest amount placed, and no two deposits
/// share a tile; every grid operation keeps this.
pub proof fn law_deposits_stay_in_range(g: GridView, i: int)
    requires
        g.wf(),
        0 <= i < g.resources.len(),
    ensures
        g.in_bounds(g.resources[i].position),
        g.get_tile(g.resources[i].position) == Some(Tile::Resource(g.resources[i].resource_type)),
        1 <= g.resources[i].remaining <= MAX_RESOURCE_AMOUNT,
        forall|j: int| 0 <= j < g.resources.len() && j != i ==> g.resources[j].position != g.resources[i].position,
{
    let r = g.resources[i];
    assert(g.in_bounds(r.position));
}

/// The grid after `k` takes at `pos`.
pub open spec fn after_takes(g: GridView, pos: Position, k: nat) -> GridView
    decreases k,
{
    if k == 0 {
        g
    } else {
        after_takes(g.after_take(pos).0, pos, (k - 1) as nat)
    }
}

/// Tracks a deposit through repeated takes: after `k` of them it holds `k`
/// fewer units, and once its units are gone it is gone with its tile.
proof fn lemma_takes(g: GridView, pos: Position, k: nat)
    requires
        unique_positions(g.resources),
        has_resource_at(g.resources, pos),
        0 < g.resources[resource_index(g.resources, pos)].remaining,
        k <= g.resources[resource_index(g.resources, pos)].remaining,
        g.in_bounds(pos),
        g.tiles.len() == g.width * g.height,
    ensures
        ({
            let n = g.resources[resource_index(g.resources, pos)];
            let h = after_takes(g, pos, k);
            &&& unique_positions(h.resources)
            &&& h.tiles.len() == g.tiles.len()
            &&& h.width == g.width
            &&& h.height == g.height
            &&& k < n.remaining ==> has_resource_at(h.resources, pos) && h.resources[resource_index(
                h.resources,
                pos,
            )] == (ResourceNode { remaining: (n.remaining - k) as u16, ..n })
            &&& k == n.remaining ==> !has_resource_at(h.resources, pos) && h.tile(pos) == Tile::Empty
        }),
    decreases k,
{
    let i = resource_index(g.resources, pos);
    let n = g.resources[i];
    assert(n.position == pos);
    if k == 0 {
    } else {
        let g1 = g.after_take(pos).0;
        g.lemma_index_in_range(pos);
        if n.remaining == 1 {
            crate::knowledge::lemma_resource_map_remove(g.resources, i);
            lemma_without_resource_at(g.resources, pos);
            assert(without_resource_at(g.resources, pos) == g.resources.remove(i));
            assert(k == 1);
            assert(after_takes(g1, pos, 0) == g1);
        } else {
            let n2 = ResourceNode { remaining: (n.remaining - 1) as u16, ..n };
            crate::knowledge::lemma_resource_map_update(g.resources, i, n2);
            assert(g1.resources[i].position == pos);
            assert(has_resource_at(g1.resources, pos));
            let i1 = resource_index(g1.resources, pos);
            assert(g1.resources[i1].position == pos);
            assert(i1 == i);
            lemma_takes(g1, pos, (k - 1) as nat);
        }
    }
}

/// Taking from a deposit as many times as it holds units yields its kind
/// each time; then the deposit is gone, its tile is empty, and a further
/// take yields nothing.
pub proof fn law_taking_exhausts_deposit(g: GridView, pos: Position, k: nat)
    requires
        g.wf(),
        has_resource_at(g.resources, pos),
    ensures
        ({
            let n = g.resources[resource_index(g.resources, pos)];
            &&& k < n.remaining ==> after_takes(g, pos, k).after_take(pos).1 == Some(n.resource_type)
            &&& !has_resource_at(after_takes(g, pos, n.remaining as nat).resources, pos)
            &&& after_takes(g, pos, n.remaining as nat).tile(pos) == Tile::Empty
            &&& after_takes(g, pos, n.remaining as nat).after_take(pos).1 is None
        }),
{
    let i = resource_index(g.resources, pos);
    let n = g.resources[i];
    assert(n.position == pos);
    assert(g.in_bounds(n.position));
    lemma_takes(g, pos, n.remaining as nat);
    if k < n.remaining {
        lemma_takes(g, pos, k);
    }
}

/// Writing an in-bounds tile and reading it back gives the tile written; the
/// other tiles are unchanged, but for the former base's tile when a new base
/// is written.
pub proof fn law_set_tile_reads_back(g: GridView, pos: Position, tile: Tile, q: Position)
    requires
        g.wf(),
        g.in_bounds(pos),
    ensures
        g.with_tile(pos, tile).get_tile(pos) == Some(tile),
        q != pos && !(tile == Tile::Base && g.base == Some(q)) ==> g.with_tile(pos, tile).get_tile(q)
            == g.get_tile(q),
{
    g.lemma_index_in_range(pos);
    if let Some(b) = g.base {
        g.lemma_index_in_range(b);
    }
    if q != pos && g.in_bounds(q) {
        g.lemma_index_in_range(q);
        if g.index_of(q) == g.index_of(pos) {
            g.lemma_index_injective(q, pos);
        }
        if let Some(b) = g.base {
            if g.index_of(q) == g.index_of(b) {
                g.lemma_index_injective(q, b);
            }
        }
    }
}

/// The first blocked position of a list of walkable positions is none.
proof fn lemma_first_blocked_none(g: GridView, s: Seq<Position>)
    requires
        forall|i: int| 0 <= i < s.len() ==> g.is_walkable(#[trigger] s[i]),
    ensures
        g.first_blocked(s) is None,
    decreases s.len(),
{
    if s.len() > 0 {
        assert(g.is_walkable(s[0]));
        assert forall|i: int| 0 <= i < s.drop_first().len() implies g.is_walkable(
            #[trigger] s.drop_first()[i],
        ) by {
            assert(s.drop_first()[i] == s[i + 1]);
        }
        lemma_first_blocked_none(g, s.drop_first());
    }
}

/// After the base is placed, it stands in the middle on its own tile, every
/// in-bounds neighbour is a walkable spawn tile, and the grid is ready to
/// start unless the grid is a single tile (which has no neighbour).
pub proof fn law_placed_base_is_ready(g: GridView)
    requires
        g.wf(),
        g.in_bounds(g.default_base()),
    ensures
        g.with_base_placed().base == Some(g.default_base()),
        g.with_base_placed().get_tile(g.default_base()) == Some(Tile::Base),
        g.with_base_placed().spawn_positions() == g.base_neighbors(g.default_base()),
        g.with_base_placed().start_check() == if g.base_neighbors(g.default_base()).len() == 0 {
            Err::<(), ValidationError>(ValidationError::NoSpawn)
        } else {
            Ok::<(), ValidationError>(())
        },
{
    let pos = g.default_base();
    let n = g.with_base_placed();
    let area = g.base_neighbors(pos);
    g.lemma_index_in_range(pos);
    assert(n.tile(pos) == Tile::Base);
    assert((|p: Position| n.in_bounds(p)) =~= (|p: Position| g.in_bounds(p)));
    assert(n.base_neighbors(pos) == area);
    assert forall|i: int| 0 <= i < area.len() implies n.is_walkable(#[trigger] area[i]) by {
        let q = area[i];
        assert(area.contains(q));
        neighbor_candidates(pos).lemma_filter_pred(|p: Position| g.in_bounds(p), i);
        assert(g.in_bounds(q));
        g.lemma_index_in_range(q);
        if q == pos {
            reveal_with_fuel(Seq::filter, 5);
            neighbor_candidates(pos).lemma_filter_contains_rev(|p: Position| g.in_bounds(p), q);
            let k = choose|k: int| 0 <= k < 4 && neighbor_candidates(pos)[k] == q;
            assert(k == 0 || k == 1 || k == 2 || k == 3);
        }
        assert(n.tile(q) == Tile::Empty);
    }
    lemma_first_blocked_none(n, area);
    crate::knowledge::lemma_filter_keeps_every(area, |p: Position| n.is_walkable(p));
}

/// When no position of `s` is blocked, all of them are walkable.
proof fn lemma_first_blocked_none_walkable(g: GridView, s: Seq<Position>)
    requires
        g.first_blocked(s) is None,
    ensures
        forall|i: int| 0 <= i < s.len() ==> g.is_walkable(#[trigger] s[i]),
    decreases s.len(),
{
    if s.len() > 0 {
        lemma_first_blocked_none_walkable(g, s.drop_first());
        assert forall|i: int| 0 <= i < s.len() implies g.is_walkable(#[trigger] s[i]) by {
            if i > 0 {
                assert(s[i] == s.drop_first()[i - 1]);
            }
        }
    }
}

/// Placing deposits keeps a grid that is ready to start ready: the base and
/// the spawn tiles never receive a deposit.
pub proof fn law_placement_keeps_start_ready(
    before: GridView,
    after: GridView,
    energy: int,
    crystals: int,
)
    requires
        before.wf(),
        after.is_placement_of(before, energy, crystals),
        before.start_check() == Ok::<(), ValidationError>(()),
    ensures
        after.base == before.base,
        after.start_check() == Ok::<(), ValidationError>(()),
{
    let b = before.base.unwrap();
    let c = before.without_resources();
    let fl = c.free_list();
    c.lemma_free_prefix(c.tiles.len() as int);
    let area = before.base_neighbors(b);
    assert(after.base_neighbors(b) == area) by {
        assert((|p: Position| after.in_bounds(p)) =~= (|p: Position| before.in_bounds(p)));
    }
    // no deposit lands on a tile that is not free in the cleared grid
    assert forall|q: Position| after.in_bounds(q) && #[trigger] has_resource_at(after.resources, q)
        implies c.is_free_index(c.index_of(q)) by {
        let k = choose|k: int| 0 <= k < after.resources.len() && after.resources[k].position == q;
        let r = after.resources[k];
        assert(fl.contains(after.index_of(r.position)));
        let a = choose|a: int| 0 <= a < fl.len() && fl[a] == after.index_of(r.position);
        assert(c.is_free_index(fl[a]));
    }
    // the base keeps its tile
    before.lemma_index_in_range(b);
    let bi = before.index_of(b);
    before.lemma_position_in_range(bi);
    assert(c.position_of(bi) == b);
    if has_resource_at(before.resources, b) {
        let k = choose|k: int| 0 <= k < before.resources.len() && before.resources[k].position == b;
        assert(before.tile(before.resources[k].position) == Tile::Resource(before.resources[k].resource_type));
    }
    assert(c.tiles[bi] == Tile::Base);
    assert(!has_resource_at(after.resources, b));
    assert(after.tiles[bi] == Tile::Base);
    assert(after.get_tile(b) == Some(Tile::Base));
    // the spawn tiles stay walkable
    lemma_first_blocked_none_walkable(before, area);
    assert forall|i: int| 0 <= i < area.len() implies after.is_walkable(#[trigger] area[i]) by {
        let q = area[i];
        neighbor_candidates(b).lemma_filter_pred(|p: Position| before.in_bounds(p), i);
        assert(area.contains(q));
        neighbor_candidates(b).lemma_filter_contains_rev(|p: Position| before.in_bounds(p), q);
        let m = choose|m: int| 0 <= m < 4 && neighbor_candidates(b)[m] == q;
        assert(m == 0 || m == 1 || m == 2 || m == 3);
        before.lemma_index_in_range(q);
        let qi = before.index_of(q);
        before.lemma_position_in_range(qi);
        assert(c.position_of(qi) == q);
        assert(c.is_spawn_index(qi));
        assert(!has_resource_at(after.resources, q));
        assert(before.is_walkable(q));
        assert(after.tiles[qi] == c.tiles[qi]);
    }
    lemma_first_blocked_none(after, area);
}

/// Placing the base removes only the deposits on the base's tile and on the
/// tiles next to it: every other deposit stays listed, as it was, and stays
/// on its tile.
pub proof fn law_base_keeps_other_deposits(g: GridView, i: int)
    requires
        g.wf(),
        g.in_bounds(g.default_base()),
        0 <= i < g.resources.len(),
        g.resources[i].position != g.default_base(),
        abs_int(g.resources[i].position.x - g.default_base().x) + abs_int(
            g.resources[i].position.y - g.default_base().y,
        ) != 1,
    ensures
        g.with_base_placed().resources.contains(g.resources[i]),
        g.with_base_placed().get_tile(g.resources[i].position) == Some(
            Tile::Resource(g.resources[i].resource_type),
        ),
{
    let b = g.default_base();
    let r = g.resources[i];
    let q = r.position;
    let area = g.base_neighbors(b);
    g.lemma_addressable(b);
    assert(!area.contains(q)) by {
        if area.contains(q) {
            neighbor_candidates(b).lemma_filter_contains_rev(|p: Position| g.in_bounds(p), q);
            let m = choose|m: int| 0 <= m < 4 && neighbor_candidates(b)[m] == q;
            assert(m == 0 || m == 1 || m == 2 || m == 3);
        }
    }
    let f = |x: ResourceNode| x.position != b && !area.contains(x.position);
    assert(f(g.resources[i]));
    g.resources.lemma_filter_contains(f, i);
    g.lemma_index_in_range(q);
    let k = g.index_of(q);
    assert(g.position_of(k) == q);
    assert(g.tile(q) == Tile::Resource(r.resource_type));
    if g.base == Some(q) {
        assert(g.tile(q) == Tile::Base);
    }
}

/// Obstacle generation keeps a grid that is ready to start ready.
pub proof fn law_obstacles_keep_start_ready(g: GridView, scores: Seq<Option<i64>>, max_tiles: int)
    requires
        g.wf(),
        scores.len() == g.tiles.len(),
        g.start_check() == Ok::<(), ValidationError>(()),
    ensures
        g.with_obstacles_ranked(scores, max_tiles).start_check() == Ok::<(), ValidationError>(()),
{
    let h = g.with_obstacles_ranked(scores, max_tiles);
    let b = g.base.unwrap();
    let area = g.base_neighbors(b);
    assert(h.base_neighbors(b) == area) by {
        assert((|p: Position| h.in_bounds(p)) =~= (|p: Position| g.in_bounds(p)));
    }
    g.lemma_index_in_range(b);
    let bi = g.index_of(b);
    assert(g.keeps_tile(bi));
    assert(h.tiles[bi] == Tile::Base);
    assert(h.get_tile(b) == Some(Tile::Base));
    lemma_first_blocked_none_walkable(g, area);
    assert forall|i: int| 0 <= i < area.len() implies h.is_walkable(#[trigger] area[i]) by {
        let q = area[i];
        neighbor_candidates(b).lemma_filter_pred(|p: Position| g.in_bounds(p), i);
        assert(area.contains(q));
        neighbor_candidates(b).lemma_filter_contains_rev(|p: Position| g.in_bounds(p), q);
        let m = choose|m: int| 0 <= m < 4 && neighbor_candidates(b)[m] == q;
        assert(m == 0 || m == 1 || m == 2 || m == 3);
        g.lemma_index_in_range(q);
        let qi = g.index_of(q);
        g.lemma_position_in_range(qi);
        assert(g.position_of(qi) == q);
        assert(g.is_spawn_index(qi));
        assert(g.is_walkable(q));
    }
    lemma_first_blocked_none(h, area);
}

/// Obstacle generation leaves the base and deposit tiles as they are and
/// never blocks a spawn tile.
pub proof fn law_obstacles_spare_base_deposits_and_spawns(
    g: GridView,
    scores: Seq<Option<i64>>,
    max_tiles: int,
    i: int,
)
    requires
        0 <= i < g.tiles.len(),
    ensures
        g.keeps_tile(i) ==> g.with_obstacles_ranked(scores, max_tiles).tiles[i] == g.tiles[i],
        g.is_spawn_index(i) && !g.keeps_tile(i) ==> g.with_obstacles_ranked(
            scores,
            max_tiles,
        ).tiles[i] == Tile::Empty,
{
}

/// Hooks the module into the rest of the crate.
pub fn register() {
}

} // verus!
