//! The robots: scouts that explore and report, collectors that plan paths
//! to deposits and back to the base.

use vstd::prelude::*;

use crate::comms::{ActorId, DiscoveryMessage, Envelope, Message};
use crate::domain::{Position, ResourceNode, ResourceType, RobotId, RobotKind, RobotSnapshot, RobotState, Tile};
use crate::knowledge::{
    has_resource_at, read_state, resource_index, write_state, KnowledgeState, KnowledgeView,
    SharedKnowledge,
};
use crate::map::{abs_int, Grid, GridView};

verus! {

/// The four tiles a scout looks at and may step to, in the order it tries
/// them: east, south, west, north.
pub open spec fn scout_neighbors(p: Position) -> Seq<Position> {
    seq![
        Position { x: (p.x + 1) as i32, y: p.y },
        Position { x: p.x, y: (p.y + 1) as i32 },
        Position { x: (p.x - 1) as i32, y: p.y },
        Position { x: p.x, y: (p.y - 1) as i32 },
    ]
}

/// Neither coordinate is at the end of the `i32` range, so the neighbours
/// exist.
pub open spec fn has_neighbors(p: Position) -> bool {
    i32::MIN < p.x < i32::MAX && i32::MIN < p.y < i32::MAX
}

/// A scout may step on an in-bounds walkable tile that nobody reported as
/// an obstacle.
pub open spec fn can_enter(g: GridView, k: KnowledgeView, p: Position) -> bool {
    g.in_bounds(p) && g.is_walkable(p) && !k.obstacles.contains(p)
}

/// The first position of `ns` a scout may enter (and, when `fresh_only`,
/// has not visited yet).
pub open spec fn first_enterable(
    ns: Seq<Position>,
    g: GridView,
    k: KnowledgeView,
    visited: Seq<Position>,
    fresh_only: bool,
) -> Option<Position>
    decreases ns.len(),
{
    if ns.len() == 0 {
        None
    } else if can_enter(g, k, ns[0]) && (!fresh_only || !visited.contains(ns[0])) {
        Some(ns[0])
    } else {
        first_enterable(ns.drop_first(), g, k, visited, fresh_only)
    }
}

/// The tiles a scout sees: its own and its neighbours, those in bounds.
pub open spec fn visible_from(g: GridView, p: Position) -> Seq<Position> {
    (seq![p] + scout_neighbors(p)).filter(|q: Position| g.in_bounds(q))
}

/// The abstract state of a scout.
pub struct ScoutView {
    pub id: RobotId,
    pub position: Position,
    pub visited: Seq<Position>,
    pub seen: Seq<Position>,
}

impl ScoutView {
    /// Where the scout steps next: the first enterable neighbour it has not
    /// visited, else the first enterable neighbour, else nowhere.
    pub open spec fn next_position(self, g: GridView, k: KnowledgeView) -> Option<Position> {
        match first_enterable(scout_neighbors(self.position), g, k, self.visited, true) {
            Some(p) => Some(p),
            None => first_enterable(scout_neighbors(self.position), g, k, self.visited, false),
        }
    }

    /// The scout after `advance`, and whether it moved.
    pub open spec fn advanced(self, g: GridView, k: KnowledgeView) -> (ScoutView, bool) {
        match self.next_position(g, k) {
            None => (self, false),
            Some(p) => (
                ScoutView {
                    position: p,
                    visited: if self.visited.contains(p) {
                        self.visited
                    } else {
                        self.visited.push(p)
                    },
                    ..self
                },
                true,
            ),
        }
    }
}

/// The deposit a scout reports at `pos` on a tile of kind `t`: the grid's
/// entry there, or a unit deposit when the grid has none.
pub open spec fn reported_resource(g: GridView, pos: Position, t: ResourceType) -> ResourceNode {
    if has_resource_at(g.resources, pos) {
        g.resources[resource_index(g.resources, pos)]
    } else {
        ResourceNode { position: pos, resource_type: t, remaining: 1 }
    }
}

/// The broadcast a scout sends for a new obstacle.
pub open spec fn obstacle_report(id: RobotId, pos: Position) -> Envelope {
    Envelope {
        sender: ActorId::Robot(id),
        recipient: crate::comms::Recipient::Broadcast,
        message: Message::Discovery(DiscoveryMessage::ObstacleFound { robot_id: id, position: pos }),
    }
}

/// The broadcast a scout sends for a new deposit.
pub open spec fn resource_report(id: RobotId, r: ResourceNode) -> Envelope {
    Envelope {
        sender: ActorId::Robot(id),
        recipient: crate::comms::Recipient::Broadcast,
        message: Message::Discovery(DiscoveryMessage::ResourceFound { robot_id: id, resource: r }),
    }
}

/// What a scan has gathered so far: the positions already looked at, the
/// shared knowledge, and the reports to send.
pub struct ScanState {
    pub seen: Seq<Position>,
    pub knowledge: KnowledgeView,
    pub messages: Seq<Envelope>,
}

/// One step of a scan: a position not looked at before is marked seen; a
/// new obstacle is filed and reported; a deposit unknown to the knowledge is
/// filed and, when filing accepts it, reported.
pub open spec fn scan_step(id: RobotId, g: GridView, st: ScanState, pos: Position) -> ScanState {
    if st.seen.contains(pos) {
        st
    } else {
        let seen = st.seen.push(pos);
        match g.get_tile(pos) {
            Some(Tile::Obstacle) => if st.knowledge.obstacles.contains(pos) {
                ScanState { seen, ..st }
            } else {
                ScanState {
                    seen,
                    knowledge: st.knowledge.with_obstacle(pos),
                    messages: st.messages.push(obstacle_report(id, pos)),
                }
            },
            Some(Tile::Resource(t)) => if st.knowledge.resource_at(pos) is Some {
                ScanState { seen, ..st }
            } else {
                let found = reported_resource(g, pos, t);
                let (k2, filed) = st.knowledge.with_resource(found);
                ScanState {
                    seen,
                    knowledge: k2,
                    messages: if filed {
                        st.messages.push(resource_report(id, found))
                    } else {
                        st.messages
                    },
                }
            },
            _ => ScanState { seen, ..st },
        }
    }
}

/// A scan over `ps`, in order.
pub open spec fn scan_all(id: RobotId, g: GridView, st: ScanState, ps: Seq<Position>) -> ScanState
    decreases ps.len(),
{
    if ps.len() == 0 {
        st
    } else {
        scan_all(id, g, scan_step(id, g, st, ps[0]), ps.drop_first())
    }
}

/// An exploring robot.
#[derive(Debug, Clone, PartialEq, Eq)]
pub struct Scout {
    id: RobotId,
    position: Position,
    visited: Vec<Position>,
    seen: Vec<Position>,
}

/// What one tick of a scout produced.
#[derive(Debug, Clone, PartialEq, Eq, Default)]
pub struct ScoutReport {
    pub moved: bool,
    pub discoveries: Vec<Envelope>,
}

impl Scout {
    pub closed spec fn view(&self) -> ScoutView {
        ScoutView {
            id: self.id,
            position: self.position,
            visited: self.visited@,
            seen: self.seen@,
        }
    }

    /// The scout has visited its own position, and remembers each visited
    /// and each seen position once.
    pub open spec fn wf(&self) -> bool {
        &&& self@.visited.contains(self@.position)
        &&& self@.visited.no_duplicates()
        &&& self@.seen.no_duplicates()
    }

    pub fn new(id: RobotId, position: Position) -> (s: Self)
        ensures
            s.wf(),
            s@ == (ScoutView { id, position, visited: seq![position], seen: Seq::empty() }),
    {
        let mut visited: Vec<Position> = Vec::new();
        visited.push(position);
        let s = Scout { id, position, visited, seen: Vec::new() };
        assert(s@.visited =~= seq![position]);
        assert(s@.visited[0] == position);
        s
    }

    pub fn id(&self) -> (r: RobotId)
        ensures
            r == self@.id,
    {
        self.id
    }

    pub fn position(&self) -> (r: Position)
        ensures
            r == self@.position,
    {
        self.position
    }

    /// The positions visited, in the order of first visit.
    pub fn visited_positions(&self) -> (r: &[Position])
        ensures
            r@ == self@.visited,
    {
        self.visited.as_slice()
    }

    pub fn has_visited(&self, pos: Position) -> (r: bool)
        ensures
            r == self@.visited.contains(pos),
    {
        crate::knowledge::contains_position(&self.visited, pos)
    }

    /// What the display shows of a scout: always exploring, never carrying.
    pub fn snapshot(&self) -> (s: RobotSnapshot)
        ensures
            s == (RobotSnapshot {
                id: self@.id,
                kind: RobotKind::Scout,
                position: self@.position,
                state: RobotState::Exploring,
                carrying: None,
            }),
    {
        RobotSnapshot {
            id: self.id,
            kind: RobotKind::Scout,
            position: self.position,
            state: RobotState::Exploring,
            carrying: None,
        }
    }

    fn neighbors(&self) -> (r: Vec<Position>)
        requires
            has_neighbors(self@.position),
        ensures
            r@ == scout_neighbors(self@.position),
    {
        let mut r: Vec<Position> = Vec::new();
        r.push(Position::new(self.position.x + 1, self.position.y));
        r.push(Position::new(self.position.x, self.position.y + 1));
        r.push(Position::new(self.position.x - 1, self.position.y));
        r.push(Position::new(self.position.x, self.position.y - 1));
        assert(r@ =~= scout_neighbors(self@.position));
        r
    }

    fn can_enter(&self, pos: Position, grid: &Grid, knowledge: &KnowledgeState) -> (r: bool)
        requires
            grid.wf(),
        ensures
            r == can_enter(grid@, knowledge@, pos),
    {
        if !grid.in_bounds(pos) {
            return false;
        }
        if !grid.is_walkable(pos) {
            return false;
        }
        !knowledge.is_obstacle_known(pos)
    }

    fn next_position(&self, grid: &Grid, knowledge: &KnowledgeState) -> (r: Option<Position>)
        requires
            grid.wf(),
            has_neighbors(self@.position),
        ensures
            r == self@.next_position(grid@, knowledge@),
    {
        let neighbors = self.neighbors();
        let ghost ns = neighbors@;
        let mut first_valid: Option<Position> = None;
        let mut i: usize = 0;
        assert(ns.subrange(0, ns.len() as int) =~= ns);
        while i < neighbors.len()
            invariant
                grid.wf(),
                ns == neighbors@,
                ns == scout_neighbors(self@.position),
                i <= ns.len(),
                first_enterable(ns, grid@, knowledge@, self@.visited, true) == first_enterable(
                    ns.subrange(i as int, ns.len() as int),
                    grid@,
                    knowledge@,
                    self@.visited,
                    true,
                ),
                first_valid is None ==> first_enterable(ns, grid@, knowledge@, self@.visited, false)
                    == first_enterable(
                    ns.subrange(i as int, ns.len() as int),
                    grid@,
                    knowledge@,
                    self@.visited,
                    false,
                ),
                first_valid is Some ==> first_enterable(ns, grid@, knowledge@, self@.visited, false)
                    == first_valid,
            decreases ns.len() - i,
        {
            let pos = neighbors[i];
            proof {
                let rest = ns.subrange(i as int, ns.len() as int);
                assert(rest[0] == pos);
                assert(rest.drop_first() =~= ns.subrange(i as int + 1, ns.len() as int));
            }
            if self.can_enter(pos, grid, knowledge) {
                if first_valid.is_none() {
                    first_valid = Some(pos);
                }
                if !crate::knowledge::contains_position(&self.visited, pos) {
                    return Some(pos);
                }
            }
            i = i + 1;
        }
        proof {
            assert(ns.subrange(ns.len() as int, ns.len() as int).len() == 0);
        }
        first_valid
    }

    /// Steps to `next_position` with what `knowledge` holds, remembering the
    /// tile as visited; answers whether the scout moved.
    fn advance_in(&mut self, grid: &Grid, knowledge: &KnowledgeState) -> (moved: bool)
        requires
            old(self).wf(),
            grid.wf(),
            has_neighbors(old(self)@.position),
        ensures
            final(self).wf(),
            (final(self)@, moved) == old(self)@.advanced(grid@, knowledge@),
    {
        let next = self.next_position(grid, knowledge);
        match next {
            None => false,
            Some(pos) => {
                self.position = pos;
                if !crate::knowledge::contains_position(&self.visited, pos) {
                    self.visited.push(pos);
                    proof {
                        assert(self@.visited[self@.visited.len() - 1] == pos);
                        assert forall|a: int, b: int|
                            0 <= a < self@.visited.len() && 0 <= b < self@.visited.len() && a != b implies self@.visited[a]
                            != self@.visited[b] by {
                            if a < old(self)@.visited.len() && b < old(self)@.visited.len() {
                                assert(old(self)@.visited[a] != old(self)@.visited[b]);
                            } else if a < old(self)@.visited.len() {
                                assert(old(self)@.visited.contains(self@.visited[a]));
                            } else {
                                assert(old(self)@.visited.contains(self@.visited[b]));
                            }
                        }
                    }
                }
                true
            },
        }
    }
}

impl Scout {
    /// Steps to `next_position`, reading the obstacles that the shared store
    /// holds when it is read, and remembers the tile as visited; answers
    /// whether the scout moved.
    pub fn advance(&mut self, grid: &Grid, knowledge: &SharedKnowledge) -> (moved: bool)
        requires
            old(self).wf(),
            grid.wf(),
            has_neighbors(old(self)@.position),
        ensures
            final(self).wf(),
            exists|k: KnowledgeView|
                k.wf() && (final(self)@, moved) == #[trigger] old(self)@.advanced(grid@, k),
    {
        let guard = knowledge.lock_for_read();
        let state = read_state(&guard);
        proof {
            vstd::prelude::use_type_invariant(state);
            state.lemma_wf_view();
        }
        self.advance_in(grid, state)
    }

    fn visible_positions(&self, grid: &Grid) -> (r: Vec<Position>)
        requires
            has_neighbors(self@.position),
        ensures
            r@ == visible_from(grid@, self@.position),
    {
        let mut positions: Vec<Position> = Vec::new();
        if grid.in_bounds(self.position) {
            positions.push(self.position);
        }
        let neighbors = self.neighbors();
        let ghost first = positions@;
        proof {
            reveal_with_fuel(Seq::filter, 2);
            assert(seq![self@.position].drop_last() =~= Seq::<Position>::empty());
            assert(neighbors@.subrange(0, 0) =~= Seq::<Position>::empty());
            assert(positions@ =~= first + neighbors@.subrange(0, 0).filter(
                |q: Position| grid@.in_bounds(q),
            ));
        }
        let mut i: usize = 0;
        while i < neighbors.len()
            invariant
                neighbors@ == scout_neighbors(self@.position),
                i <= neighbors.len(),
                first == seq![self@.position].filter(|q: Position| grid@.in_bounds(q)),
                positions@ == first + neighbors@.subrange(0, i as int).filter(
                    |q: Position| grid@.in_bounds(q),
                ),
            decreases neighbors.len() - i,
        {
            proof {
                reveal_with_fuel(Seq::filter, 1);
                assert(neighbors@.subrange(0, i as int + 1).drop_last() =~= neighbors@.subrange(
                    0,
                    i as int,
                ));
            }
            if grid.in_bounds(neighbors[i]) {
                positions.push(neighbors[i]);
            }
            i = i + 1;
            proof {
                let f = |q: Position| grid@.in_bounds(q);
                let sub = neighbors@.subrange(0, i as int);
                assert(positions@ =~= first + sub.filter(f));
            }
        }
        proof {
            let f = |q: Position| grid@.in_bounds(q);
            assert(neighbors@.subrange(0, 4) =~= neighbors@);
            Seq::filter_distributes_over_add(seq![self@.position], neighbors@, f);
        }
        positions
    }

    fn scan_obstacle(
        &self,
        pos: Position,
        knowledge: &mut KnowledgeState,
        messages: &mut Vec<Envelope>,
    )
        requires
            old(knowledge).wf(),
        ensures
            final(knowledge).wf(),
            old(knowledge)@.obstacles.contains(pos) ==> final(knowledge)@ == old(knowledge)@
                && final(messages)@ == old(messages)@,
            !old(knowledge)@.obstacles.contains(pos) ==> final(knowledge)@ == old(
                knowledge,
            )@.with_obstacle(pos) && final(messages)@ == old(messages)@.push(
                obstacle_report(self@.id, pos),
            ),
    {
        if knowledge.is_obstacle_known(pos) {
            return;
        }
        knowledge.record_obstacle(pos);
        let message = Message::Discovery(
            DiscoveryMessage::ObstacleFound { robot_id: self.id, position: pos },
        );
        messages.push(Envelope::broadcast(ActorId::Robot(self.id), message));
    }

    fn scan_resource(
        &self,
        pos: Position,
        resource_type: ResourceType,
        grid: &Grid,
        knowledge: &mut KnowledgeState,
        messages: &mut Vec<Envelope>,
    )
        requires
            old(knowledge).wf(),
            grid.wf(),
        ensures
            final(knowledge).wf(),
            old(knowledge)@.resource_at(pos) is Some ==> final(knowledge)@ == old(knowledge)@
                && final(messages)@ == old(messages)@,
            old(knowledge)@.resource_at(pos) is None ==> ({
                let found = reported_resource(grid@, pos, resource_type);
                let (k2, filed) = old(knowledge)@.with_resource(found);
                &&& final(knowledge)@ == k2
                &&& final(messages)@ == if filed {
                    old(messages)@.push(resource_report(self@.id, found))
                } else {
                    old(messages)@
                }
            }),
    {
        if knowledge.resource_at(pos).is_some() {
            return;
        }
        let found = match crate::knowledge::find_resource(grid.resources(), pos) {
            Some(i) => {
                proof {
                    let s = grid@.resources;
                    assert(s[i as int].position == pos);
                    assert(has_resource_at(s, pos));
                    let k = resource_index(s, pos);
                    assert(s[k].position == pos);
                    assert(k == i as int);
                }
                grid.resources()[i]
            },
            None => ResourceNode::new(pos, resource_type, 1),
        };
        if !knowledge.record_resource(found) {
            return;
        }
        let message = Message::Discovery(
            DiscoveryMessage::ResourceFound { robot_id: self.id, resource: found },
        );
        messages.push(Envelope::broadcast(ActorId::Robot(self.id), message));
    }

    /// Looks at its own tile and its in-bounds neighbours, in the order of
    /// `visible_from`, filing into `knowledge`; see `scan_step`. Answers the
    /// reports to send.
    fn scan_in(&mut self, grid: &Grid, knowledge: &mut KnowledgeState) -> (messages: Vec<Envelope>)
        requires
            old(self).wf(),
            old(knowledge).wf(),
            grid.wf(),
            has_neighbors(old(self)@.position),
        ensures
            final(self).wf(),
            final(knowledge).wf(),
            final(self)@.id == old(self)@.id,
            final(self)@.position == old(self)@.position,
            final(self)@.visited == old(self)@.visited,
            ({
                let st = scan_all(
                    old(self)@.id,
                    grid@,
                    ScanState {
                        seen: old(self)@.seen,
                        knowledge: old(knowledge)@,
                        messages: Seq::empty(),
                    },
                    visible_from(grid@, old(self)@.position),
                );
                &&& final(self)@.seen == st.seen
                &&& final(knowledge)@ == st.knowledge
                &&& messages@ == st.messages
            }),
    {
        let mut messages: Vec<Envelope> = Vec::new();
        let visible = self.visible_positions(grid);
        let ghost vs = visible@;
        let ghost start = ScanState {
            seen: self@.seen,
            knowledge: knowledge@,
            messages: Seq::empty(),
        };
        let mut i: usize = 0;
        assert(vs.subrange(0, vs.len() as int) =~= vs);
        while i < visible.len()
            invariant
                vs == visible@,
                i <= vs.len(),
                grid.wf(),
                self.wf(),
                knowledge.wf(),
                self@.id == old(self)@.id,
                self@.position == old(self)@.position,
                self@.visited == old(self)@.visited,
                scan_all(self@.id, grid@, start, vs) == scan_all(
                    self@.id,
                    grid@,
                    ScanState { seen: self@.seen, knowledge: knowledge@, messages: messages@ },
                    vs.subrange(i as int, vs.len() as int),
                ),
            decreases vs.len() - i,
        {
            let pos = visible[i];
            let ghost st = ScanState { seen: self@.seen, knowledge: knowledge@, messages: messages@ };
            proof {
                let rest = vs.subrange(i as int, vs.len() as int);
                assert(rest[0] == pos);
                assert(rest.drop_first() =~= vs.subrange(i as int + 1, vs.len() as int));
            }
            i = i + 1;
            if crate::knowledge::contains_position(&self.seen, pos) {
                continue;
            }
            self.seen.push(pos);
            proof {
                assert forall|a: int, b: int|
                    0 <= a < self@.seen.len() && 0 <= b < self@.seen.len() && a != b implies self@.seen[a]
                    != self@.seen[b] by {
                    if a < st.seen.len() && b < st.seen.len() {
                        assert(st.seen[a] != st.seen[b]);
                    } else if a < st.seen.len() {
                        assert(st.seen.contains(self@.seen[a]));
                    } else {
                        assert(st.seen.contains(self@.seen[b]));
                    }
                }
            }
            let tile = grid.get_tile(pos);
            if matches!(tile, Some(Tile::Obstacle)) {
                self.scan_obstacle(pos, knowledge, &mut messages);
            }
            if let Some(Tile::Resource(resource_type)) = tile {
                self.scan_resource(pos, resource_type, grid, knowledge, &mut messages);
            }
        }
        proof {
            assert(vs.subrange(vs.len() as int, vs.len() as int).len() == 0);
        }
        messages
    }

    /// Looks at its own tile and its in-bounds neighbours, in the order of
    /// `visible_from`, filing what is new into the shared store, which it
    /// holds locked meanwhile; see `scan_step`. Answers the reports to send.
    pub fn scan(&mut self, grid: &Grid, knowledge: &SharedKnowledge) -> (messages: Vec<Envelope>)
        requires
            old(self).wf(),
            grid.wf(),
            has_neighbors(old(self)@.position),
        ensures
            final(self).wf(),
            final(self)@.id == old(self)@.id,
            final(self)@.position == old(self)@.position,
            final(self)@.visited == old(self)@.visited,
            exists|k: KnowledgeView|
                #![trigger scanned(old(self)@, grid@, k)]
                k.wf() && final(self)@.seen == scanned(old(self)@, grid@, k).seen && messages@
                    == scanned(old(self)@, grid@, k).messages,
    {
        let mut guard = knowledge.lock_for_update();
        let state = write_state(&mut guard);
        proof {
            vstd::prelude::use_type_invariant(&*state);
            state.lemma_wf_view();
        }
        let ghost k = state@;
        let messages = self.scan_in(grid, state);
        assert(self@.seen == scanned(old(self)@, grid@, k).seen);
        messages
    }

    /// One tick: scan, then advance. Between the two, other handles may
    /// change the shared store.
    pub fn tick(&mut self, grid: &Grid, knowledge: &SharedKnowledge) -> (report: ScoutReport)
        requires
            old(self).wf(),
            grid.wf(),
            has_neighbors(old(self)@.position),
        ensures
            final(self).wf(),
            exists|k1: KnowledgeView, k2: KnowledgeView|
                #![trigger scanned(old(self)@, grid@, k1), k2.wf()]
                k1.wf() && k2.wf() && report.discoveries@ == scanned(old(self)@, grid@, k1).messages
                    && (final(self)@, report.moved) == (ScoutView {
                    seen: scanned(old(self)@, grid@, k1).seen,
                    ..old(self)@
                }).advanced(grid@, k2),
    {
        let discoveries = self.scan(grid, knowledge);
        let ghost mid = self@;
        let moved = self.advance(grid, knowledge);
        proof {
            let k1 = choose|k: KnowledgeView|
                #![trigger scanned(old(self)@, grid@, k)]
                k.wf() && mid.seen == scanned(old(self)@, grid@, k).seen && discoveries@ == scanned(
                    old(self)@,
                    grid@,
                    k,
                ).messages;
            let k2 = choose|k: KnowledgeView| k.wf() && (self@, moved) == #[trigger] mid.advanced(grid@, k);
            assert(mid == (ScoutView { seen: scanned(old(self)@, grid@, k1).seen, ..old(self)@ }));
            assert(k2.wf());
        }
        ScoutReport { moved, discoveries }
    }
}

/// What a scan from `s`'s position gathers, starting from what `s` has seen
/// and from a store that holds `k`.
pub open spec fn scanned(s: ScoutView, g: GridView, k: KnowledgeView) -> ScanState {
    scan_all(
        s.id,
        g,
        ScanState { seen: s.seen, knowledge: k, messages: Seq::empty() },
        visible_from(g, s.position),
    )
}

/// `b` is one step away from `a` (east, south, west or north).
pub open spec fn is_step(a: Position, b: Position) -> bool {
    abs_int(a.x - b.x) + abs_int(a.y - b.y) == 1
}

/// `path` is a walk that starts next to `start`: each position is walkable
/// and one step away from the one before it (the first from `start`).
pub open spec fn is_walk(g: GridView, start: Position, path: Seq<Position>) -> bool {
    forall|i: int|
        #![trigger path[i]]
        0 <= i < path.len() ==> g.is_walkable(path[i]) && is_step(
            if i == 0 {
                start
            } else {
                path[i - 1]
            },
            path[i],
        )
}

/// `path` leads from `start` to `goal`.
pub open spec fn is_route(g: GridView, start: Position, goal: Position, path: Seq<Position>) -> bool {
    path.len() > 0 && is_walk(g, start, path) && path.last() == goal
}

/// `path` is a route from `start` to `goal` and no route is shorter.
pub open spec fn is_shortest_route(g: GridView, start: Position, goal: Position, path: Seq<Position>) -> bool {
    &&& is_route(g, start, goal, path)
    &&& forall|r: Seq<Position>| #[trigger] is_route(g, start, goal, r) ==> path.len() <= r.len()
}

/// No route leads from `from` to `goal`.
#[verifier::opaque]
pub open spec fn unreachable(g: GridView, from: Position, goal: Position) -> bool {
    forall|p: Seq<Position>| !is_route(g, from, goal, p)
}

/// `p` can be reached from `start` in at most `k` steps over walkable tiles.
#[verifier::opaque]
pub open spec fn within(g: GridView, start: Position, p: Position, k: nat) -> bool
    decreases k,
{
    if k == 0 {
        p == start
    } else {
        let ns = scout_neighbors(p);
        ||| within(g, start, p, (k - 1) as nat)
        ||| g.is_walkable(p) && (within(g, start, ns[0], (k - 1) as nat) || within(
            g,
            start,
            ns[1],
            (k - 1) as nat,
        ) || within(g, start, ns[2], (k - 1) as nat) || within(g, start, ns[3], (k - 1) as nat))
    }
}

/// What is reachable in `k` steps is reachable in more.
proof fn lemma_within_mono(g: GridView, start: Position, p: Position, k: nat, k2: nat)
    requires
        k <= k2,
        within(g, start, p, k),
    ensures
        within(g, start, p, k2),
    decreases k2,
{
    if k < k2 {
        lemma_within_mono(g, start, p, k, (k2 - 1) as nat);
        reveal_with_fuel(within, 1);
    }
}

/// One more step onto a walkable tile.
proof fn lemma_within_step(g: GridView, start: Position, v: Position, p: Position, k: nat)
    requires
        g.wf(),
        within(g, start, v, k),
        g.is_walkable(p),
        is_step(v, p),
    ensures
        within(g, start, p, k + 1),
{
    reveal_with_fuel(within, 1);
    assert(g.in_bounds(p));
    g.lemma_addressable(p);
    lemma_step_is_neighbor(p, v);
    assert(scout_neighbors(p).contains(v));
    let j = choose|j: int| 0 <= j < 4 && scout_neighbors(p)[j] == v;
    assert(j == 0 || j == 1 || j == 2 || j == 3);
    assert(within(g, start, p, k + 1));
}

/// Only the start is reached in no step.
proof fn lemma_within_zero(g: GridView, start: Position, p: Position)
    ensures
        within(g, start, p, 0) == (p == start),
{
    reveal_with_fuel(within, 1);
}

/// The `i`-th position of a walk is reached within `i + 1` steps.
proof fn lemma_walk_within(g: GridView, start: Position, path: Seq<Position>, i: int)
    requires
        g.wf(),
        is_walk(g, start, path),
        0 <= i < path.len(),
    ensures
        within(g, start, path[i], (i + 1) as nat),
    decreases i,
{
    assert(g.is_walkable(path[i]));
    if i == 0 {
        lemma_within_zero(g, start, start);
        lemma_within_step(g, start, start, path[0], 0);
    } else {
        lemma_walk_within(g, start, path, i - 1);
        lemma_within_step(g, start, path[i - 1], path[i], i as nat);
    }
}

/// A route ends at a position reached within as many steps as it is long.
proof fn lemma_route_within(g: GridView, start: Position, goal: Position, path: Seq<Position>)
    requires
        g.wf(),
        is_route(g, start, goal, path),
    ensures
        within(g, start, goal, path.len()),
{
    lemma_walk_within(g, start, path, path.len() - 1);
}

/// The steps from `a` are exactly its four neighbours.
pub proof fn lemma_step_is_neighbor(a: Position, b: Position)
    requires
        has_neighbors(a),
    ensures
        is_step(a, b) == scout_neighbors(a).contains(b),
{
    let ns = scout_neighbors(a);
    if is_step(a, b) {
        if b.x == a.x + 1 {
            assert(ns[0] == b);
        } else if b.y == a.y + 1 {
            assert(ns[1] == b);
        } else if b.x == a.x - 1 {
            assert(ns[2] == b);
        } else {
            assert(ns[3] == b);
        }
    }
    if ns.contains(b) {
        let k = choose|k: int| 0 <= k < 4 && ns[k] == b;
        assert(k == 0 || k == 1 || k == 2 || k == 3);
    }
}

/// The number of `false` entries.
pub open spec fn count_false(s: Seq<bool>) -> nat
    decreases s.len(),
{
    if s.len() == 0 {
        0
    } else {
        count_false(s.drop_last()) + if s.last() {
            0nat
        } else {
            1nat
        }
    }
}

proof fn lemma_count_false_update(s: Seq<bool>, i: int)
    requires
        0 <= i < s.len(),
        !s[i],
    ensures
        count_false(s.update(i, true)) + 1 == count_false(s),
    decreases s.len(),
{
    let t = s.update(i, true);
    if i < s.len() - 1 {
        assert(t.drop_last() =~= s.drop_last().update(i, true));
        lemma_count_false_update(s.drop_last(), i);
    } else {
        assert(t.drop_last() =~= s.drop_last());
    }
}

proof fn lemma_count_false_bound(s: Seq<bool>)
    ensures
        count_false(s) <= s.len(),
    decreases s.len(),
{
    if s.len() > 0 {
        lemma_count_false_bound(s.drop_last());
    }
}

proof fn lemma_count_false_all(n: nat)
    ensures
        count_false(Seq::new(n, |i: int| false)) == n,
    decreases n,
{
    if n > 0 {
        assert(Seq::new(n, |i: int| false).drop_last() =~= Seq::new((n - 1) as nat, |i: int| false));
        lemma_count_false_all((n - 1) as nat);
    }
}

/// How a discovered tile was reached: from the start (`usize::MAX`) or from
/// an earlier discovered tile, one step further.
pub open spec fn parent_ok(
    g: GridView,
    start: Position,
    visited: Seq<bool>,
    prev: Seq<usize>,
    dist: Seq<usize>,
    q: usize,
) -> bool {
    if prev[q as int] == usize::MAX {
        is_step(start, g.position_of(q as int)) && dist[q as int] == 1
    } else {
        &&& (prev[q as int] as int) < g.tiles.len()
        &&& visited[prev[q as int] as int]
        &&& g.position_of(prev[q as int] as int) != start
        &&& is_step(g.position_of(prev[q as int] as int), g.position_of(q as int))
        &&& dist[prev[q as int] as int] + 1 == dist[q as int]
    }
}

/// The search state: `queue` lists the discovered tiles in order, each
/// walkable, neither the start nor the goal, reached as `parent_ok` says;
/// `visited` marks exactly the discovered tiles and the start.
#[verifier::opaque]
pub open spec fn search_inv(
    g: GridView,
    start: Position,
    goal: Position,
    visited: Seq<bool>,
    prev: Seq<usize>,
    dist: Seq<usize>,
    queue: Seq<usize>,
) -> bool {
    let n = g.tiles.len();
    &&& g.wf()
    &&& has_neighbors(start)
    &&& visited.len() == n
    &&& prev.len() == n
    &&& dist.len() == n
    &&& queue.no_duplicates()
    &&& forall|k: int|
        #![trigger queue[k]]
        0 <= k < queue.len() ==> {
            &&& (queue[k] as int) < n
            &&& visited[queue[k] as int]
            &&& g.is_walkable(g.position_of(queue[k] as int))
            &&& g.position_of(queue[k] as int) != goal
            &&& g.position_of(queue[k] as int) != start
            &&& 1 <= dist[queue[k] as int] <= k + 1
            &&& parent_ok(g, start, visited, prev, dist, queue[k])
        }
    &&& forall|i: int|
        0 <= i < n && #[trigger] visited[i] ==> queue.contains(i as usize) || (g.in_bounds(start)
            && i == g.index_of(start))
    &&& g.in_bounds(start) ==> visited[g.index_of(start)]
    &&& queue.len() + count_false(visited) + (if g.in_bounds(start) {
        1int
    } else {
        0int
    }) == n
}

/// The plain facts that the search state holds.
proof fn lemma_search_facts(
    g: GridView,
    start: Position,
    goal: Position,
    visited: Seq<bool>,
    prev: Seq<usize>,
    dist: Seq<usize>,
    queue: Seq<usize>,
)
    requires
        search_inv(g, start, goal, visited, prev, dist, queue),
    ensures
        g.wf(),
        has_neighbors(start),
        visited.len() == g.tiles.len(),
        prev.len() == g.tiles.len(),
        dist.len() == g.tiles.len(),
        queue.len() + count_false(visited) <= g.tiles.len(),
        forall|k: int|
            #![trigger queue[k]]
            0 <= k < queue.len() ==> (queue[k] as int) < g.tiles.len() && visited[queue[k] as int]
                && g.position_of(queue[k] as int) != goal && g.position_of(queue[k] as int) != start
                && 1 <= dist[queue[k] as int] <= k + 1,
        g.in_bounds(start) ==> visited[g.index_of(start)],
{
    reveal(search_inv);
    lemma_count_false_bound(visited);
}

/// Every walkable neighbour of `p` is marked.
pub open spec fn neighbors_marked(g: GridView, visited: Seq<bool>, p: Position) -> bool {
    forall|w: Position|
        #![trigger scout_neighbors(p).contains(w)]
        scout_neighbors(p).contains(w) && g.is_walkable(w) ==> visited[g.index_of(w)]
}

fn neighbors_of(p: Position) -> (r: Vec<Position>)
    requires
        has_neighbors(p),
    ensures
        r@ == scout_neighbors(p),
{
    let mut r: Vec<Position> = Vec::new();
    r.push(Position::new(p.x + 1, p.y));
    r.push(Position::new(p.x, p.y + 1));
    r.push(Position::new(p.x - 1, p.y));
    r.push(Position::new(p.x, p.y - 1));
    assert(r@ =~= scout_neighbors(p));
    r
}

/// Queueing a newly reached tile keeps the search state.
#[verifier::rlimit(40)]
proof fn lemma_queue_tile(
    g: GridView,
    start: Position,
    goal: Position,
    visited: Seq<bool>,
    prev: Seq<usize>,
    dist: Seq<usize>,
    queue: Seq<usize>,
    from: Position,
    parent: usize,
    from_dist: usize,
    wi: usize,
)
    requires
        search_inv(g, start, goal, visited, prev, dist, queue),
        (wi as int) < g.tiles.len(),
        !visited[wi as int],
        g.is_walkable(g.position_of(wi as int)),
        g.position_of(wi as int) != goal,
        is_step(from, g.position_of(wi as int)),
        parent == usize::MAX ==> from == start && from_dist == 0,
        parent != usize::MAX ==> (parent as int) < g.tiles.len() && visited[parent as int]
            && g.position_of(parent as int) == from && from != start && dist[parent as int]
            == from_dist,
        from_dist <= queue.len(),
    ensures
        search_inv(
            g,
            start,
            goal,
            visited.update(wi as int, true),
            prev.update(wi as int, parent),
            dist.update(wi as int, (from_dist + 1) as usize),
            queue.push(wi),
        ),
{
    reveal(search_inv);
    let n = g.tiles.len();
    let w = g.position_of(wi as int);
    let v2 = visited.update(wi as int, true);
    let p2 = prev.update(wi as int, parent);
    let d2 = dist.update(wi as int, (from_dist + 1) as usize);
    let qn = queue.push(wi);
    lemma_count_false_update(visited, wi as int);
    lemma_count_false_bound(v2);
    assert(from_dist + 1 <= n);
    assert forall|j: int| 0 <= j < queue.len() implies queue[j] != wi by {
        assert(visited[queue[j] as int]);
    }
    if g.in_bounds(start) {
        g.lemma_index_in_range(start);
        assert(visited[g.index_of(start)]);
    }
    assert(qn[qn.len() - 1] == wi);
    assert forall|a: int, b: int| 0 <= a < qn.len() && 0 <= b < qn.len() && a != b implies qn[a]
        != qn[b] by {
        if a < queue.len() && b < queue.len() {
            assert(queue[a] != queue[b]);
        } else if a < queue.len() {
            assert(queue[a] != wi);
        } else {
            assert(queue[b] != wi);
        }
    }
    assert forall|j: int| #![trigger qn[j]] 0 <= j < qn.len() implies {
        &&& (qn[j] as int) < n
        &&& v2[qn[j] as int]
        &&& g.is_walkable(g.position_of(qn[j] as int))
        &&& g.position_of(qn[j] as int) != goal
        &&& g.position_of(qn[j] as int) != start
        &&& 1 <= d2[qn[j] as int] <= j + 1
    } by {
        if j < queue.len() {
            assert(qn[j] == queue[j]);
            assert(queue[j] != wi);
        } else {
            assert(qn[j] == wi);
            if w == start {
                g.lemma_position_in_range(wi as int);
                assert(visited[g.index_of(start)]);
            }
        }
    }
    assert forall|j: int| #![trigger qn[j]] 0 <= j < qn.len() implies parent_ok(g, start, v2, p2, d2, qn[j]) by {
        if j < queue.len() {
            let x = queue[j];
            assert(qn[j] == x);
            assert(x != wi);
            assert(parent_ok(g, start, visited, prev, dist, x));
            if prev[x as int] != usize::MAX {
                assert(prev[x as int] != wi);
            }
        } else {
            assert(qn[j] == wi);
            if w == start {
                g.lemma_position_in_range(wi as int);
                assert(visited[g.index_of(start)]);
            }
            if parent != usize::MAX {
                assert(parent != wi);
            }
        }
    }
    assert forall|i: int| 0 <= i < n && #[trigger] v2[i] implies qn.contains(i as usize) || (
    g.in_bounds(start) && i == g.index_of(start)) by {
        if i != wi as int {
            assert(visited[i]);
            if queue.contains(i as usize) {
                let a = choose|a: int| 0 <= a < queue.len() && queue[a] == i as usize;
                assert(qn[a] == i as usize);
            }
        } else {
            assert(qn[queue.len() as int] == wi);
        }
    }
}

/// Recording how the goal was reached keeps the search state.
proof fn lemma_record_goal(
    g: GridView,
    start: Position,
    goal: Position,
    visited: Seq<bool>,
    prev: Seq<usize>,
    dist: Seq<usize>,
    queue: Seq<usize>,
    wi: usize,
    p: usize,
    d: usize,
)
    requires
        search_inv(g, start, goal, visited, prev, dist, queue),
        (wi as int) < g.tiles.len(),
        g.position_of(wi as int) == goal,
    ensures
        search_inv(g, start, goal, visited, prev.update(wi as int, p), dist.update(wi as int, d), queue),
        forall|j: int| 0 <= j < queue.len() ==> #[trigger] queue[j] != wi,
{
    reveal(search_inv);
    let p2 = prev.update(wi as int, p);
    let d2 = dist.update(wi as int, d);
    assert forall|j: int| 0 <= j < queue.len() implies #[trigger] queue[j] != wi by {
        assert(g.position_of(queue[j] as int) != goal);
    }
    assert forall|j: int| #![trigger queue[j]] 0 <= j < queue.len() implies parent_ok(
        g,
        start,
        visited,
        p2,
        d2,
        queue[j],
    ) by {
        let x = queue[j];
        assert(parent_ok(g, start, visited, prev, dist, x));
        if prev[x as int] != usize::MAX {
            let y = prev[x as int];
            if y == wi {
                // the parent of a queued tile is itself queued, hence not the goal
                assert(visited[y as int]);
                if g.in_bounds(start) {
                    g.lemma_index_in_range(start);
                }
                assert(queue.contains(y));
                let a = choose|a: int| 0 <= a < queue.len() && queue[a] == y;
                assert(queue[a] != wi);
            }
        }
    }
}

/// Every position reached within `d` steps is the start or a marked tile.
pub open spec fn reach_marked(g: GridView, start: Position, visited: Seq<bool>, d: nat) -> bool {
    forall|p: Position|
        #[trigger] within(g, start, p, d) ==> p == start || (g.in_bounds(p) && visited[g.index_of(p)])
}

/// The queue lists tiles by nondecreasing distance, none more than one step
/// past `level`, and each at its least number of steps from the start.
#[verifier::opaque]
pub open spec fn layered(
    g: GridView,
    start: Position,
    dist: Seq<usize>,
    queue: Seq<usize>,
    level: int,
) -> bool {
    &&& forall|a: int, b: int|
        #![trigger queue[a], queue[b]]
        0 <= a <= b < queue.len() ==> dist[queue[a] as int] <= dist[queue[b] as int]
    &&& forall|a: int|
        #![trigger queue[a]]
        0 <= a < queue.len() ==> dist[queue[a] as int] <= level + 1 && !within(
            g,
            start,
            g.position_of(queue[a] as int),
            (dist[queue[a] as int] - 1) as nat,
        )
}

/// Queueing a tile one step past `level`, that cannot be reached within
/// `level` steps, keeps the queue layered.
proof fn lemma_layered_push(
    g: GridView,
    start: Position,
    dist: Seq<usize>,
    queue: Seq<usize>,
    level: int,
    wi: usize,
)
    requires
        layered(g, start, dist, queue, level),
        0 <= level,
        level + 1 <= usize::MAX,
        (wi as int) < dist.len(),
        forall|j: int| 0 <= j < queue.len() ==> #[trigger] queue[j] != wi && (queue[j] as int) < dist.len(),
        !within(g, start, g.position_of(wi as int), level as nat),
    ensures
        layered(g, start, dist.update(wi as int, (level + 1) as usize), queue.push(wi), level),
{
    reveal(layered);
    let d2 = dist.update(wi as int, (level + 1) as usize);
    let q2 = queue.push(wi);
    assert forall|a: int| #![trigger q2[a]] 0 <= a < q2.len() implies d2[q2[a] as int] <= level + 1
        && !within(g, start, g.position_of(q2[a] as int), (d2[q2[a] as int] - 1) as nat) by {
        if a < queue.len() {
            assert(q2[a] == queue[a]);
            assert(queue[a] != wi);
        } else {
            assert(q2[a] == wi);
        }
    }
    assert forall|a: int, b: int| #![trigger q2[a], q2[b]] 0 <= a <= b < q2.len() implies d2[q2[a] as int]
        <= d2[q2[b] as int] by {
        if b < queue.len() {
            assert(q2[a] == queue[a] && q2[b] == queue[b]);
            assert(queue[a] != wi && queue[b] != wi);
        } else if a < queue.len() {
            assert(q2[a] == queue[a]);
            assert(queue[a] != wi);
        }
    }
}

/// Changing the distance of a tile that is not queued keeps the queue
/// layered.
proof fn lemma_layered_other(
    g: GridView,
    start: Position,
    dist: Seq<usize>,
    queue: Seq<usize>,
    level: int,
    wi: usize,
    d: usize,
)
    requires
        layered(g, start, dist, queue, level),
        (wi as int) < dist.len(),
        forall|j: int| 0 <= j < queue.len() ==> #[trigger] queue[j] != wi && (queue[j] as int) < dist.len(),
    ensures
        layered(g, start, dist.update(wi as int, d), queue, level),
{
    reveal(layered);
    let d2 = dist.update(wi as int, d);
    assert forall|a: int| #![trigger queue[a]] 0 <= a < queue.len() implies d2[queue[a] as int]
        == dist[queue[a] as int] by {
        assert(queue[a] != wi);
    }
}

/// A layered queue stays layered for a higher level.
proof fn lemma_layered_raise(
    g: GridView,
    start: Position,
    dist: Seq<usize>,
    queue: Seq<usize>,
    level: int,
    level2: int,
)
    requires
        layered(g, start, dist, queue, level),
        level <= level2,
    ensures
        layered(g, start, dist, queue, level2),
{
    reveal(layered);
}

/// More marks keep the positions within `d` steps marked.
proof fn lemma_reach_marked_grow(
    g: GridView,
    start: Position,
    v1: Seq<bool>,
    v2: Seq<bool>,
    d: nat,
)
    requires
        g.wf(),
        v1.len() == g.tiles.len(),
        reach_marked(g, start, v1, d),
        forall|i: int| 0 <= i < v1.len() && v1[i] ==> #[trigger] v2[i],
    ensures
        reach_marked(g, start, v2, d),
{
    assert forall|p: Position| #[trigger] within(g, start, p, d) implies p == start || (g.in_bounds(p)
        && v2[g.index_of(p)]) by {
        if p != start {
            g.lemma_index_in_range(p);
            assert(v1[g.index_of(p)]);
        }
    }
}

/// When the tiles before `head` and the start have their walkable
/// neighbours marked, every position within the distance of the tile at
/// `head` (at most `k` of them) is marked: a shorter one would have been
/// expanded already.
proof fn lemma_reach_marked_upto(
    g: GridView,
    start: Position,
    goal: Position,
    visited: Seq<bool>,
    prev: Seq<usize>,
    dist: Seq<usize>,
    queue: Seq<usize>,
    level: int,
    head: int,
    k: nat,
)
    requires
        search_inv(g, start, goal, visited, prev, dist, queue),
        layered(g, start, dist, queue, level),
        neighbors_marked(g, visited, start),
        0 <= head < queue.len(),
        forall|j: int|
            0 <= j < head ==> neighbors_marked(g, visited, g.position_of(#[trigger] queue[j] as int)),
        k <= dist[queue[head] as int],
    ensures
        reach_marked(g, start, visited, k),
    decreases k,
{
    lemma_search_facts(g, start, goal, visited, prev, dist, queue);
    if k == 0 {
        assert forall|p: Position| #[trigger] within(g, start, p, k) implies p == start || (g.in_bounds(p)
            && visited[g.index_of(p)]) by {
            lemma_within_zero(g, start, p);
        }
    } else {
        lemma_reach_marked_upto(g, start, goal, visited, prev, dist, queue, level, head, (k - 1) as nat);
        assert forall|p: Position| #[trigger] within(g, start, p, k) implies p == start || (g.in_bounds(p)
            && visited[g.index_of(p)]) by {
            let k1 = (k - 1) as nat;
            reveal_with_fuel(within, 1);
            if !within(g, start, p, k1) {
                let ns = scout_neighbors(p);
                assert(g.is_walkable(p));
                assert(g.in_bounds(p));
                let j: int = if within(g, start, ns[0], k1) {
                    0
                } else if within(g, start, ns[1], k1) {
                    1
                } else if within(g, start, ns[2], k1) {
                    2
                } else {
                    3
                };
                let v = ns[j];
                assert(within(g, start, v, k1));
                assert(is_step(v, p));
                if v == start {
                    lemma_step_is_neighbor(start, p);
                    assert(scout_neighbors(start).contains(p));
                    g.lemma_index_in_range(p);
                } else {
                    assert(g.in_bounds(v) && visited[g.index_of(v)]);
                    g.lemma_index_in_range(v);
                    let vi = g.index_of(v);
                    g.lemma_position_in_range(vi);
                    assert(g.position_of(vi) == v);
                    lemma_marked_is_discovered(g, start, goal, visited, prev, dist, queue, vi as usize);
                    let a = choose|a: int| 0 <= a < queue.len() && queue[a] == vi as usize;
                    reveal(layered);
                    assert(!within(g, start, v, (dist[queue[a] as int] - 1) as nat));
                    if dist[queue[a] as int] - 1 >= k1 {
                        lemma_within_mono(g, start, v, k1, (dist[queue[a] as int] - 1) as nat);
                    }
                    if a >= head {
                        assert(dist[queue[head] as int] <= dist[queue[a] as int]);
                    }
                    assert(neighbors_marked(g, visited, g.position_of(queue[a] as int)));
                    lemma_step_is_neighbor(v, p);
                    assert(scout_neighbors(v).contains(p));
                    g.lemma_index_in_range(p);
                }
            }
        }
    }
}

/// Looks at one neighbour `w` of `from` (reached through `parent`, at
/// distance `from_dist`): an unmarked walkable tile is marked and queued,
/// unless it is the goal, whose index is then answered with its parent
/// recorded.
fn discover(
    grid: &Grid,
    start: Position,
    goal: Position,
    from: Position,
    parent: usize,
    from_dist: usize,
    w: Position,
    visited: &mut Vec<bool>,
    prev: &mut Vec<usize>,
    dist: &mut Vec<usize>,
    queue: &mut Vec<usize>,
) -> (found: Option<usize>)
    requires
        search_inv(grid@, start, goal, old(visited)@, old(prev)@, old(dist)@, old(queue)@),
        has_neighbors(from),
        scout_neighbors(from).contains(w),
        parent == usize::MAX ==> from == start && from_dist == 0,
        parent != usize::MAX ==> (parent as int) < grid@.tiles.len() && old(visited)@[parent as int]
            && grid@.position_of(parent as int) == from && from != start && old(dist)@[parent as int]
            == from_dist,
        from_dist <= old(queue)@.len(),
        layered(grid@, start, old(dist)@, old(queue)@, from_dist as int),
        reach_marked(grid@, start, old(visited)@, from_dist as nat),
    ensures
        search_inv(grid@, start, goal, final(visited)@, final(prev)@, final(dist)@, final(queue)@),
        layered(grid@, start, final(dist)@, final(queue)@, from_dist as int),
        final(queue)@.len() >= old(queue)@.len(),
        forall|j: int| 0 <= j < old(queue)@.len() ==> #[trigger] final(queue)@[j] == old(queue)@[j],
        forall|i: int|
            0 <= i < old(visited)@.len() && old(visited)@[i] ==> #[trigger] final(visited)@[i],
        forall|i: int| 0 <= i < old(dist)@.len() && old(visited)@[i] ==> #[trigger] final(dist)@[i] == old(dist)@[i],
        found is None ==> (grid@.is_walkable(w) ==> final(visited)@[grid@.index_of(w)]),
        found is Some ==> goal == start || !within(grid@, start, goal, from_dist as nat),
        found is Some ==> {
            let gi = found.unwrap();
            &&& (gi as int) < grid@.tiles.len()
            &&& grid@.position_of(gi as int) == goal
            &&& grid@.is_walkable(goal)
            &&& is_step(from, goal)
            &&& final(prev)@[gi as int] == parent
            &&& final(dist)@[gi as int] == from_dist + 1
            &&& forall|j: int| 0 <= j < final(queue)@.len() ==> #[trigger] final(queue)@[j] != gi
        },
{
    proof {
        lemma_search_facts(grid@, start, goal, visited@, prev@, dist@, queue@);
    }
    if !grid.is_walkable(w) {
        return None;
    }
    proof {
        grid@.lemma_index_in_range(w);
        lemma_step_is_neighbor(from, w);
    }
    let wi = match grid.tile_index(w) {
        Some(i) => i,
        None => {
            return None;
        },
    };
    if visited[wi] {
        return None;
    }
    proof {
        lemma_count_false_update(visited@, wi as int);
    }
    proof {
        grid@.lemma_position_in_range(wi as int);
        assert(grid@.position_of(wi as int) == w);
        if grid@.in_bounds(start) {
            grid@.lemma_index_in_range(start);
        }
    }
    if w == goal {
        let d = from_dist + 1;
        proof {
            lemma_record_goal(grid@, start, goal, visited@, prev@, dist@, queue@, wi, parent, d);
            lemma_layered_other(grid@, start, dist@, queue@, from_dist as int, wi, d);
        }
        prev.set(wi, parent);
        dist.set(wi, d);
        return Some(wi);
    }
    proof {
        if within(grid@, start, w, from_dist as nat) {
            assert(w == start || visited@[wi as int]);
        }
        assert forall|j: int| 0 <= j < queue@.len() implies #[trigger] queue@[j] != wi && (queue@[j] as int)
            < dist@.len() by {
            reveal(search_inv);
            assert(visited@[queue@[j] as int]);
        }
        lemma_layered_push(grid@, start, dist@, queue@, from_dist as int, wi);
        lemma_queue_tile(
            grid@,
            start,
            goal,
            visited@,
            prev@,
            dist@,
            queue@,
            from,
            parent,
            from_dist,
            wi,
        );
    }
    visited.set(wi, true);
    prev.set(wi, parent);
    dist.set(wi, from_dist + 1);
    queue.push(wi);
    None
}

/// The walkable positions among the first `k` of `ns` are marked.
#[verifier::opaque]
pub open spec fn marked_prefix(g: GridView, visited: Seq<bool>, ns: Seq<Position>, k: int) -> bool {
    forall|j: int|
        #![trigger ns[j]]
        0 <= j < k ==> g.is_walkable(ns[j]) ==> visited[g.index_of(ns[j])]
}

proof fn lemma_marked_prefix_grows(
    g: GridView,
    v1: Seq<bool>,
    v2: Seq<bool>,
    ns: Seq<Position>,
    k: int,
)
    requires
        g.wf(),
        0 <= k < ns.len(),
        v1.len() == g.tiles.len(),
        marked_prefix(g, v1, ns, k),
        forall|i: int| 0 <= i < v1.len() && v1[i] ==> #[trigger] v2[i],
        g.is_walkable(ns[k]) ==> v2[g.index_of(ns[k])],
    ensures
        marked_prefix(g, v2, ns, k + 1),
{
    reveal(marked_prefix);
    assert forall|j: int| #![trigger ns[j]] 0 <= j < k + 1 && g.is_walkable(ns[j]) implies v2[g.index_of(
        ns[j],
    )] by {
        if j < k {
            g.lemma_index_in_range(ns[j]);
            assert(v1[g.index_of(ns[j])]);
        }
    }
}

/// Discovers the walkable neighbours of `from`, stopping at the goal; see
/// `discover`.
fn expand(
    grid: &Grid,
    start: Position,
    goal: Position,
    from: Position,
    parent: usize,
    from_dist: usize,
    visited: &mut Vec<bool>,
    prev: &mut Vec<usize>,
    dist: &mut Vec<usize>,
    queue: &mut Vec<usize>,
) -> (found: Option<usize>)
    requires
        search_inv(grid@, start, goal, old(visited)@, old(prev)@, old(dist)@, old(queue)@),
        has_neighbors(from),
        parent == usize::MAX ==> from == start && from_dist == 0,
        parent != usize::MAX ==> (parent as int) < grid@.tiles.len() && old(visited)@[parent as int]
            && grid@.position_of(parent as int) == from && from != start && old(dist)@[parent as int]
            == from_dist,
        from_dist <= old(queue)@.len(),
        layered(grid@, start, old(dist)@, old(queue)@, from_dist as int),
        reach_marked(grid@, start, old(visited)@, from_dist as nat),
    ensures
        search_inv(grid@, start, goal, final(visited)@, final(prev)@, final(dist)@, final(queue)@),
        layered(grid@, start, final(dist)@, final(queue)@, from_dist as int),
        final(queue)@.len() >= old(queue)@.len(),
        forall|j: int| 0 <= j < old(queue)@.len() ==> #[trigger] final(queue)@[j] == old(queue)@[j],
        forall|i: int|
            0 <= i < old(visited)@.len() && old(visited)@[i] ==> #[trigger] final(visited)@[i],
        forall|i: int|
            0 <= i < old(dist)@.len() && old(visited)@[i] ==> #[trigger] final(dist)@[i] == old(dist)@[i],
        found is None ==> neighbors_marked(grid@, final(visited)@, from),
        found is Some ==> {
            let gi = found.unwrap();
            &&& (gi as int) < grid@.tiles.len()
            &&& grid@.position_of(gi as int) == goal
            &&& grid@.is_walkable(goal)
            &&& is_step(from, goal)
            &&& final(prev)@[gi as int] == parent
            &&& final(dist)@[gi as int] == from_dist + 1
            &&& forall|j: int| 0 <= j < final(queue)@.len() ==> #[trigger] final(queue)@[j] != gi
            &&& goal == start || !within(grid@, start, goal, from_dist as nat)
        },
{
    let neighbors = neighbors_of(from);
    let mut k: usize = 0;
    proof {
        lemma_search_facts(grid@, start, goal, visited@, prev@, dist@, queue@);
        reveal(marked_prefix);
    }
    while k < neighbors.len()
        invariant
            neighbors@ == scout_neighbors(from),
            k <= 4,
            search_inv(grid@, start, goal, visited@, prev@, dist@, queue@),
            has_neighbors(from),
            parent == usize::MAX ==> from == start && from_dist == 0,
            parent != usize::MAX ==> (parent as int) < grid@.tiles.len() && visited@[parent as int]
                && grid@.position_of(parent as int) == from && from != start && dist@[parent as int]
                == from_dist,
            from_dist <= old(queue)@.len(),
            old(visited)@.len() == grid@.tiles.len(),
            visited@.len() == grid@.tiles.len(),
            queue@.len() >= old(queue)@.len(),
            forall|j: int| 0 <= j < old(queue)@.len() ==> #[trigger] queue@[j] == old(queue)@[j],
            forall|i: int| 0 <= i < old(visited)@.len() && old(visited)@[i] ==> #[trigger] visited@[i],
            old(dist)@.len() == grid@.tiles.len(),
            forall|i: int| 0 <= i < old(dist)@.len() && old(visited)@[i] ==> #[trigger] dist@[i] == old(dist)@[i],
            marked_prefix(grid@, visited@, neighbors@, k as int),
            layered(grid@, start, dist@, queue@, from_dist as int),
            reach_marked(grid@, start, visited@, from_dist as nat),
        decreases 4 - k,
    {
        let w = neighbors[k];
        let ghost vis0 = visited@;
        proof {
            assert(scout_neighbors(from)[k as int] == w);
            lemma_search_facts(grid@, start, goal, visited@, prev@, dist@, queue@);
        }
        let ghost q0 = queue@;
        let found = discover(grid, start, goal, from, parent, from_dist, w, visited, prev, dist, queue);
        proof {
            lemma_search_facts(grid@, start, goal, visited@, prev@, dist@, queue@);
            assert forall|i: int| 0 <= i < old(visited)@.len() && old(visited)@[i] implies #[trigger] visited@[i] by {
                assert(vis0[i]);
            }
            assert forall|j: int| 0 <= j < old(queue)@.len() implies #[trigger] queue@[j] == old(queue)@[j] by {
                assert(q0[j] == old(queue)@[j]);
            }
            assert forall|i: int| 0 <= i < old(dist)@.len() && old(visited)@[i] implies #[trigger] dist@[i] == old(dist)@[i] by {
                assert(vis0[i]);
            }
            lemma_reach_marked_grow(grid@, start, vis0, visited@, from_dist as nat);
        }
        if found.is_some() {
            return found;
        }
        proof {
            lemma_marked_prefix_grows(grid@, vis0, visited@, neighbors@, k as int);
        }
        k = k + 1;
    }
    proof {
        reveal(marked_prefix);
        assert forall|w: Position|
            #![trigger scout_neighbors(from).contains(w)]
            scout_neighbors(from).contains(w) && grid@.is_walkable(w) implies visited@[grid@.index_of(
                w,
            )] by {
            let j = choose|j: int| 0 <= j < 4 && scout_neighbors(from)[j] == w;
            assert(neighbors@[j] == w);
        }
    }
    None
}

/// A marked tile other than the start has been discovered: it is walkable
/// and its parent is recorded.
proof fn lemma_marked_is_discovered(
    g: GridView,
    start: Position,
    goal: Position,
    visited: Seq<bool>,
    prev: Seq<usize>,
    dist: Seq<usize>,
    queue: Seq<usize>,
    p: usize,
)
    requires
        search_inv(g, start, goal, visited, prev, dist, queue),
        (p as int) < g.tiles.len(),
        visited[p as int],
        g.position_of(p as int) != start,
    ensures
        g.is_walkable(g.position_of(p as int)),
        g.position_of(p as int) != goal,
        parent_ok(g, start, visited, prev, dist, p),
        exists|k: int| 0 <= k < queue.len() && queue[k] == p,
{
    reveal(search_inv);
    if g.in_bounds(start) && p as int == g.index_of(start) {
        g.lemma_index_in_range(start);
    }
    assert(queue.contains(p));
    let k = choose|k: int| 0 <= k < queue.len() && queue[k] == p;
    assert(queue[k] == p);
}

/// Marks only grow, so marked neighbourhoods stay marked.
proof fn lemma_neighbors_marked_grow(g: GridView, v1: Seq<bool>, v2: Seq<bool>, p: Position)
    requires
        g.wf(),
        v1.len() == g.tiles.len(),
        neighbors_marked(g, v1, p),
        forall|i: int| 0 <= i < v1.len() && v1[i] ==> #[trigger] v2[i],
    ensures
        neighbors_marked(g, v2, p),
{
    assert forall|w: Position|
        #![trigger scout_neighbors(p).contains(w)]
        scout_neighbors(p).contains(w) && g.is_walkable(w) implies v2[g.index_of(w)] by {
        g.lemma_index_in_range(w);
        assert(v1[g.index_of(w)]);
    }
}

/// When every discovered tile and the start have their walkable neighbours
/// marked, every walk from the start stays on marked tiles.
proof fn lemma_walk_marked(
    g: GridView,
    start: Position,
    goal: Position,
    visited: Seq<bool>,
    prev: Seq<usize>,
    dist: Seq<usize>,
    queue: Seq<usize>,
    path: Seq<Position>,
    i: int,
)
    requires
        search_inv(g, start, goal, visited, prev, dist, queue),
        neighbors_marked(g, visited, start),
        forall|k: int|
            0 <= k < queue.len() ==> neighbors_marked(g, visited, g.position_of(#[trigger] queue[k] as int)),
        is_walk(g, start, path),
        0 <= i < path.len(),
    ensures
        visited[g.index_of(path[i])],
    decreases i,
{
    lemma_search_facts(g, start, goal, visited, prev, dist, queue);
    let from = if i == 0 {
        start
    } else {
        path[i - 1]
    };
    assert(g.is_walkable(path[i]) && is_step(from, path[i]));
    if i == 0 {
        lemma_step_is_neighbor(start, path[i]);
    } else {
        lemma_walk_marked(g, start, goal, visited, prev, dist, queue, path, i - 1);
        let q = path[i - 1];
        assert(g.is_walkable(q));
        g.lemma_index_in_range(q);
        let qi = g.index_of(q);
        assert(has_neighbors(q));
        lemma_step_is_neighbor(q, path[i]);
        if q == start {
            assert(scout_neighbors(start).contains(path[i]));
        } else {
            lemma_marked_is_discovered(g, start, goal, visited, prev, dist, queue, qi as usize);
            let k = choose|k: int| 0 <= k < queue.len() && queue[k] == qi as usize;
            assert(neighbors_marked(g, visited, g.position_of(queue[k] as int)));
            assert(g.position_of(queue[k] as int) == q);
        }
    }
}

/// Follows the recorded parents back from the goal to the start.
fn trace_back(
    grid: &Grid,
    start: Position,
    goal: Position,
    gi: usize,
    visited: &Vec<bool>,
    prev: &Vec<usize>,
    dist: &Vec<usize>,
    queue: &Vec<usize>,
) -> (path: Vec<Position>)
    requires
        search_inv(grid@, start, goal, visited@, prev@, dist@, queue@),
        (gi as int) < grid@.tiles.len(),
        grid@.position_of(gi as int) == goal,
        grid@.is_walkable(goal),
        parent_ok(grid@, start, visited@, prev@, dist@, gi),
    ensures
        is_route(grid@, start, goal, path@),
        path@.len() == dist@[gi as int],
{
    proof {
        lemma_search_facts(grid@, start, goal, visited@, prev@, dist@, queue@);
    }
    let mut cur = gi;
    let mut path: Vec<Position> = Vec::new();
    path.push(grid.pos_from_idx(gi));
    while prev[cur] != usize::MAX
        invariant
            grid.wf(),
            search_inv(grid@, start, goal, visited@, prev@, dist@, queue@),
            prev@.len() == grid@.tiles.len(),
            dist@.len() == grid@.tiles.len(),
            (cur as int) < grid@.tiles.len(),
            parent_ok(grid@, start, visited@, prev@, dist@, cur),
            path@.len() > 0,
            path@.len() + dist@[cur as int] == dist@[gi as int] + 1,
            path@[0] == grid@.position_of(cur as int),
            path@.last() == goal,
            grid@.is_walkable(path@[0]),
            forall|i: int|
                #![trigger path@[i]]
                1 <= i < path@.len() ==> grid@.is_walkable(path@[i]) && is_step(path@[i - 1], path@[i]),
        decreases dist@[cur as int],
    {
        let p = prev[cur];
        proof {
            lemma_marked_is_discovered(grid@, start, goal, visited@, prev@, dist@, queue@, p);
        }
        let pos = grid.pos_from_idx(p);
        let ghost before = path@;
        path.insert(0, pos);
        proof {
            assert(path@ == seq![pos] + before);
            assert forall|i: int|
                #![trigger path@[i]]
                1 <= i < path@.len() implies grid@.is_walkable(path@[i]) && is_step(path@[i - 1], path@[i]) by {
                assert(path@[i] == before[i - 1]);
                if i > 1 {
                    assert(path@[i - 1] == before[i - 2]);
                }
            }
        }
        cur = p;
    }
    proof {
        let ps = path@;
        assert forall|i: int| #![trigger ps[i]] 0 <= i < ps.len() implies grid@.is_walkable(ps[i])
            && is_step(
            if i == 0 {
                start
            } else {
                ps[i - 1]
            },
            ps[i],
        ) by {}
    }
    path
}

/// A breadth-first search over walkable tiles from `start` to `goal`.
/// Answers a shortest route (the start excluded, the goal last); empty
/// when `goal` is `start` or cannot be reached.
pub fn find_path(grid: &Grid, start: Position, goal: Position) -> (path: Vec<Position>)
    requires
        grid.wf(),
        has_neighbors(start),
    ensures
        path@.len() > 0 ==> is_shortest_route(grid@, start, goal, path@),
        path@.len() == 0 ==> start == goal || unreachable(grid@, start, goal),
{
    if start == goal {
        return Vec::new();
    }
    let n = grid.tile_count();
    let mut visited: Vec<bool> = Vec::new();
    let mut prev: Vec<usize> = Vec::new();
    let mut dist: Vec<usize> = Vec::new();
    let mut i: usize = 0;
    while i < n
        invariant
            i <= n,
            visited@ == Seq::new(i as nat, |k: int| false),
            prev@ == Seq::new(i as nat, |k: int| usize::MAX),
            dist@ == Seq::new(i as nat, |k: int| 0usize),
        decreases n - i,
    {
        visited.push(false);
        prev.push(usize::MAX);
        dist.push(0);
        i = i + 1;
        assert(visited@ =~= Seq::new(i as nat, |k: int| false));
        assert(prev@ =~= Seq::new(i as nat, |k: int| usize::MAX));
        assert(dist@ =~= Seq::new(i as nat, |k: int| 0usize));
    }
    let mut queue: Vec<usize> = Vec::new();
    proof {
        lemma_count_false_all(n as nat);
    }
    if let Some(si) = grid.tile_index(start) {
        proof {
            lemma_count_false_update(visited@, si as int);
        }
        visited.set(si, true);
    }
    proof {
        reveal(search_inv);
        let g = grid@;
        assert forall|k: int| 0 <= k < n && #[trigger] visited@[k] implies queue@.contains(k as usize)
            || (g.in_bounds(start) && k == g.index_of(start)) by {}
        reveal(layered);
        assert forall|p: Position| #[trigger] within(g, start, p, 0) implies p == start || (g.in_bounds(p)
            && visited@[g.index_of(p)]) by {
            lemma_within_zero(g, start, p);
        }
    }
    let found = expand(grid, start, goal, start, usize::MAX, 0, &mut visited, &mut prev, &mut dist, &mut queue);
    if let Some(gi) = found {
        let path = trace_back(grid, start, goal, gi, &visited, &prev, &dist, &queue);
        return path;
    }
    let ghost mut level: int = 0;
    let mut head: usize = 0;
    proof {
        lemma_search_facts(grid@, start, goal, visited@, prev@, dist@, queue@);
    }
    while head < queue.len()
        invariant
            search_inv(grid@, start, goal, visited@, prev@, dist@, queue@),
            layered(grid@, start, dist@, queue@, level),
            0 <= level,
            head < queue@.len() ==> level <= dist@[queue@[head as int] as int],
            n == grid@.tiles.len(),
            head <= queue.len(),
            start != goal,
            neighbors_marked(grid@, visited@, start),
            forall|k: int|
                0 <= k < head ==> neighbors_marked(
                    grid@,
                    visited@,
                    grid@.position_of(#[trigger] queue@[k] as int),
                ),
        decreases n - head,
    {
        proof {
            lemma_search_facts(grid@, start, goal, visited@, prev@, dist@, queue@);
        }
        let cur = queue[head];
        let ghost v0 = visited@;
        let ghost q0 = queue@;
        let ghost h0 = head as int;
        head = head + 1;
        let p = grid.pos_from_idx(cur);
        proof {
            assert(q0[h0] == cur);
            lemma_marked_is_discovered(grid@, start, goal, visited@, prev@, dist@, queue@, cur);
        }
        let d = dist[cur];
        proof {
            lemma_reach_marked_upto(grid@, start, goal, visited@, prev@, dist@, queue@, level, h0, d as nat);
            lemma_layered_raise(grid@, start, dist@, queue@, level, d as int);
        }
        let found = expand(grid, start, goal, p, cur, d, &mut visited, &mut prev, &mut dist, &mut queue);
        if let Some(gi) = found {
            proof {
                lemma_search_facts(grid@, start, goal, visited@, prev@, dist@, queue@);
            }
            let path = trace_back(grid, start, goal, gi, &visited, &prev, &dist, &queue);
            proof {
                assert forall|r: Seq<Position>| is_route(grid@, start, goal, r) implies path@.len() <= r.len() by {
                    lemma_route_within(grid@, start, goal, r);
                    if r.len() <= d {
                        lemma_within_mono(grid@, start, goal, r.len(), d as nat);
                    }
                }
            }
            return path;
        }
        proof {
            level = d as int;
            if head < queue@.len() {
                reveal(layered);
                assert(queue@[h0] == q0[h0]);
                assert(dist@[queue@[h0] as int] <= dist@[queue@[head as int] as int]);
            }
        }
        proof {
            lemma_neighbors_marked_grow(grid@, v0, visited@, start);
            assert forall|k: int|
                0 <= k < head implies neighbors_marked(
                grid@,
                visited@,
                grid@.position_of(#[trigger] queue@[k] as int),
            ) by {
                assert(queue@[k] == q0[k]);
                if k < h0 {
                    lemma_neighbors_marked_grow(grid@, v0, visited@, grid@.position_of(q0[k] as int));
                }
            }
        }
    }
    proof {
        reveal(unreachable);
        assert forall|p: Seq<Position>| !is_route(grid@, start, goal, p) by {
            if is_route(grid@, start, goal, p) {
                lemma_walk_marked(grid@, start, goal, visited@, prev@, dist@, queue@, p, p.len() - 1);
                let gpos = p[p.len() - 1];
                assert(grid@.is_walkable(gpos));
                grid@.lemma_index_in_range(gpos);
                let gix = grid@.index_of(gpos);
                lemma_search_facts(grid@, start, goal, visited@, prev@, dist@, queue@);
                assert(gix < grid@.tiles.len());
                if gpos != start {
                    lemma_marked_is_discovered(grid@, start, goal, visited@, prev@, dist@, queue@, gix as usize);
                }
            }
        }
    }
    Vec::new()
}

/// The abstract state of a collector.
pub struct CollectorView {
    pub id: RobotId,
    pub position: Position,
    pub state: RobotState,
    pub carrying: Option<ResourceType>,
    pub target: Option<Position>,
    pub path: Seq<Position>,
}

/// What a planning step answers about `path` from `from` to `goal`: a
/// shortest route when it is not empty; otherwise `goal` is `from` or cannot
/// be reached.
pub open spec fn planned(g: GridView, from: Position, goal: Position, path: Seq<Position>) -> bool {
    &&& path.len() > 0 ==> is_shortest_route(g, from, goal, path)
    &&& path.len() == 0 ==> from == goal || unreachable(g, from, goal)
}

/// `k` is `k0` with some known deposits marked exhausted, each of them one
/// that the grid no longer shows.
#[verifier::opaque]
pub open spec fn exhausted_only_missing(g: GridView, k0: KnowledgeView, k: KnowledgeView) -> bool {
    &&& k.obstacles == k0.obstacles
    &&& forall|p: Position|
        #[trigger] k.depleted.contains(p) ==> k0.depleted.contains(p) || (k0.resources.contains_key(p)
            && g.get_tile(p) != Some(Tile::Resource(k0.resources[p].resource_type)))
    &&& forall|p: Position|
        #[trigger] k.resources.contains_key(p) ==> k0.resources.contains_key(p) && k.resources[p]
            == k0.resources[p] && !k.depleted.contains(p)
    &&& forall|p: Position|
        #[trigger] k0.resources.contains_key(p) ==> k.resources.contains_key(p) || k.depleted.contains(p)
}

proof fn lemma_exhausted_start(g: GridView, k0: KnowledgeView)
    requires
        k0.wf(),
    ensures
        exhausted_only_missing(g, k0, k0),
{
    reveal(exhausted_only_missing);
}

proof fn lemma_exhausted_step(g: GridView, k0: KnowledgeView, k: KnowledgeView, p: Position)
    requires
        exhausted_only_missing(g, k0, k),
        k0.resources.contains_key(p),
        g.get_tile(p) != Some(Tile::Resource(k0.resources[p].resource_type)),
    ensures
        exhausted_only_missing(g, k0, k.with_depleted(p)),
        k.with_depleted(p).depleted.contains(p),
        forall|q: Position| k.depleted.contains(q) ==> #[trigger] k.with_depleted(p).depleted.contains(q),
{
    reveal(exhausted_only_missing);
    let k2 = k.with_depleted(p);
    assert forall|q: Position| #[trigger] k2.depleted.contains(q) implies k0.depleted.contains(q) || (
    k0.resources.contains_key(q) && g.get_tile(q) != Some(Tile::Resource(k0.resources[q].resource_type))) by {
        if q != p {
            assert(k.depleted.contains(q));
        }
    }
}

/// What planning toward a deposit does, from collector `c0` to `c1` and
/// from store `k0` to `k1`: only deposits that the grid no longer shows are
/// marked exhausted; a chosen deposit is known, still on the grid, and the
/// collector heads for it along a shortest route; with none chosen, the
/// collector is idle and every known deposit is exhausted, under it, or out
/// of reach.
pub open spec fn resource_plan(
    g: GridView,
    c0: CollectorView,
    c1: CollectorView,
    chosen: Option<Position>,
    k0: KnowledgeView,
    k1: KnowledgeView,
) -> bool {
    &&& exhausted_only_missing(g, k0, k1)
    &&& match chosen {
        Some(p) => {
            &&& k0.resources.contains_key(p)
            &&& g.get_tile(p) == Some(Tile::Resource(k0.resources[p].resource_type))
            &&& is_shortest_route(g, c0.position, p, c1.path)
            &&& c1 == (CollectorView {
                target: Some(p),
                state: RobotState::MovingTo(p),
                path: c1.path,
                ..c0
            })
        },
        None => {
            &&& c1 == (CollectorView {
                target: None,
                state: RobotState::Idle,
                path: Seq::empty(),
                ..c0
            })
            &&& forall|p: Position|
                #[trigger] k0.resources.contains_key(p) ==> {
                    ||| k1.depleted.contains(p)
                    ||| p == c0.position
                    ||| unreachable(g, c0.position, p)
                }
        },
    }
}

/// A harvesting robot that plans paths to deposits and back to the base.
#[derive(Debug, Clone, PartialEq, Eq)]
pub struct Collector {
    id: RobotId,
    position: Position,
    state: RobotState,
    carrying: Option<ResourceType>,
    target: Option<Position>,
    path: Vec<Position>,
}

impl Collector {
    pub closed spec fn view(&self) -> CollectorView {
        CollectorView {
            id: self.id,
            position: self.position,
            state: self.state,
            carrying: self.carrying,
            target: self.target,
            path: self.path@,
        }
    }

    /// An idle collector with nothing planned.
    pub fn new(id: RobotId, position: Position) -> (c: Self)
        ensures
            c@ == (CollectorView {
                id,
                position,
                state: RobotState::Idle,
                carrying: None,
                target: None,
                path: Seq::empty(),
            }),
    {
        Collector {
            id,
            position,
            state: RobotState::Idle,
            carrying: None,
            target: None,
            path: Vec::new(),
        }
    }

    pub fn id(&self) -> (r: RobotId)
        ensures
            r == self@.id,
    {
        self.id
    }

    pub fn position(&self) -> (r: Position)
        ensures
            r == self@.position,
    {
        self.position
    }

    pub fn state(&self) -> (r: RobotState)
        ensures
            r == self@.state,
    {
        self.state
    }

    pub fn carrying(&self) -> (r: Option<ResourceType>)
        ensures
            r == self@.carrying,
    {
        self.carrying
    }

    pub fn target(&self) -> (r: Option<Position>)
        ensures
            r == self@.target,
    {
        self.target
    }

    /// The positions still to step through, the next one first.
    pub fn path(&self) -> (r: &[Position])
        ensures
            r@ == self@.path,
    {
        self.path.as_slice()
    }

    /// What the display shows of a collector.
    pub fn snapshot(&self) -> (s: RobotSnapshot)
        ensures
            s == (RobotSnapshot {
                id: self@.id,
                kind: RobotKind::Collector,
                position: self@.position,
                state: self@.state,
                carrying: self@.carrying,
            }),
    {
        RobotSnapshot {
            id: self.id,
            kind: RobotKind::Collector,
            position: self.position,
            state: self.state,
            carrying: self.carrying,
        }
    }

    /// Replaces the path by one from the current position to `target` (see
    /// `find_path`); answers whether there is one.
    pub fn plan_path(&mut self, grid: &Grid, target: Position) -> (found: bool)
        requires
            grid.wf(),
            has_neighbors(old(self)@.position),
        ensures
            final(self)@ == (CollectorView { path: final(self)@.path, ..old(self)@ }),
            found == (final(self)@.path.len() > 0),
            planned(grid@, old(self)@.position, target, final(self)@.path),
    {
        self.path = find_path(grid, self.position, target);
        !self.path.is_empty()
    }

    /// Every position left on the path is walkable.
    pub fn path_is_valid(&self, grid: &Grid) -> (r: bool)
        requires
            grid.wf(),
        ensures
            r == forall|i: int| 0 <= i < self@.path.len() ==> grid@.is_walkable(#[trigger] self@.path[i]),
    {
        let mut i: usize = 0;
        while i < self.path.len()
            invariant
                grid.wf(),
                i <= self.path.len(),
                forall|j: int| 0 <= j < i ==> grid@.is_walkable(#[trigger] self@.path[j]),
            decreases self.path.len() - i,
        {
            if !grid.is_walkable(self.path[i]) {
                assert(!grid@.is_walkable(self@.path[i as int]));
                return false;
            }
            i = i + 1;
        }
        true
    }

    /// Steps to the next position of the path when it is walkable and
    /// answers true; when it is blocked the path is dropped. Answers false
    /// when there is nothing to follow.
    pub fn move_one_step(&mut self, grid: &Grid) -> (moved: bool)
        requires
            grid.wf(),
        ensures
            (final(self)@, moved) == old(self)@.stepped(grid@),
            old(self)@.path.len() == 0 ==> !moved && final(self)@ == old(self)@,
            old(self)@.path.len() > 0 && !grid@.is_walkable(old(self)@.path[0]) ==> !moved
                && final(self)@ == (CollectorView { path: Seq::empty(), ..old(self)@ }),
            old(self)@.path.len() > 0 && grid@.is_walkable(old(self)@.path[0]) ==> moved
                && final(self)@ == (CollectorView {
                position: old(self)@.path[0],
                path: old(self)@.path.drop_first(),
                ..old(self)@
            }),
    {
        if self.path.is_empty() {
            return false;
        }
        let next = self.path[0];
        if !grid.is_walkable(next) {
            self.path.clear();
            return false;
        }
        self.position = next;
        self.path.remove(0);
        assert(self@.path =~= old(self)@.path.drop_first());
        true
    }

    /// Plans the way back to the base: answers false, changing nothing, when
    /// there is no base; otherwise replaces the path and, when there is a
    /// route, aims at the base and returns to it.
    pub fn plan_to_base(&mut self, grid: &Grid) -> (found: bool)
        requires
            grid.wf(),
            has_neighbors(old(self)@.position),
        ensures
            grid@.base is None ==> !found && final(self)@ == old(self)@,
            grid@.base is Some ==> {
                let b = grid@.base.unwrap();
                &&& found == (final(self)@.path.len() > 0)
                &&& planned(grid@, old(self)@.position, b, final(self)@.path)
                &&& found ==> final(self)@ == (CollectorView {
                    target: Some(b),
                    state: RobotState::ReturningToBase,
                    path: final(self)@.path,
                    ..old(self)@
                })
                &&& !found ==> final(self)@ == (CollectorView { path: final(self)@.path, ..old(self)@ })
            },
    {
        let base = match grid.base_position() {
            Some(b) => b,
            None => return false,
        };
        if !self.plan_path(grid, base) {
            return false;
        }
        self.target = Some(base);
        self.state = RobotState::ReturningToBase;
        true
    }

    /// Picks the first known deposit, in the shared store's order, that
    /// still lies on the grid and can be reached, and heads for it. Deposits
    /// that the grid no longer shows are marked exhausted in the store on
    /// the way; the store stays locked meanwhile. When none qualifies the
    /// collector is idle with no target and no path.
    pub fn plan_to_resource(&mut self, grid: &Grid, knowledge: &SharedKnowledge) -> (chosen:
        Option<Position>)
        requires
            grid.wf(),
            has_neighbors(old(self)@.position),
        ensures
            exists|k0: KnowledgeView, k1: KnowledgeView|
                #![trigger resource_plan(grid@, old(self)@, final(self)@, chosen, k0, k1)]
                k0.wf() && k1.wf() && resource_plan(grid@, old(self)@, final(self)@, chosen, k0, k1),
    {
        let mut guard = knowledge.lock_for_update();
        let state = write_state(&mut guard);
        proof {
            vstd::prelude::use_type_invariant(&*state);
            state.lemma_wf_view();
        }
        let ghost k0 = state@;
        let chosen = self.plan_in(grid, state);
        assert(resource_plan(grid@, old(self)@, self@, chosen, k0, state@));
        proof {
            vstd::prelude::use_type_invariant(&*state);
            state.lemma_wf_view();
        }
        chosen
    }

    /// Picks the first known deposit, in `knowledge`'s order, that still lies
    /// on the grid and can be reached, and heads for it. Deposits that the
    /// grid no longer shows are marked exhausted on the way. When none
    /// qualifies the collector is idle with no target and no path.
    fn plan_in(&mut self, grid: &Grid, knowledge: &mut KnowledgeState) -> (chosen:
        Option<Position>)
        requires
            grid.wf(),
            old(knowledge).wf(),
            has_neighbors(old(self)@.position),
        ensures
            final(knowledge).wf(),
            resource_plan(grid@, old(self)@, final(self)@, chosen, old(knowledge)@, final(knowledge)@),
    {
        let targets = knowledge.valid_resource_targets();
        proof {
            knowledge.lemma_wf_view();
            lemma_exhausted_start(grid@, knowledge@);
        }
        let ghost k0 = knowledge@;
        let ghost ts = targets@;
        let mut i: usize = 0;
        while i < targets.len()
            invariant
                grid.wf(),
                knowledge.wf(),
                has_neighbors(self@.position),
                self@.position == old(self)@.position,
                self@.id == old(self)@.id,
                self@.state == old(self)@.state,
                self@.carrying == old(self)@.carrying,
                self@.target == old(self)@.target,
                k0 == old(knowledge)@,
                k0.wf(),
                targets@ == ts,
                crate::knowledge::unique_positions(ts),
                crate::knowledge::resource_map(ts) == k0.resources.restrict(
                    Set::new(|p: Position| k0.resources.contains_key(p) && k0.resources[p].remaining > 0),
                ),
                i <= ts.len(),
                exhausted_only_missing(grid@, k0, knowledge@),
                // the deposits looked at so far are exhausted or out of reach
                forall|j: int|
                    0 <= j < i ==> {
                        let p = (#[trigger] ts[j]).position;
                        ||| knowledge@.depleted.contains(p)
                        ||| p == old(self)@.position
                        ||| unreachable(grid@, old(self)@.position, p)
                    },
            decreases ts.len() - i,
        {
            let t = targets[i];
            let ghost kb = knowledge@;
            proof {
                crate::knowledge::lemma_resource_map_index(ts, i as int);
                assert(k0.resources.contains_key(t.position));
                assert(k0.resources[t.position] == t);
            }
            if !matches!(grid.get_tile(t.position), Some(Tile::Resource(rt)) if rt == t.resource_type) {
                proof {
                    lemma_exhausted_step(grid@, k0, knowledge@, t.position);
                }
                knowledge.mark_resource_depleted(t.position);
            } else {
                if self.plan_path(grid, t.position) {
                    self.target = Some(t.position);
                    self.state = RobotState::MovingTo(t.position);
                    return Some(t.position);
                }
            }
            i = i + 1;
        }
        proof {
            assert forall|p: Position| #[trigger] k0.resources.contains_key(p) implies {
                ||| knowledge@.depleted.contains(p)
                ||| p == old(self)@.position
                ||| unreachable(grid@, old(self)@.position, p)
            } by {
                assert(k0.resources[p].remaining > 0);
                assert(crate::knowledge::resource_map(ts).contains_key(p));
                let j = crate::knowledge::resource_index(ts, p);
                assert(ts[j].position == p);
            }
        }
        self.path.clear();
        self.target = None;
        self.state = RobotState::Idle;
        None
    }
}

/// What `first_enterable` answers is an enterable position of `ns` (fresh
/// when asked for one); when it answers nothing, no position of `ns`
/// qualifies.
proof fn lemma_first_enterable(
    ns: Seq<Position>,
    g: GridView,
    k: KnowledgeView,
    visited: Seq<Position>,
    fresh_only: bool,
)
    ensures
        match first_enterable(ns, g, k, visited, fresh_only) {
            Some(p) => ns.contains(p) && can_enter(g, k, p) && (fresh_only ==> !visited.contains(p)),
            None => forall|i: int|
                0 <= i < ns.len() ==> !(can_enter(g, k, #[trigger] ns[i]) && (!fresh_only
                    || !visited.contains(ns[i]))),
        },
    decreases ns.len(),
{
    if ns.len() > 0 {
        lemma_first_enterable(ns.drop_first(), g, k, visited, fresh_only);
        match first_enterable(ns, g, k, visited, fresh_only) {
            Some(p) => {
                if p != ns[0] || !(can_enter(g, k, ns[0]) && (!fresh_only || !visited.contains(ns[0]))) {
                    let j = choose|j: int| 0 <= j < ns.drop_first().len() && ns.drop_first()[j] == p;
                    assert(ns[j + 1] == p);
                }
            },
            None => {
                assert forall|i: int| 0 <= i < ns.len() implies !(can_enter(g, k, #[trigger] ns[i]) && (
                !fresh_only || !visited.contains(ns[i]))) by {
                    if i > 0 {
                        assert(ns[i] == ns.drop_first()[i - 1]);
                    }
                }
            },
        }
    }
}

/// A scout that moves takes one step onto a tile it may enter, preferring
/// one it has not visited; it remembers the tile and forgets none it had
/// visited. A scout that does not move has no neighbour it may enter and is
/// unchanged.
pub proof fn law_scout_moves_one_safe_step(s: ScoutView, g: GridView, k: KnowledgeView)
    requires
        has_neighbors(s.position),
    ensures
        ({
            let (s2, moved) = s.advanced(g, k);
            let ns = scout_neighbors(s.position);
            &&& s2.id == s.id && s2.seen == s.seen
            &&& forall|p: Position| s.visited.contains(p) ==> #[trigger] s2.visited.contains(p)
            &&& moved ==> is_step(s.position, s2.position) && can_enter(g, k, s2.position)
                && s2.visited.contains(s2.position)
            &&& moved && (exists|i: int|
                0 <= i < 4 && can_enter(g, k, #[trigger] ns[i]) && !s.visited.contains(ns[i]))
                ==> !s.visited.contains(s2.position)
            &&& !moved ==> s2 == s && forall|i: int| 0 <= i < 4 ==> !can_enter(g, k, #[trigger] ns[i])
        }),
{
    let ns = scout_neighbors(s.position);
    lemma_first_enterable(ns, g, k, s.visited, true);
    lemma_first_enterable(ns, g, k, s.visited, false);
    let (s2, moved) = s.advanced(g, k);
    if moved {
        let p2 = s2.position;
        lemma_step_is_neighbor(s.position, p2);
        if !s.visited.contains(p2) {
            assert(s2.visited.last() == p2);
            assert forall|p: Position| s.visited.contains(p) implies #[trigger] s2.visited.contains(p) by {
                let j = choose|j: int| 0 <= j < s.visited.len() && s.visited[j] == p;
                assert(s2.visited[j] == p);
            }
        }
    }
}

/// `b` is scout `a` later on: the same robot, whose list of visited tiles
/// starts with `a`'s.
pub open spec fn visits_extend(a: ScoutView, b: ScoutView) -> bool {
    &&& b.id == a.id
    &&& a.visited.len() <= b.visited.len()
    &&& b.visited.subrange(0, a.visited.len() as int) == a.visited
}

/// A scout's visits only grow: advancing keeps the list of visited tiles as
/// a prefix (a scan or a tick leaves it so as well, see their contracts),
/// and this carries over any number of calls, so the first visited tile
/// stays the one the scout started on.
pub proof fn law_visits_only_grow(s: ScoutView, g: GridView, k: KnowledgeView, later: ScoutView, last: ScoutView)
    ensures
        visits_extend(s, s),
        visits_extend(s, s.advanced(g, k).0),
        visits_extend(s, later) && visits_extend(later, last) ==> visits_extend(s, last),
        visits_extend(s, later) && s.visited.len() > 0 ==> later.visited[0] == s.visited[0],
{
    assert(s.visited.subrange(0, s.visited.len() as int) =~= s.visited);
    let s2 = s.advanced(g, k).0;
    if s2.visited != s.visited {
        assert(s2.visited.subrange(0, s.visited.len() as int) =~= s.visited);
    }
    if visits_extend(s, later) && visits_extend(later, last) {
        let n = s.visited.len() as int;
        assert forall|i: int| 0 <= i < n implies last.visited[i] == s.visited[i] by {
            assert(last.visited.subrange(0, later.visited.len() as int)[i] == later.visited[i]);
            assert(later.visited.subrange(0, n)[i] == s.visited[i]);
        }
        assert(last.visited.subrange(0, n) =~= s.visited);
    }
    if visits_extend(s, later) && s.visited.len() > 0 {
        assert(later.visited.subrange(0, s.visited.len() as int)[0] == later.visited[0]);
    }
}

/// After a scan, every position it looked at is seen, and so is every
/// position seen before it.
proof fn lemma_scan_all_sees(id: RobotId, g: GridView, st: ScanState, ps: Seq<Position>)
    ensures
        forall|i: int| 0 <= i < ps.len() ==> scan_all(id, g, st, ps).seen.contains(#[trigger] ps[i]),
        forall|p: Position| st.seen.contains(p) ==> #[trigger] scan_all(id, g, st, ps).seen.contains(p),
    decreases ps.len(),
{
    if ps.len() > 0 {
        let st1 = scan_step(id, g, st, ps[0]);
        assert(st1.seen.contains(ps[0])) by {
            if !st.seen.contains(ps[0]) {
                assert(st1.seen.last() == ps[0]);
            }
        }
        assert forall|p: Position| st.seen.contains(p) implies #[trigger] st1.seen.contains(p) by {
            if !st.seen.contains(ps[0]) {
                let j = choose|j: int| 0 <= j < st.seen.len() && st.seen[j] == p;
                assert(st1.seen[j] == p);
            }
        }
        lemma_scan_all_sees(id, g, st1, ps.drop_first());
        let end = scan_all(id, g, st, ps);
        assert(end == scan_all(id, g, st1, ps.drop_first()));
        assert(end.seen.contains(ps[0]));
        assert forall|i: int| 0 <= i < ps.len() implies end.seen.contains(#[trigger] ps[i]) by {
            if i > 0 {
                assert(ps[i] == ps.drop_first()[i - 1]);
            }
        }
    }
}

/// A scan over positions that are all seen already changes nothing.
proof fn lemma_scan_all_seen(id: RobotId, g: GridView, st: ScanState, ps: Seq<Position>)
    requires
        forall|i: int| 0 <= i < ps.len() ==> st.seen.contains(#[trigger] ps[i]),
    ensures
        scan_all(id, g, st, ps) == st,
    decreases ps.len(),
{
    if ps.len() > 0 {
        assert(st.seen.contains(ps[0]));
        assert forall|i: int| 0 <= i < ps.drop_first().len() implies st.seen.contains(
            #[trigger] ps.drop_first()[i],
        ) by {
            assert(ps.drop_first()[i] == ps[i + 1]);
        }
        lemma_scan_all_seen(id, g, st, ps.drop_first());
    }
}

/// A scout never reports a tile twice: scanning again from the same place,
/// on the same grid, with what the first scan left, reports nothing and
/// changes nothing.
pub proof fn law_rescan_reports_nothing(
    id: RobotId,
    g: GridView,
    seen: Seq<Position>,
    k: KnowledgeView,
    pos: Position,
)
    ensures
        ({
            let vs = visible_from(g, pos);
            let st = scan_all(id, g, ScanState { seen, knowledge: k, messages: Seq::empty() }, vs);
            let again = scan_all(
                id,
                g,
                ScanState { seen: st.seen, knowledge: st.knowledge, messages: Seq::empty() },
                vs,
            );
            &&& again.messages.len() == 0
            &&& again.seen == st.seen
            &&& again.knowledge == st.knowledge
        }),
{
    let vs = visible_from(g, pos);
    let st = scan_all(id, g, ScanState { seen, knowledge: k, messages: Seq::empty() }, vs);
    lemma_scan_all_sees(id, g, ScanState { seen, knowledge: k, messages: Seq::empty() }, vs);
    lemma_scan_all_seen(
        id,
        g,
        ScanState { seen: st.seen, knowledge: st.knowledge, messages: Seq::empty() },
        vs,
    );
}

/// A scout steps only onto an in-bounds tile that is empty, the base or a
/// deposit and that nobody reported as an obstacle; a scout that stays has
/// no such tile among its four neighbours.
pub proof fn law_scout_enters_every_open_tile(s: ScoutView, g: GridView, k: KnowledgeView)
    requires
        has_neighbors(s.position),
    ensures
        ({
            let (s2, moved) = s.advanced(g, k);
            let ns = scout_neighbors(s.position);
            &&& moved ==> g.in_bounds(s2.position) && (g.get_tile(s2.position) == Some(Tile::Empty)
                || g.get_tile(s2.position) == Some(Tile::Base) || g.get_tile(s2.position) matches Some(
                Tile::Resource(_),
            )) && !k.obstacles.contains(s2.position)
            &&& !moved ==> forall|i: int|
                0 <= i < 4 ==> !(g.in_bounds(#[trigger] ns[i]) && (g.get_tile(ns[i]) == Some(Tile::Empty)
                    || g.get_tile(ns[i]) == Some(Tile::Base) || g.get_tile(ns[i]) matches Some(
                    Tile::Resource(_),
                )) && !k.obstacles.contains(ns[i]))
        }),
{
    law_scout_moves_one_safe_step(s, g, k);
    let ns = scout_neighbors(s.position);
    let (s2, moved) = s.advanced(g, k);
    if !moved {
        assert forall|i: int| 0 <= i < 4 implies !(g.in_bounds(#[trigger] ns[i]) && (g.get_tile(ns[i])
            == Some(Tile::Empty) || g.get_tile(ns[i]) == Some(Tile::Base) || g.get_tile(ns[i]) matches Some(
            Tile::Resource(_),
        )) && !k.obstacles.contains(ns[i])) by {
            assert(!can_enter(g, k, ns[i]));
        }
    }
}

/// The broadcast that reports deposit `d` found by robot `id`.
spec fn found_report(id: RobotId, d: ResourceNode) -> Envelope {
    Envelope {
        sender: ActorId::Robot(id),
        recipient: crate::comms::Recipient::Broadcast,
        message: Message::Discovery(DiscoveryMessage::ResourceFound { robot_id: id, resource: d }),
    }
}

/// The position of deposit `d` is still to be looked at, and nothing is
/// filed or exhausted there yet.
spec fn deposit_pending(st: ScanState, d: ResourceNode) -> bool {
    &&& st.knowledge.resource_at(d.position) is None
    &&& !st.knowledge.depleted.contains(d.position)
    &&& !st.seen.contains(d.position)
}

/// Deposit `d` has been looked at, filed as it is, and reported.
spec fn deposit_reported(id: RobotId, st: ScanState, d: ResourceNode) -> bool {
    &&& st.knowledge.resource_at(d.position) == Some(d)
    &&& st.messages.contains(found_report(id, d))
    &&& st.seen.contains(d.position)
}

/// One scan step moves deposit `i` of the grid from pending to reported
/// when it looks at its position, keeps it pending otherwise, and never
/// undoes a report.
proof fn lemma_scan_step_deposit(id: RobotId, g: GridView, st: ScanState, q: Position, i: int)
    requires
        g.wf(),
        0 <= i < g.resources.len(),
        deposit_pending(st, g.resources[i]) || deposit_reported(id, st, g.resources[i]),
    ensures
        ({
            let d = g.resources[i];
            let next = scan_step(id, g, st, q);
            &&& deposit_pending(st, d) && q != d.position ==> deposit_pending(next, d)
            &&& deposit_pending(st, d) && q == d.position ==> deposit_reported(id, next, d)
            &&& deposit_reported(id, st, d) ==> deposit_reported(id, next, d)
        }),
{
    let d = g.resources[i];
    let pos = d.position;
    let next = scan_step(id, g, st, q);
    assert(g.tile(pos) == Tile::Resource(d.resource_type));
    if !st.seen.contains(q) {
        assert(next.seen == st.seen.push(q));
        assert(next.seen.contains(q)) by {
            assert(next.seen[next.seen.len() - 1] == q);
        }
        assert forall|x: Position| st.seen.contains(x) implies next.seen.contains(x) by {
            let j = choose|j: int| 0 <= j < st.seen.len() && st.seen[j] == x;
            assert(next.seen[j] == x);
        }
        if q != pos {
            if deposit_pending(st, d) {
                assert(!next.seen.contains(pos)) by {
                    if next.seen.contains(pos) {
                        let j = choose|j: int| 0 <= j < next.seen.len() && next.seen[j] == pos;
                        if j < st.seen.len() {
                            assert(st.seen[j] == pos);
                        }
                    }
                }
            }
            match g.get_tile(q) {
                Some(Tile::Resource(t)) => {
                    if st.knowledge.resource_at(q) is None {
                        let found = reported_resource(g, q, t);
                        if has_resource_at(g.resources, q) {
                            let j = resource_index(g.resources, q);
                            assert(g.resources[j].position == q);
                        }
                        assert(found.position == q);
                    }
                },
                _ => {},
            }
            assert(next.messages == st.messages || exists|m: Envelope| next.messages == st.messages.push(m));
            if deposit_reported(id, st, d) {
                let j = choose|j: int| 0 <= j < st.messages.len() && st.messages[j] == found_report(id, d);
                if next.messages != st.messages {
                    let m = choose|m: Envelope| next.messages == st.messages.push(m);
                    assert(next.messages[j] == found_report(id, d));
                }
            }
        } else {
            assert(resource_index(g.resources, pos) == i) by {
                assert(has_resource_at(g.resources, pos));
                let j = resource_index(g.resources, pos);
                assert(g.resources[j].position == pos);
            }
            if deposit_pending(st, d) {
                assert(reported_resource(g, pos, d.resource_type) == d);
                assert(d.remaining > 0);
                assert(next.messages == st.messages.push(found_report(id, d)));
                assert(next.messages[next.messages.len() - 1] == found_report(id, d));
            }
        }
    }
}

/// A scan over `ps` that looks at the position of a pending deposit
/// reports it; a reported deposit stays reported.
proof fn lemma_scan_all_deposit(id: RobotId, g: GridView, st: ScanState, ps: Seq<Position>, i: int)
    requires
        g.wf(),
        0 <= i < g.resources.len(),
        deposit_pending(st, g.resources[i]) && ps.contains(g.resources[i].position) || deposit_reported(
            id,
            st,
            g.resources[i],
        ),
    ensures
        deposit_reported(id, scan_all(id, g, st, ps), g.resources[i]),
    decreases ps.len(),
{
    let d = g.resources[i];
    if ps.len() > 0 {
        lemma_scan_step_deposit(id, g, st, ps[0], i);
        let st1 = scan_step(id, g, st, ps[0]);
        if deposit_pending(st, d) && ps[0] != d.position {
            let j = choose|j: int| 0 <= j < ps.len() && ps[j] == d.position;
            assert(ps.drop_first()[j - 1] == d.position);
        }
        lemma_scan_all_deposit(id, g, st1, ps.drop_first(), i);
    }
}

/// A scan that looks at a tile holding a deposit that nothing is known of
/// yet files that deposit exactly as the grid lists it, with its own
/// amount, and reports it.
pub proof fn law_scan_reports_grid_deposit(s: ScoutView, g: GridView, k: KnowledgeView, i: int)
    requires
        g.wf(),
        0 <= i < g.resources.len(),
        visible_from(g, s.position).contains(g.resources[i].position),
        !s.seen.contains(g.resources[i].position),
        k.resource_at(g.resources[i].position) is None,
        !k.depleted.contains(g.resources[i].position),
    ensures
        scanned(s, g, k).knowledge.resource_at(g.resources[i].position) == Some(g.resources[i]),
        scanned(s, g, k).messages.contains(
            Envelope {
                sender: ActorId::Robot(s.id),
                recipient: crate::comms::Recipient::Broadcast,
                message: Message::Discovery(
                    DiscoveryMessage::ResourceFound { robot_id: s.id, resource: g.resources[i] },
                ),
            },
        ),
{
    let st = ScanState { seen: s.seen, knowledge: k, messages: Seq::empty() };
    lemma_scan_all_deposit(s.id, g, st, visible_from(g, s.position), i);
}

impl CollectorView {
    /// The collector after `move_one_step`, and whether it moved.
    pub open spec fn stepped(self, g: GridView) -> (CollectorView, bool) {
        if self.path.len() == 0 {
            (self, false)
        } else if !g.is_walkable(self.path[0]) {
            (CollectorView { path: Seq::empty(), ..self }, false)
        } else {
            (CollectorView { position: self.path[0], path: self.path.drop_first(), ..self }, true)
        }
    }

    /// The collector after `n` calls of `move_one_step` on the same grid.
    pub open spec fn steps(self, g: GridView, n: nat) -> CollectorView
        decreases n,
    {
        if n == 0 {
            self
        } else {
            self.stepped(g).0.steps(g, (n - 1) as nat)
        }
    }
}

/// One step along a walk leaves a walk from the new position.
proof fn lemma_step_walk(c: CollectorView, g: GridView)
    requires
        is_walk(g, c.position, c.path),
        c.path.len() > 0,
    ensures
        g.is_walkable(c.path[0]),
        c.stepped(g).1,
        is_walk(g, c.stepped(g).0.position, c.stepped(g).0.path),
{
    assert(g.is_walkable(c.path[0]));
    let c1 = c.stepped(g).0;
    assert forall|i: int| #![trigger c1.path[i]] 0 <= i < c1.path.len() implies g.is_walkable(c1.path[i])
        && is_step(
        if i == 0 {
            c1.position
        } else {
            c1.path[i - 1]
        },
        c1.path[i],
    ) by {
        assert(c1.path[i] == c.path[i + 1]);
        assert(g.is_walkable(c.path[i + 1]));
        if i > 0 {
            assert(c1.path[i - 1] == c.path[i]);
        }
    }
}

/// Along a walk, each step moves to the next position of the path and
/// drops it from the path.
#[verifier::rlimit(30)]
proof fn lemma_follow_walk(c: CollectorView, g: GridView, n: nat)
    requires
        is_walk(g, c.position, c.path),
        n <= c.path.len(),
    ensures
        c.steps(g, n).path == c.path.skip(n as int),
        n > 0 ==> c.steps(g, n).position == c.path[n - 1],
        n < c.path.len() ==> c.steps(g, n).stepped(g).1,
        c.steps(g, n).id == c.id && c.steps(g, n).state == c.state && c.steps(g, n).target == c.target
            && c.steps(g, n).carrying == c.carrying,
    decreases n,
{
    if n == 0 {
        assert(c.path.skip(0) =~= c.path);
        if c.path.len() > 0 {
            lemma_step_walk(c, g);
        }
    } else {
        lemma_step_walk(c, g);
        let c1 = c.stepped(g).0;
        lemma_follow_walk(c1, g, (n - 1) as nat);
        assert(c1.path.skip(n - 1) =~= c.path.skip(n as int));
        if n > 1 {
            assert(c1.path[n - 2] == c.path[n - 1]);
        }
    }
}

/// A collector on a route to `goal` that keeps stepping on an unchanged
/// grid moves at every step, and after as many steps as the route is long
/// it stands on `goal` with nothing left to follow.
pub proof fn law_route_is_followed_to_goal(c: CollectorView, g: GridView, goal: Position)
    requires
        is_route(g, c.position, goal, c.path),
    ensures
        forall|n: nat| n < c.path.len() ==> (#[trigger] c.steps(g, n)).stepped(g).1,
        c.steps(g, c.path.len()).position == goal,
        c.steps(g, c.path.len()).path.len() == 0,
        c.steps(g, c.path.len()).target == c.target,
        c.steps(g, c.path.len()).state == c.state,
{
    assert forall|n: nat| n < c.path.len() implies (#[trigger] c.steps(g, n)).stepped(g).1 by {
        lemma_follow_walk(c, g, n);
    }
    lemma_follow_walk(c, g, c.path.len());
}

/// Hooks the module into the rest of the crate.
pub fn register() {
}

} // verus!
