//! What the robots have learned about the map: known obstacles, known
//! resources and the positions whose resource is exhausted.

use std::sync::{Arc, RwLock, RwLockReadGuard, RwLockWriteGuard};

use vstd::prelude::*;

use crate::domain::{Position, ResourceNode};

verus! {

/// Some entry of `s` sits at `p`.
pub open spec fn has_resource_at(s: Seq<ResourceNode>, p: Position) -> bool {
    exists|i: int| 0 <= i < s.len() && #[trigger] s[i].position == p
}

/// No two entries of `s` share a position.
pub open spec fn unique_positions(s: Seq<ResourceNode>) -> bool {
    forall|i: int, j: int|
        0 <= i < s.len() && 0 <= j < s.len() && i != j ==> #[trigger] s[i].position
            != #[trigger] s[j].position
}

/// The entry of `s` at `p` (meaningful when there is one).
pub open spec fn resource_index(s: Seq<ResourceNode>, p: Position) -> int {
    choose|i: int| 0 <= i < s.len() && #[trigger] s[i].position == p
}

/// A list of resource entries read as a map from position to entry.
pub open spec fn resource_map(s: Seq<ResourceNode>) -> Map<Position, ResourceNode> {
    Map::new(|p: Position| has_resource_at(s, p), |p: Position| s[resource_index(s, p)])
}

pub proof fn lemma_resource_map_index(s: Seq<ResourceNode>, i: int)
    requires
        unique_positions(s),
        0 <= i < s.len(),
    ensures
        resource_map(s).contains_key(s[i].position),
        resource_map(s)[s[i].position] == s[i],
{
    let p = s[i].position;
    assert(has_resource_at(s, p));
    let j = resource_index(s, p);
    assert(s[j].position == p);
}

pub proof fn lemma_resource_map_push(s: Seq<ResourceNode>, r: ResourceNode)
    requires
        unique_positions(s),
        !has_resource_at(s, r.position),
    ensures
        unique_positions(s.push(r)),
        resource_map(s.push(r)) == resource_map(s).insert(r.position, r),
{
    let t = s.push(r);
    assert forall|i: int, j: int|
        0 <= i < t.len() && 0 <= j < t.len() && i != j implies #[trigger] t[i].position
        != #[trigger] t[j].position by {
        if i < s.len() && j < s.len() {
            assert(s[i].position != s[j].position);
        } else if i < s.len() {
            assert(s[i].position != r.position);
        } else if j < s.len() {
            assert(s[j].position != r.position);
        }
    }
    let m = resource_map(s).insert(r.position, r);
    assert forall|p: Position| #[trigger] resource_map(t).contains_key(p) <==> m.contains_key(p) by {
        if has_resource_at(t, p) {
            let k = choose|k: int| 0 <= k < t.len() && #[trigger] t[k].position == p;
            if k < s.len() {
                assert(s[k].position == p);
            }
        }
        if has_resource_at(s, p) {
            let k = choose|k: int| 0 <= k < s.len() && #[trigger] s[k].position == p;
            assert(t[k].position == p);
        }
        if p == r.position {
            assert(t[s.len() as int].position == p);
        }
    }
    assert forall|p: Position| #[trigger] resource_map(t).contains_key(p) implies resource_map(
        t,
    )[p] == m[p] by {
        let k = resource_index(t, p);
        if k < s.len() {
            assert(s[k].position == p);
            lemma_resource_map_index(s, k);
            assert(t[k] == s[k]);
        }
    }
    assert(resource_map(t) =~= m);
}

pub proof fn lemma_resource_map_update(s: Seq<ResourceNode>, i: int, r: ResourceNode)
    requires
        unique_positions(s),
        0 <= i < s.len(),
        s[i].position == r.position,
    ensures
        unique_positions(s.update(i, r)),
        resource_map(s.update(i, r)) == resource_map(s).insert(r.position, r),
{
    let t = s.update(i, r);
    assert forall|a: int, b: int|
        0 <= a < t.len() && 0 <= b < t.len() && a != b implies #[trigger] t[a].position
        != #[trigger] t[b].position by {
        assert(s[a].position != s[b].position);
    }
    let m = resource_map(s).insert(r.position, r);
    assert forall|p: Position| #[trigger] resource_map(t).contains_key(p) <==> m.contains_key(p) by {
        if has_resource_at(t, p) {
            let k = choose|k: int| 0 <= k < t.len() && #[trigger] t[k].position == p;
            assert(s[k].position == p);
        }
        if has_resource_at(s, p) {
            let k = choose|k: int| 0 <= k < s.len() && #[trigger] s[k].position == p;
            assert(t[k].position == p);
        }
        if p == r.position {
            assert(t[i].position == p);
        }
    }
    assert forall|p: Position| #[trigger] resource_map(t).contains_key(p) implies resource_map(
        t,
    )[p] == m[p] by {
        let k = resource_index(t, p);
        if k != i {
            assert(s[k].position == p);
            lemma_resource_map_index(s, k);
        } else {
            lemma_resource_map_index(t, k);
        }
    }
    assert(resource_map(t) =~= m);
}

pub proof fn lemma_resource_map_remove(s: Seq<ResourceNode>, i: int)
    requires
        unique_positions(s),
        0 <= i < s.len(),
    ensures
        unique_positions(s.remove(i)),
        resource_map(s.remove(i)) == resource_map(s).remove(s[i].position),
{
    let t = s.remove(i);
    let q = s[i].position;
    assert forall|a: int, b: int|
        0 <= a < t.len() && 0 <= b < t.len() && a != b implies #[trigger] t[a].position
        != #[trigger] t[b].position by {
        let a2 = if a < i { a } else { a + 1 };
        let b2 = if b < i { b } else { b + 1 };
        assert(t[a] == s[a2]);
        assert(t[b] == s[b2]);
        assert(s[a2].position != s[b2].position);
    }
    let m = resource_map(s).remove(q);
    assert forall|p: Position| #[trigger] resource_map(t).contains_key(p) <==> m.contains_key(p) by {
        if has_resource_at(t, p) {
            let k = choose|k: int| 0 <= k < t.len() && #[trigger] t[k].position == p;
            let k2 = if k < i { k } else { k + 1 };
            assert(t[k] == s[k2]);
            assert(s[k2].position == p);
            assert(k2 != i);
            assert(s[k2].position != s[i].position);
        }
        if has_resource_at(s, p) && p != q {
            let k = choose|k: int| 0 <= k < s.len() && #[trigger] s[k].position == p;
            assert(k != i);
            if k < i {
                assert(t[k] == s[k]);
                assert(t[k].position == p);
            } else {
                assert(t[k - 1] == s[k]);
                assert(t[k - 1].position == p);
            }
        }
    }
    assert forall|p: Position| #[trigger] resource_map(t).contains_key(p) implies resource_map(
        t,
    )[p] == m[p] by {
        let k = resource_index(t, p);
        let k2 = if k < i { k } else { k + 1 };
        assert(t[k] == s[k2]);
        lemma_resource_map_index(s, k2);
    }
    assert(resource_map(t) =~= m);
}

/// Adding `x` to a list adds it to the list's set of elements.
pub proof fn lemma_push_to_set<T>(s: Seq<T>, x: T)
    ensures
        s.push(x).to_set() == s.to_set().insert(x),
        s.contains(x) ==> s.to_set().insert(x) == s.to_set(),
{
    assert forall|y: T| #[trigger] s.push(x).to_set().contains(y) <==> s.to_set().insert(
        x,
    ).contains(y) by {
        if s.push(x).contains(y) {
            let k = choose|k: int| 0 <= k < s.push(x).len() && s.push(x)[k] == y;
            if k < s.len() {
                assert(s[k] == y);
            }
        }
        if s.contains(y) {
            let k = choose|k: int| 0 <= k < s.len() && s[k] == y;
            assert(s.push(x)[k] == y);
        }
        if y == x {
            assert(s.push(x)[s.len() as int] == y);
        }
    }
    assert(s.push(x).to_set() =~= s.to_set().insert(x));
    assert(s.contains(x) ==> s.to_set().insert(x) =~= s.to_set());
}

/// The abstract content of a knowledge store.
pub struct KnowledgeView {
    pub obstacles: Set<Position>,
    pub resources: Map<Position, ResourceNode>,
    pub depleted: Set<Position>,
}

impl KnowledgeView {
    /// What every store satisfies: each known resource is filed under its own
    /// position, still holds something, and is not at an exhausted position.
    pub open spec fn wf(self) -> bool {
        &&& forall|p: Position| #[trigger]
            self.resources.contains_key(p) ==> self.resources[p].position == p
                && self.resources[p].remaining > 0 && !self.depleted.contains(p)
    }

    pub open spec fn with_obstacle(self, pos: Position) -> KnowledgeView {
        KnowledgeView { obstacles: self.obstacles.insert(pos), ..self }
    }

    /// The store after `record_resource`, and what that call answers.
    pub open spec fn with_resource(self, resource: ResourceNode) -> (KnowledgeView, bool) {
        if resource.remaining == 0 {
            (
                KnowledgeView {
                    resources: self.resources.remove(resource.position),
                    depleted: self.depleted.insert(resource.position),
                    ..self
                },
                false,
            )
        } else if self.depleted.contains(resource.position) {
            (self, false)
        } else {
            (
                KnowledgeView {
                    resources: self.resources.insert(resource.position, resource),
                    ..self
                },
                true,
            )
        }
    }

    /// The store after `mark_resource_depleted`.
    pub open spec fn with_depleted(self, pos: Position) -> KnowledgeView {
        KnowledgeView {
            resources: self.resources.remove(pos),
            depleted: self.depleted.insert(pos),
            ..self
        }
    }

    /// The known resource at `pos`, if any.
    pub open spec fn resource_at(self, pos: Position) -> Option<ResourceNode> {
        if self.resources.contains_key(pos) {
            Some(self.resources[pos])
        } else {
            None
        }
    }
}

/// The lists that a knowledge store hands out, each without repetition.
#[derive(Debug, Clone, Default, PartialEq, Eq)]
pub struct KnowledgeSnapshot {
    pub obstacles: Vec<Position>,
    pub resources: Vec<ResourceNode>,
    pub depleted_resources: Vec<Position>,
}

/// The stored lists behind a knowledge store. Every value keeps the lists
/// free of repetition, and no known resource is empty or exhausted.
#[derive(Debug, PartialEq, Eq)]
pub struct KnowledgeState {
    obstacles: Vec<Position>,
    resources: Vec<ResourceNode>,
    depleted_resources: Vec<Position>,
}

impl KnowledgeState {
    pub closed spec fn view(&self) -> KnowledgeView {
        KnowledgeView {
            obstacles: self.obstacles@.to_set(),
            resources: resource_map(self.resources@),
            depleted: self.depleted_resources@.to_set(),
        }
    }

    pub closed spec fn wf(&self) -> bool {
        &&& self.obstacles@.no_duplicates()
        &&& self.depleted_resources@.no_duplicates()
        &&& unique_positions(self.resources@)
        &&& forall|i: int|
            0 <= i < self.resources@.len() ==> (#[trigger] self.resources@[i]).remaining > 0
                && !self.depleted_resources@.contains(self.resources@[i].position)
    }

    #[verifier::type_invariant]
    pub open spec fn inv(self) -> bool {
        self.wf()
    }

    pub proof fn lemma_wf_view(&self)
        requires
            self.wf(),
        ensures
            self.view().wf(),
    {
        let s = self.resources@;
        assert forall|p: Position| #[trigger] self.view().resources.contains_key(p) implies {
            &&& self.view().resources[p].position == p
            &&& self.view().resources[p].remaining > 0
            &&& !self.view().depleted.contains(p)
        } by {
            let k = resource_index(s, p);
            assert(s[k].position == p);
            assert(s[k].remaining > 0);
        }
    }
}

/// Whether `v` holds `p`.
pub(crate) fn contains_position(v: &Vec<Position>, p: Position) -> (r: bool)
    ensures
        r == v@.contains(p),
{
    let mut i: usize = 0;
    while i < v.len()
        invariant
            i <= v.len(),
            forall|j: int| 0 <= j < i ==> v@[j] != p,
        decreases v.len() - i,
    {
        if v[i] == p {
            assert(v@[i as int] == p);
            return true;
        }
        i = i + 1;
    }
    false
}

/// Where in `v` the entry at `p` sits, if there is one.
pub(crate) fn find_resource(v: &[ResourceNode], p: Position) -> (r: Option<usize>)
    ensures
        match r {
            Some(i) => i < v.len() && v@[i as int].position == p,
            None => !has_resource_at(v@, p),
        },
{
    let mut i: usize = 0;
    while i < v.len()
        invariant
            i <= v.len(),
            forall|j: int| 0 <= j < i ==> (#[trigger] v@[j]).position != p,
        decreases v.len() - i,
    {
        if v[i].position == p {
            return Some(i);
        }
        i = i + 1;
    }
    None
}

/// An element-by-element copy of `v`.
pub(crate) fn copy_vec<T: Copy>(v: &[T]) -> (r: Vec<T>)
    ensures
        r@ == v@,
{
    let mut r: Vec<T> = Vec::new();
    let mut i: usize = 0;
    while i < v.len()
        invariant
            i <= v.len(),
            r@ == v@.subrange(0, i as int),
        decreases v.len() - i,
    {
        r.push(v[i]);
        i = i + 1;
    }
    assert(r@ =~= v@);
    r
}

/// The entries of `v` that still hold something, in their order.
fn nonempty_resources(v: &Vec<ResourceNode>) -> (r: Vec<ResourceNode>)
    ensures
        r@ == v@.filter(|n: ResourceNode| n.remaining > 0),
{
    let mut r: Vec<ResourceNode> = Vec::new();
    let mut i: usize = 0;
    while i < v.len()
        invariant
            i <= v.len(),
            r@ == v@.subrange(0, i as int).filter(|n: ResourceNode| n.remaining > 0),
        decreases v.len() - i,
    {
        proof {
            reveal_with_fuel(Seq::filter, 1);
            assert(v@.subrange(0, i as int + 1).drop_last() =~= v@.subrange(0, i as int));
        }
        if v[i].remaining > 0 {
            r.push(v[i]);
        }
        i = i + 1;
    }
    assert(v@.subrange(0, v.len() as int) =~= v@);
    r
}

impl Default for KnowledgeState {
    /// A store that knows nothing.
    fn default() -> (k: Self)
        ensures
            k@.obstacles == Set::<Position>::empty(),
            k@.resources == Map::<Position, ResourceNode>::empty(),
            k@.depleted == Set::<Position>::empty(),
    {
        KnowledgeState::new()
    }
}

impl Clone for KnowledgeState {
    /// An entry-by-entry copy.
    fn clone(&self) -> (r: Self)
        ensures
            r@ == self@,
    {
        proof {
            use_type_invariant(self);
        }
        KnowledgeState {
            obstacles: copy_vec(&self.obstacles),
            resources: copy_vec(&self.resources),
            depleted_resources: copy_vec(&self.depleted_resources),
        }
    }
}

impl KnowledgeState {
    /// A store that knows nothing.
    pub fn new() -> (k: Self)
        ensures
            k.wf(),
            k@.obstacles == Set::<Position>::empty(),
            k@.resources == Map::<Position, ResourceNode>::empty(),
            k@.depleted == Set::<Position>::empty(),
    {
        let k = KnowledgeState {
            obstacles: Vec::new(),
            resources: Vec::new(),
            depleted_resources: Vec::new(),
        };
        assert(k@.obstacles =~= Set::<Position>::empty());
        assert(k@.depleted =~= Set::<Position>::empty());
        assert(k@.resources =~= Map::<Position, ResourceNode>::empty());
        k
    }

    /// Files an obstacle.
    pub fn record_obstacle(&mut self, pos: Position)
        ensures
            final(self).wf(),
            final(self)@ == old(self)@.with_obstacle(pos),
    {
        proof {
            use_type_invariant(&*self);
        }
        let mut st = KnowledgeState::new();
        std::mem::swap(self, &mut st);
        let KnowledgeState { mut obstacles, resources, depleted_resources } = st;
        proof {
            lemma_push_to_set(obstacles@, pos);
        }
        if !contains_position(&obstacles, pos) {
            obstacles.push(pos);
        }
        *self = KnowledgeState { obstacles, resources, depleted_resources };
    }

    /// Files a resource. An exhausted entry (nothing left) removes the
    /// position from the known resources and marks it exhausted; a position
    /// that is exhausted is never filed again. Answers whether the entry was
    /// filed.
    pub fn record_resource(&mut self, resource: ResourceNode) -> (filed: bool)
        ensures
            final(self).wf(),
            (final(self)@, filed) == old(self)@.with_resource(resource),
    {
        proof {
            use_type_invariant(&*self);
        }
        let mut st = KnowledgeState::new();
        std::mem::swap(self, &mut st);
        let KnowledgeState { obstacles, mut resources, mut depleted_resources } = st;
        let pos = resource.position;
        let filed = if resource.remaining == 0 {
            let found = find_resource(resources.as_slice(), pos);
            if let Some(i) = found {
                proof {
                    lemma_resource_map_remove(resources@, i as int);
                }
                resources.remove(i);
            } else {
                assert(resource_map(resources@) =~= resource_map(resources@).remove(pos));
            }
            proof {
                lemma_push_to_set(depleted_resources@, pos);
            }
            if !contains_position(&depleted_resources, pos) {
                depleted_resources.push(pos);
            }
            assert forall|j: int| 0 <= j < resources@.len() implies (#[trigger] resources@[j]).remaining
                > 0 && !depleted_resources@.contains(resources@[j].position) by {
                let s = old(self).resources@;
                let k = if found.is_some() && j >= found.unwrap() {
                    j + 1
                } else {
                    j
                };
                assert(resources@[j] == s[k]);
                if found.is_some() {
                    assert(k != found.unwrap());
                    assert(s[k].position != s[found.unwrap() as int].position);
                } else {
                    assert(s[k].position != pos);
                }
                if depleted_resources@.contains(s[k].position) {
                    let d = choose|d: int|
                        0 <= d < depleted_resources@.len() && depleted_resources@[d] == s[k].position;
                    if d < old(self).depleted_resources@.len() {
                        assert(old(self).depleted_resources@[d] == s[k].position);
                    }
                }
            }
            false
        } else if contains_position(&depleted_resources, pos) {
            false
        } else {
            let found = find_resource(resources.as_slice(), pos);
            match found {
                Some(i) => {
                    proof {
                        lemma_resource_map_update(resources@, i as int, resource);
                    }
                    resources.set(i, resource);
                },
                None => {
                    proof {
                        lemma_resource_map_push(resources@, resource);
                    }
                    resources.push(resource);
                },
            }
            true
        };
        *self = KnowledgeState { obstacles, resources, depleted_resources };
        filed
    }

    /// Marks the resource at `pos` as exhausted and forgets it; answers the
    /// entry that was known there, if any.
    pub fn mark_resource_depleted(&mut self, pos: Position) -> (removed: Option<ResourceNode>)
        ensures
            final(self).wf(),
            final(self)@ == old(self)@.with_depleted(pos),
            removed == old(self)@.resource_at(pos),
    {
        proof {
            use_type_invariant(&*self);
        }
        let mut st = KnowledgeState::new();
        std::mem::swap(self, &mut st);
        let KnowledgeState { obstacles, mut resources, mut depleted_resources } = st;
        let found = find_resource(resources.as_slice(), pos);
        let removed = match found {
            Some(i) => {
                let node = resources[i];
                proof {
                    lemma_resource_map_index(resources@, i as int);
                    lemma_resource_map_remove(resources@, i as int);
                }
                resources.remove(i);
                Some(node)
            },
            None => {
                assert(resource_map(resources@) =~= resource_map(resources@).remove(pos));
                None
            },
        };
        proof {
            lemma_push_to_set(depleted_resources@, pos);
        }
        if !contains_position(&depleted_resources, pos) {
            depleted_resources.push(pos);
        }
        assert forall|j: int| 0 <= j < resources@.len() implies (#[trigger] resources@[j]).remaining > 0
            && !depleted_resources@.contains(resources@[j].position) by {
            let s = old(self).resources@;
            let k = if found.is_some() && j >= found.unwrap() {
                j + 1
            } else {
                j
            };
            assert(resources@[j] == s[k]);
            if found.is_some() {
                assert(k != found.unwrap());
                assert(s[k].position != s[found.unwrap() as int].position);
            } else {
                assert(s[k].position != pos);
            }
            if depleted_resources@.contains(s[k].position) {
                let d = choose|d: int|
                    0 <= d < depleted_resources@.len() && depleted_resources@[d] == s[k].position;
                if d < old(self).depleted_resources@.len() {
                    assert(old(self).depleted_resources@[d] == s[k].position);
                }
            }
        }
        *self = KnowledgeState { obstacles, resources, depleted_resources };
        removed
    }

    /// The known obstacles, each once.
    pub fn known_obstacles(&self) -> (r: Vec<Position>)
        ensures
            r@.no_duplicates(),
            r@.to_set() == self@.obstacles,
    {
        proof {
            use_type_invariant(self);
        }
        copy_vec(&self.obstacles)
    }

    /// The known resources, one entry per position.
    pub fn known_resources(&self) -> (r: Vec<ResourceNode>)
        ensures
            unique_positions(r@),
            resource_map(r@) == self@.resources,
    {
        proof {
            use_type_invariant(self);
        }
        copy_vec(&self.resources)
    }

    /// The known resources that still hold something, one entry per position.
    pub fn valid_resource_targets(&self) -> (r: Vec<ResourceNode>)
        ensures
            unique_positions(r@),
            resource_map(r@) == self@.resources.restrict(
                Set::new(|p: Position| self@.resources.contains_key(p) && self@.resources[p].remaining > 0),
            ),
    {
        proof {
            use_type_invariant(self);
        }
        let r = nonempty_resources(&self.resources);
        proof {
            let s = self.resources@;
            assert(s.filter(|n: ResourceNode| n.remaining > 0) == s) by {
                lemma_filter_keeps_every(s, |n: ResourceNode| n.remaining > 0);
            }
            self.lemma_wf_view();
            assert(resource_map(r@) =~= self@.resources.restrict(
                Set::new(|p: Position| self@.resources.contains_key(p) && self@.resources[p].remaining > 0),
            ));
        }
        r
    }

    /// The known resource at `pos`, if any.
    pub fn resource_at(&self, pos: Position) -> (r: Option<ResourceNode>)
        ensures
            r == self@.resource_at(pos),
    {
        proof {
            use_type_invariant(self);
        }
        match find_resource(self.resources.as_slice(), pos) {
            Some(i) => {
                proof {
                    lemma_resource_map_index(self.resources@, i as int);
                }
                Some(self.resources[i])
            },
            None => None,
        }
    }

    pub fn is_obstacle_known(&self, pos: Position) -> (r: bool)
        ensures
            r == self@.obstacles.contains(pos),
    {
        contains_position(&self.obstacles, pos)
    }

    pub fn is_resource_depleted(&self, pos: Position) -> (r: bool)
        ensures
            r == self@.depleted.contains(pos),
    {
        contains_position(&self.depleted_resources, pos)
    }

    /// All three lists at once.
    pub fn snapshot(&self) -> (s: KnowledgeSnapshot)
        ensures
            s.obstacles@.no_duplicates(),
            s.obstacles@.to_set() == self@.obstacles,
            unique_positions(s.resources@),
            resource_map(s.resources@) == self@.resources,
            s.depleted_resources@.no_duplicates(),
            s.depleted_resources@.to_set() == self@.depleted,
    {
        proof {
            use_type_invariant(self);
        }
        KnowledgeSnapshot {
            obstacles: copy_vec(&self.obstacles),
            resources: copy_vec(&self.resources),
            depleted_resources: copy_vec(&self.depleted_resources),
        }
    }
}

/// `std::sync::RwLock`: a lock around a value. Its content is not visible
/// here; every `KnowledgeState` it holds keeps the type's invariant.
#[verifier::external_type_specification]
#[verifier::external_body]
#[verifier::reject_recursive_types(T)]
pub struct ExRwLock<T: ?Sized>(RwLock<T>);

/// `std::sync::RwLockReadGuard`: shared access to a locked value.
#[verifier::external_type_specification]
#[verifier::external_body]
#[verifier::reject_recursive_types(T)]
pub struct ExRwLockReadGuard<'a, T: ?Sized>(RwLockReadGuard<'a, T>);

/// `std::sync::RwLockWriteGuard`: exclusive access to a locked value.
#[verifier::external_type_specification]
#[verifier::external_body]
#[verifier::reject_recursive_types(T)]
pub struct ExRwLockWriteGuard<'a, T: ?Sized + 'a>(RwLockWriteGuard<'a, T>);

/// `RwLock::new`: a lock holding `state`. Nothing is stated of the lock.
#[verifier::external_body]
fn new_lock(state: KnowledgeState) -> RwLock<KnowledgeState> {
    RwLock::new(state)
}

/// `RwLock::read`: waits for shared access; a lock poisoned by a panicking
/// writer is used as it is. Nothing is stated of the guard.
#[verifier::external_body]
fn read_lock(lock: &RwLock<KnowledgeState>) -> RwLockReadGuard<'_, KnowledgeState> {
    match lock.read() {
        Ok(guard) => guard,
        Err(poisoned) => poisoned.into_inner(),
    }
}

/// `RwLockReadGuard`'s `Deref`: the locked store. Nothing is stated of
/// which store it is: other handles may have changed it.
#[verifier::external_body]
pub(crate) fn read_state<'a, 'b>(guard: &'a RwLockReadGuard<'b, KnowledgeState>) -> &'a KnowledgeState {
    &**guard
}

/// `RwLock::write`: waits for exclusive access; a lock poisoned by a
/// panicking writer is used as it is. Nothing is stated of the guard.
#[verifier::external_body]
fn write_lock(lock: &RwLock<KnowledgeState>) -> RwLockWriteGuard<'_, KnowledgeState> {
    match lock.write() {
        Ok(guard) => guard,
        Err(poisoned) => poisoned.into_inner(),
    }
}

/// `RwLockWriteGuard`'s `DerefMut`: the locked store, to change in place.
/// Nothing is stated of which store it is: other handles may have changed
/// it before the lock was taken.
#[verifier::external_body]
pub(crate) fn write_state<'a, 'b>(guard: &'a mut RwLockWriteGuard<'b, KnowledgeState>) -> &'a mut KnowledgeState {
    &mut **guard
}

/// A handle on a knowledge store that scouts fill and collectors read.
/// Clones share one store behind a lock, so what one handle records every
/// other handle sees. Since any handle may change the store at any time,
/// the contracts state what holds of the store as it was found under the
/// lock: some consistent store (`KnowledgeView::wf`), with the answer and
/// the change that the store's own operations give (see `KnowledgeState`).
#[derive(Debug, Clone, Default)]
pub struct SharedKnowledge {
    inner: Arc<RwLock<KnowledgeState>>,
}

impl SharedKnowledge {
    /// A handle on a new store that knows nothing.
    pub fn new() -> Self {
        SharedKnowledge { inner: Arc::new(new_lock(KnowledgeState::new())) }
    }

    /// Files an obstacle (see `KnowledgeState::record_obstacle`).
    pub fn record_obstacle(&self, pos: Position) {
        let mut guard = write_lock(&self.inner);
        let state = write_state(&mut guard);
        state.record_obstacle(pos);
    }

    /// Files a resource (see `KnowledgeState::record_resource`): the answer
    /// is the one the store found under the lock gives.
    pub fn record_resource(&self, resource: ResourceNode) -> (filed: bool)
        ensures
            exists|k: KnowledgeView| k.wf() && filed == (#[trigger] k.with_resource(resource)).1,
    {
        let mut guard = write_lock(&self.inner);
        let state = write_state(&mut guard);
        proof {
            use_type_invariant(&*state);
            state.lemma_wf_view();
        }
        let ghost k = state@;
        let filed = state.record_resource(resource);
        assert(filed == k.with_resource(resource).1);
        filed
    }

    /// Marks the resource at `pos` exhausted (see
    /// `KnowledgeState::mark_resource_depleted`) and answers the entry that
    /// the store found under the lock knew there.
    pub fn mark_resource_depleted(&self, pos: Position) -> (removed: Option<ResourceNode>)
        ensures
            exists|k: KnowledgeView| k.wf() && removed == #[trigger] k.resource_at(pos),
    {
        let mut guard = write_lock(&self.inner);
        let state = write_state(&mut guard);
        proof {
            use_type_invariant(&*state);
            state.lemma_wf_view();
        }
        let ghost k = state@;
        let removed = state.mark_resource_depleted(pos);
        assert(removed == k.resource_at(pos));
        removed
    }

    /// The known obstacles, each once.
    pub fn known_obstacles(&self) -> (r: Vec<Position>)
        ensures
            r@.no_duplicates(),
            exists|k: KnowledgeView| k.wf() && r@.to_set() == #[trigger] k.obstacles,
    {
        let guard = read_lock(&self.inner);
        let state = read_state(&guard);
        proof {
            use_type_invariant(state);
            state.lemma_wf_view();
        }
        state.known_obstacles()
    }

    /// The known resources, one entry per position.
    pub fn known_resources(&self) -> (r: Vec<ResourceNode>)
        ensures
            unique_positions(r@),
            exists|k: KnowledgeView| k.wf() && resource_map(r@) == #[trigger] k.resources,
    {
        let guard = read_lock(&self.inner);
        let state = read_state(&guard);
        proof {
            use_type_invariant(state);
            state.lemma_wf_view();
        }
        state.known_resources()
    }

    /// The known resources that still hold something, one entry per
    /// position.
    pub fn valid_resource_targets(&self) -> (r: Vec<ResourceNode>)
        ensures
            unique_positions(r@),
            forall|i: int| 0 <= i < r@.len() ==> (#[trigger] r@[i]).remaining > 0,
            exists|k: KnowledgeView|
                k.wf() && resource_map(r@) == (#[trigger] k.resources).restrict(
                    Set::new(|p: Position| k.resources.contains_key(p) && k.resources[p].remaining > 0),
                ),
    {
        let guard = read_lock(&self.inner);
        let state = read_state(&guard);
        proof {
            use_type_invariant(state);
            state.lemma_wf_view();
        }
        let r = state.valid_resource_targets();
        proof {
            assert forall|i: int| 0 <= i < r@.len() implies (#[trigger] r@[i]).remaining > 0 by {
                lemma_resource_map_index(r@, i);
            }
        }
        r
    }

    /// The known resource at `pos`, if any.
    pub fn resource_at(&self, pos: Position) -> (r: Option<ResourceNode>)
        ensures
            exists|k: KnowledgeView| k.wf() && r == #[trigger] k.resource_at(pos),
    {
        let guard = read_lock(&self.inner);
        let state = read_state(&guard);
        proof {
            use_type_invariant(state);
            state.lemma_wf_view();
        }
        state.resource_at(pos)
    }

    pub fn is_obstacle_known(&self, pos: Position) -> (r: bool)
        ensures
            exists|k: KnowledgeView| k.wf() && r == (#[trigger] k.obstacles).contains(pos),
    {
        let guard = read_lock(&self.inner);
        let state = read_state(&guard);
        proof {
            use_type_invariant(state);
            state.lemma_wf_view();
        }
        state.is_obstacle_known(pos)
    }

    pub fn is_resource_depleted(&self, pos: Position) -> (r: bool)
        ensures
            exists|k: KnowledgeView| k.wf() && r == (#[trigger] k.depleted).contains(pos),
    {
        let guard = read_lock(&self.inner);
        let state = read_state(&guard);
        proof {
            use_type_invariant(state);
            state.lemma_wf_view();
        }
        state.is_resource_depleted(pos)
    }

    /// All three lists at once, read under one lock.
    pub fn snapshot(&self) -> (s: KnowledgeSnapshot)
        ensures
            s.obstacles@.no_duplicates(),
            unique_positions(s.resources@),
            s.depleted_resources@.no_duplicates(),
            exists|k: KnowledgeView|
                #![trigger k.wf()]
                k.wf() && s.obstacles@.to_set() == k.obstacles && resource_map(s.resources@)
                    == k.resources && s.depleted_resources@.to_set() == k.depleted,
    {
        let guard = read_lock(&self.inner);
        let state = read_state(&guard);
        proof {
            use_type_invariant(state);
            state.lemma_wf_view();
        }
        state.snapshot()
    }

    /// Exclusive access to the store, for the robots, whose decisions read
    /// and change the store together.
    pub(crate) fn lock_for_update<'a>(&'a self) -> (guard: RwLockWriteGuard<'a, KnowledgeState>) {
        write_lock(&self.inner)
    }

    /// Shared access to the store, for the robots' reads.
    pub(crate) fn lock_for_read<'a>(&'a self) -> (guard: RwLockReadGuard<'a, KnowledgeState>) {
        read_lock(&self.inner)
    }
}

/// Keeping the elements that pass a test that all of them pass keeps all.
pub proof fn lemma_filter_keeps_every<A>(s: Seq<A>, f: spec_fn(A) -> bool)
    requires
        forall|i: int| 0 <= i < s.len() ==> #[trigger] f(s[i]),
    ensures
        s.filter(f) == s,
    decreases s.len(),
{
    reveal_with_fuel(Seq::filter, 1);
    if s.len() > 0 {
        assert forall|i: int| 0 <= i < s.drop_last().len() implies #[trigger] f(s.drop_last()[i]) by {
            assert(s.drop_last()[i] == s[i]);
        }
        lemma_filter_keeps_every(s.drop_last(), f);
        assert(f(s[s.len() - 1]));
        assert(s.drop_last().push(s.last()) =~= s);
    } else {
        assert(s.filter(f) =~= s);
    }
}

/// Every change of a well-formed store gives a well-formed store: no known
/// deposit is empty or at an exhausted position.
pub proof fn law_updates_keep_store_consistent(
    k: KnowledgeView,
    pos: Position,
    resource: ResourceNode,
)
    requires
        k.wf(),
    ensures
        k.with_obstacle(pos).wf(),
        k.with_resource(resource).0.wf(),
        k.with_depleted(pos).wf(),
{
}

/// A recorded obstacle is known afterwards, and recording never forgets one.
pub proof fn law_obstacle_recorded_is_known(k: KnowledgeView, pos: Position, q: Position)
    ensures
        k.with_obstacle(pos).obstacles.contains(pos),
        k.obstacles.contains(q) ==> k.with_obstacle(pos).obstacles.contains(q),
{
}

/// A deposit that holds something, at a position not exhausted, is filed
/// and then read back as it was given.
pub proof fn law_filed_resource_reads_back(k: KnowledgeView, resource: ResourceNode)
    requires
        resource.remaining > 0,
        !k.depleted.contains(resource.position),
    ensures
        k.with_resource(resource).1,
        k.with_resource(resource).0.resource_at(resource.position) == Some(resource),
{
}

/// Exhaustion is final: an exhausted position stays exhausted whatever is
/// recorded or marked, is never a known deposit, and refuses any new entry.
pub proof fn law_exhaustion_is_final(
    k: KnowledgeView,
    p: Position,
    pos: Position,
    resource: ResourceNode,
)
    requires
        k.wf(),
        k.depleted.contains(p),
    ensures
        k.resource_at(p) is None,
        k.with_obstacle(pos).depleted.contains(p),
        k.with_resource(resource).0.depleted.contains(p),
        k.with_depleted(pos).depleted.contains(p),
        resource.position == p ==> !k.with_resource(resource).1,
{
}

/// Marking a position exhausted answers the deposit known there and leaves
/// none behind.
pub proof fn law_marking_exhausted_forgets(k: KnowledgeView, pos: Position)
    ensures
        k.with_depleted(pos).resource_at(pos) is None,
        k.with_depleted(pos).depleted.contains(pos),
{
}

/// One change to a knowledge store, as the store's operations make them.
pub enum KnowledgeUpdate {
    Obstacle(Position),
    Resource(ResourceNode),
    Depleted(Position),
}

/// The store after one update.
pub open spec fn after_update(k: KnowledgeView, u: KnowledgeUpdate) -> KnowledgeView {
    match u {
        KnowledgeUpdate::Obstacle(p) => k.with_obstacle(p),
        KnowledgeUpdate::Resource(r) => k.with_resource(r).0,
        KnowledgeUpdate::Depleted(p) => k.with_depleted(p),
    }
}

/// The store after the updates `us`, in order.
pub open spec fn after_updates(k: KnowledgeView, us: Seq<KnowledgeUpdate>) -> KnowledgeView
    decreases us.len(),
{
    if us.len() == 0 {
        k
    } else {
        after_update(after_updates(k, us.drop_last()), us.last())
    }
}

/// The update records `p` as an obstacle.
pub open spec fn records_obstacle(u: KnowledgeUpdate, p: Position) -> bool {
    u == KnowledgeUpdate::Obstacle(p)
}

/// The update marks `p` exhausted: marking it, or filing an empty deposit
/// there.
pub open spec fn exhausts(u: KnowledgeUpdate, p: Position) -> bool {
    ||| u == KnowledgeUpdate::Depleted(p)
    ||| (u matches KnowledgeUpdate::Resource(r) && r.position == p && r.remaining == 0)
}

/// Over any history of updates, the known obstacles are those known at the
/// start and those recorded since, and the exhausted positions are those
/// exhausted at the start and those marked or reported empty since: nothing
/// is ever forgotten, and nothing else is added.
pub proof fn law_history_of_updates(k: KnowledgeView, us: Seq<KnowledgeUpdate>, p: Position)
    ensures
        after_updates(k, us).obstacles.contains(p) == (k.obstacles.contains(p) || exists|i: int|
            0 <= i < us.len() && records_obstacle(#[trigger] us[i], p)),
        after_updates(k, us).depleted.contains(p) == (k.depleted.contains(p) || exists|i: int|
            0 <= i < us.len() && exhausts(#[trigger] us[i], p)),
    decreases us.len(),
{
    if us.len() > 0 {
        let rest = us.drop_last();
        law_history_of_updates(k, rest, p);
        let u = us.last();
        assert(u == us[us.len() - 1]);
        if exists|i: int| 0 <= i < rest.len() && records_obstacle(#[trigger] rest[i], p) {
            let i = choose|i: int| 0 <= i < rest.len() && records_obstacle(#[trigger] rest[i], p);
            assert(us[i] == rest[i]);
        }
        if exists|i: int| 0 <= i < us.len() && records_obstacle(#[trigger] us[i], p) {
            let i = choose|i: int| 0 <= i < us.len() && records_obstacle(#[trigger] us[i], p);
            if i < rest.len() {
                assert(rest[i] == us[i]);
            }
        }
        if exists|i: int| 0 <= i < rest.len() && exhausts(#[trigger] rest[i], p) {
            let i = choose|i: int| 0 <= i < rest.len() && exhausts(#[trigger] rest[i], p);
            assert(us[i] == rest[i]);
        }
        if exists|i: int| 0 <= i < us.len() && exhausts(#[trigger] us[i], p) {
            let i = choose|i: int| 0 <= i < us.len() && exhausts(#[trigger] us[i], p);
            if i < rest.len() {
                assert(rest[i] == us[i]);
            }
        }
    }
}

/// Hooks the module into the rest of the crate.
pub fn register() {
}

} // verus!
