use vstd::prelude::*;

use std::collections::HashMap;

use crate::graph::{BuildError, Failure};

verus! {

broadcast use vstd::std_specs::hash::group_hash_axioms;

/// Which way a syncer copies.
#[derive(Clone, Copy, Debug, PartialEq, Eq, Structural)]
pub enum SyncDirection {
    PrimaryToSecondary,
    SecondaryToPrimary,
}

/// What a component syncer does where the target entity already holds the
/// component: overwrite it, or keep it.
#[derive(Clone, Copy, Debug, PartialEq, Eq, Structural)]
pub enum MergeRule {
    PreferSource,
    PreferTarget,
}

/// A configured rule that copies one resource or one component kind across
/// the bridge.
#[derive(Clone, Copy, Debug, PartialEq, Eq, Structural)]
pub enum Syncer {
    Resource(u64),
    Component(u64),
    ComponentWith(u64, MergeRule),
}

/// A world's resources (kind to value) and components (kind to entity to
/// value).
pub struct World {
    pub resources: HashMap<u64, i64>,
    pub components: HashMap<u64, HashMap<u64, i64>>,
}

pub struct WorldView {
    pub resources: Map<u64, i64>,
    pub components: Map<u64, Map<u64, i64>>,
}

impl View for World {
    type V = WorldView;

    open spec fn view(&self) -> WorldView {
        WorldView {
            resources: self.resources@,
            components: Map::new(
                |k: u64| self.components@.contains_key(k),
                |k: u64| self.components@[k]@,
            ),
        }
    }
}

impl World {
    pub fn new() -> (r: World)
        ensures
            r@.resources == Map::<u64, i64>::empty(),
            r@.components == Map::<u64, Map<u64, i64>>::empty(),
    {
        let r = World { resources: HashMap::new(), components: HashMap::new() };
        assert(r@.components =~= Map::<u64, Map<u64, i64>>::empty());
        r
    }

    /// Sets the resource of kind `kind`.
    pub fn insert_resource(&mut self, kind: u64, value: i64)
        ensures
            final(self)@.resources == old(self)@.resources.insert(kind, value),
            final(self)@.components == old(self)@.components,
    {
        self.resources.insert(kind, value);
    }

    /// The resource of kind `kind`, if the world holds one.
    pub fn resource(&self, kind: u64) -> (r: Option<i64>)
        ensures
            r == (if self@.resources.contains_key(kind) {
                Some(self@.resources[kind])
            } else {
                None
            }),
    {
        match self.resources.get(&kind) {
            Some(v) => Some(*v),
            None => None,
        }
    }

    /// Sets the component of kind `kind` on `entity`.
    pub fn insert_component(&mut self, kind: u64, entity: u64, value: i64)
        ensures
            final(self)@.resources == old(self)@.resources,
            final(self)@.components == old(self)@.components.insert(
                kind,
                storage_of(old(self)@, kind).insert(entity, value),
            ),
    {
        let mut store = match self.components.remove(&kind) {
            Some(m) => m,
            None => HashMap::new(),
        };
        store.insert(entity, value);
        self.components.insert(kind, store);
        assert(self@.components =~= old(self)@.components.insert(
            kind,
            storage_of(old(self)@, kind).insert(entity, value),
        ));
    }

    /// The component of kind `kind` on `entity`, if there is one.
    pub fn component(&self, kind: u64, entity: u64) -> (r: Option<i64>)
        ensures
            r == component_of(self@, kind, entity),
    {
        match self.components.get(&kind) {
            Some(m) => match m.get(&entity) {
                Some(v) => Some(*v),
                None => None,
            },
            None => None,
        }
    }
}

/// The entities of the two worlds that stand for each other, as pairs
/// (primary, secondary).
pub struct EntityBimap {
    pub pairs: Vec<(u64, u64)>,
}

/// No entity of either world appears in two pairs.
pub open spec fn bimap_wf(pairs: Seq<(u64, u64)>) -> bool {
    forall|i: int, j: int|
        0 <= i < pairs.len() && 0 <= j < pairs.len() && i != j ==> #[trigger] pairs[i].0
            != #[trigger] pairs[j].0 && pairs[i].1 != pairs[j].1
}

impl EntityBimap {
    pub fn new() -> (r: EntityBimap)
        ensures
            r.pairs@ == Seq::<(u64, u64)>::empty(),
    {
        EntityBimap { pairs: Vec::new() }
    }

    /// Links `primary` and `secondary`, after pruning every pair that held
    /// either of them.
    pub fn link(&mut self, primary: u64, secondary: u64)
        requires
            bimap_wf(old(self).pairs@),
        ensures
            bimap_wf(final(self).pairs@),
            final(self).pairs@ == old(self).pairs@.filter(
                |p: (u64, u64)| p.0 != primary && p.1 != secondary,
            ).push((primary, secondary)),
    {
        let ghost keep = |p: (u64, u64)| p.0 != primary && p.1 != secondary;
        let mut kept: Vec<(u64, u64)> = Vec::new();
        let mut i: usize = 0;
        while i < self.pairs.len()
            invariant
                i <= self.pairs.len(),
                self.pairs@ == old(self).pairs@,
                keep == (|p: (u64, u64)| p.0 != primary && p.1 != secondary),
                bimap_wf(old(self).pairs@),
                kept@ == old(self).pairs@.subrange(0, i as int).filter(keep),
                forall|k: int| 0 <= k < kept@.len() ==> keep(#[trigger] kept@[k]),
                forall|k: int|
                    0 <= k < kept@.len() ==> exists|m: int|
                        0 <= m < i && old(self).pairs@[m] == #[trigger] kept@[k],
                bimap_wf(kept@),
            decreases self.pairs.len() - i,
        {
            let p = self.pairs[i];
            let ghost before = kept@;
            if p.0 != primary && p.1 != secondary {
                proof {
                    assert forall|k: int| 0 <= k < kept@.len() implies #[trigger] kept@[k].0 != p.0
                        && kept@[k].1 != p.1 by {
                        let m = choose|m: int|
                            0 <= m < i && old(self).pairs@[m] == kept@[k];
                        assert(old(self).pairs@[m].0 != old(self).pairs@[i as int].0);
                    }
                }
                kept.push(p);
            }
            proof {
                reveal(Seq::filter);
                let s = old(self).pairs@.subrange(0, i + 1);
                assert(s.drop_last() =~= old(self).pairs@.subrange(0, i as int));
                assert(s.last() == p);
                assert(s.filter(keep) == if keep(p) {
                    before.push(p)
                } else {
                    before
                });
            }
            i = i + 1;
        }
        assert(old(self).pairs@.subrange(0, i as int) =~= old(self).pairs@);
        kept.push((primary, secondary));
        self.pairs = kept;
    }

    /// Prunes the pair that holds the primary entity `primary`.
    pub fn remove_primary(&mut self, primary: u64)
        requires
            bimap_wf(old(self).pairs@),
        ensures
            bimap_wf(final(self).pairs@),
            final(self).pairs@ == old(self).pairs@.filter(|p: (u64, u64)| p.0 != primary),
    {
        let ghost keep = |p: (u64, u64)| p.0 != primary;
        let mut kept: Vec<(u64, u64)> = Vec::new();
        let mut i: usize = 0;
        while i < self.pairs.len()
            invariant
                i <= self.pairs.len(),
                self.pairs@ == old(self).pairs@,
                keep == (|p: (u64, u64)| p.0 != primary),
                bimap_wf(old(self).pairs@),
                kept@ == old(self).pairs@.subrange(0, i as int).filter(keep),
                forall|k: int|
                    0 <= k < kept@.len() ==> exists|m: int|
                        0 <= m < i && old(self).pairs@[m] == #[trigger] kept@[k],
                bimap_wf(kept@),
            decreases self.pairs.len() - i,
        {
            let p = self.pairs[i];
            let ghost before = kept@;
            if p.0 != primary {
                proof {
                    assert forall|k: int| 0 <= k < kept@.len() implies #[trigger] kept@[k].0 != p.0
                        && kept@[k].1 != p.1 by {
                        let m = choose|m: int|
                            0 <= m < i && old(self).pairs@[m] == kept@[k];
                        assert(old(self).pairs@[m].0 != old(self).pairs@[i as int].0);
                    }
                }
                kept.push(p);
            }
            proof {
                reveal(Seq::filter);
                let s = old(self).pairs@.subrange(0, i + 1);
                assert(s.drop_last() =~= old(self).pairs@.subrange(0, i as int));
                assert(s.last() == p);
                assert(s.filter(keep) == if keep(p) {
                    before.push(p)
                } else {
                    before
                });
            }
            i = i + 1;
        }
        assert(old(self).pairs@.subrange(0, i as int) =~= old(self).pairs@);
        self.pairs = kept;
    }

    /// Prunes the pair that holds the secondary entity `secondary`.
    pub fn remove_secondary(&mut self, secondary: u64)
        requires
            bimap_wf(old(self).pairs@),
        ensures
            bimap_wf(final(self).pairs@),
            final(self).pairs@ == old(self).pairs@.filter(|p: (u64, u64)| p.1 != secondary),
    {
        let ghost keep = |p: (u64, u64)| p.1 != secondary;
        let mut kept: Vec<(u64, u64)> = Vec::new();
        let mut i: usize = 0;
        while i < self.pairs.len()
            invariant
                i <= self.pairs.len(),
                self.pairs@ == old(self).pairs@,
                keep == (|p: (u64, u64)| p.1 != secondary),
                bimap_wf(old(self).pairs@),
                kept@ == old(self).pairs@.subrange(0, i as int).filter(keep),
                forall|k: int|
                    0 <= k < kept@.len() ==> exists|m: int|
                        0 <= m < i && old(self).pairs@[m] == #[trigger] kept@[k],
                bimap_wf(kept@),
            decreases self.pairs.len() - i,
        {
            let p = self.pairs[i];
            let ghost before = kept@;
            if p.1 != secondary {
                proof {
                    assert forall|k: int| 0 <= k < kept@.len() implies #[trigger] kept@[k].0 != p.0
                        && kept@[k].1 != p.1 by {
                        let m = choose|m: int|
                            0 <= m < i && old(self).pairs@[m] == kept@[k];
                        assert(old(self).pairs@[m].0 != old(self).pairs@[i as int].0);
                    }
                }
                kept.push(p);
            }
            proof {
                reveal(Seq::filter);
                let s = old(self).pairs@.subrange(0, i + 1);
                assert(s.drop_last() =~= old(self).pairs@.subrange(0, i as int));
                assert(s.last() == p);
                assert(s.filter(keep) == if keep(p) {
                    before.push(p)
                } else {
                    before
                });
            }
            i = i + 1;
        }
        assert(old(self).pairs@.subrange(0, i as int) =~= old(self).pairs@);
        self.pairs = kept;
    }
}

/// A creation or removal seen on either world's entity channel.
#[derive(Clone, Copy, Debug, PartialEq, Eq, Structural)]
pub enum EntityEvent {
    Linked(u64, u64),
    PrimaryRemoved(u64),
    SecondaryRemoved(u64),
}

/// How many entity events the listener buffers before it is drained.
pub const ENTITY_EVENT_CAPACITY: usize = 2048;

/// What one event does to the pairs.
pub open spec fn apply_event(pairs: Seq<(u64, u64)>, e: EntityEvent) -> Seq<(u64, u64)> {
    match e {
        EntityEvent::Linked(p, s) => pairs.filter(|q: (u64, u64)| q.0 != p && q.1 != s).push(
            (p, s),
        ),
        EntityEvent::PrimaryRemoved(p) => pairs.filter(|q: (u64, u64)| q.0 != p),
        EntityEvent::SecondaryRemoved(s) => pairs.filter(|q: (u64, u64)| q.1 != s),
    }
}

/// The events applied in order.
pub open spec fn apply_events(pairs: Seq<(u64, u64)>, events: Seq<EntityEvent>) -> Seq<(u64, u64)>
    decreases events.len(),
{
    if events.len() == 0 {
        pairs
    } else {
        apply_event(apply_events(pairs, events.drop_last()), events.last())
    }
}

/// The bounded buffer of the entity listener. When it is full a new event is
/// refused and handed back to the caller; no event is dropped silently.
pub struct EntityEvents {
    pub events: Vec<EntityEvent>,
}

impl EntityEvents {
    pub fn new() -> (r: EntityEvents)
        ensures
            r.events@.len() == 0,
    {
        EntityEvents { events: Vec::new() }
    }

    /// Buffers `e`, or hands it back when the buffer is full.
    pub fn push(&mut self, e: EntityEvent) -> (r: Result<(), EntityEvent>)
        ensures
            old(self).events@.len() < ENTITY_EVENT_CAPACITY ==> r is Ok && final(self).events@
                == old(self).events@.push(e),
            old(self).events@.len() >= ENTITY_EVENT_CAPACITY ==> r == Err::<(), EntityEvent>(e)
                && final(self).events@ == old(self).events@,
    {
        if self.events.len() < ENTITY_EVENT_CAPACITY {
            self.events.push(e);
            Ok(())
        } else {
            Err(e)
        }
    }

    /// Applies the buffered events to `bimap`, in order, and empties the
    /// buffer.
    pub fn drain_into(&mut self, bimap: &mut EntityBimap)
        requires
            bimap_wf(old(bimap).pairs@),
        ensures
            final(self).events@.len() == 0,
            bimap_wf(final(bimap).pairs@),
            final(bimap).pairs@ == apply_events(old(bimap).pairs@, old(self).events@),
    {
        let mut i: usize = 0;
        while i < self.events.len()
            invariant
                i <= self.events@.len(),
                self.events@ == old(self).events@,
                bimap_wf(bimap.pairs@),
                bimap.pairs@ == apply_events(
                    old(bimap).pairs@,
                    old(self).events@.subrange(0, i as int),
                ),
            decreases self.events.len() - i,
        {
            proof {
                assert(old(self).events@.subrange(0, i + 1).drop_last() =~= old(
                    self,
                ).events@.subrange(0, i as int));
            }
            match self.events[i] {
                EntityEvent::Linked(p, s) => bimap.link(p, s),
                EntityEvent::PrimaryRemoved(p) => bimap.remove_primary(p),
                EntityEvent::SecondaryRemoved(s) => bimap.remove_secondary(s),
            }
            i = i + 1;
        }
        assert(old(self).events@.subrange(0, i as int) =~= old(self).events@);
        self.events.clear();
    }
}

pub open spec fn storage_of(w: WorldView, kind: u64) -> Map<u64, i64> {
    if w.components.contains_key(kind) {
        w.components[kind]
    } else {
        Map::empty()
    }
}

pub open spec fn component_of(w: WorldView, kind: u64, entity: u64) -> Option<i64> {
    if storage_of(w, kind).contains_key(entity) {
        Some(storage_of(w, kind)[entity])
    } else {
        None
    }
}

/// One pair of a component copy: the component of `src` on `from` goes to
/// `to` in `dst`, unless `dst` already holds one there and the rule keeps it.
pub open spec fn copy_component(
    src: WorldView,
    dst: WorldView,
    kind: u64,
    from: u64,
    to: u64,
    rule: MergeRule,
) -> WorldView {
    match component_of(src, kind, from) {
        Some(v) => if rule == MergeRule::PreferTarget && storage_of(dst, kind).contains_key(to) {
            dst
        } else {
            WorldView {
                components: dst.components.insert(kind, storage_of(dst, kind).insert(to, v)),
                ..dst
            }
        },
        None => dst,
    }
}

/// A component copy over the pairs, in order.
pub open spec fn copy_components(
    src: WorldView,
    dst: WorldView,
    kind: u64,
    pairs: Seq<(u64, u64)>,
    dir: SyncDirection,
    rule: MergeRule,
) -> WorldView
    decreases pairs.len(),
{
    if pairs.len() == 0 {
        dst
    } else {
        let d = copy_components(src, dst, kind, pairs.drop_last(), dir, rule);
        let p = pairs.last();
        match dir {
            SyncDirection::PrimaryToSecondary => copy_component(src, d, kind, p.0, p.1, rule),
            SyncDirection::SecondaryToPrimary => copy_component(src, d, kind, p.1, p.0, rule),
        }
    }
}

/// One syncer run in one direction: the source world is left as it was, the
/// target gets the copy. A resource syncer fails when the source world does
/// not hold its resource.
pub open spec fn sync_one(
    src: WorldView,
    dst: WorldView,
    syncer: Syncer,
    pairs: Seq<(u64, u64)>,
    dir: SyncDirection,
) -> Result<WorldView, Failure> {
    match syncer {
        Syncer::Resource(kind) => if src.resources.contains_key(kind) {
            Ok(WorldView { resources: dst.resources.insert(kind, src.resources[kind]), ..dst })
        } else {
            Err(Failure::SyncerSyncFailed(kind))
        },
        Syncer::Component(kind) => Ok(
            copy_components(src, dst, kind, pairs, dir, MergeRule::PreferSource),
        ),
        Syncer::ComponentWith(kind, rule) => Ok(
            copy_components(src, dst, kind, pairs, dir, rule),
        ),
    }
}

/// Every syncer run once, in order, in one direction; the result is the
/// target world. The first failure ends the run.
pub open spec fn sync_all(
    src: WorldView,
    dst: WorldView,
    syncers: Seq<Syncer>,
    pairs: Seq<(u64, u64)>,
    dir: SyncDirection,
) -> Result<WorldView, Failure>
    decreases syncers.len(),
{
    if syncers.len() == 0 {
        Ok(dst)
    } else {
        match sync_all(src, dst, syncers.drop_last(), pairs, dir) {
            Ok(d) => sync_one(src, d, syncers.last(), pairs, dir),
            Err(e) => Err(e),
        }
    }
}

fn copy_component_pairs(
    src: &World,
    dst: &mut World,
    kind: u64,
    pairs: &Vec<(u64, u64)>,
    dir: SyncDirection,
    rule: MergeRule,
)
    ensures
        final(dst)@ == copy_components(src@, old(dst)@, kind, pairs@, dir, rule),
{
    let mut i: usize = 0;
    while i < pairs.len()
        invariant
            i <= pairs.len(),
            dst@ == copy_components(src@, old(dst)@, kind, pairs@.subrange(0, i as int), dir, rule),
        decreases pairs.len() - i,
    {
        let p = pairs[i];
        let (from, to) = match dir {
            SyncDirection::PrimaryToSecondary => (p.0, p.1),
            SyncDirection::SecondaryToPrimary => (p.1, p.0),
        };
        proof {
            assert(pairs@.subrange(0, i + 1).drop_last() =~= pairs@.subrange(0, i as int));
        }
        match src.component(kind, from) {
            Some(v) => {
                let keep = match rule {
                    MergeRule::PreferTarget => dst.component(kind, to).is_some(),
                    MergeRule::PreferSource => false,
                };
                if !keep {
                    dst.insert_component(kind, to, v);
                }
            },
            None => {},
        }
        i = i + 1;
    }
    assert(pairs@.subrange(0, i as int) =~= pairs@);
}

/// Runs one syncer from `src` into `dst`.
pub fn sync_syncer(
    src: &World,
    dst: &mut World,
    syncer: Syncer,
    pairs: &Vec<(u64, u64)>,
    dir: SyncDirection,
) -> (r: Result<(), BuildError>)
    ensures
        match sync_one(src@, old(dst)@, syncer, pairs@, dir) {
            Ok(d) => r is Ok && final(dst)@ == d,
            Err(e) => r matches Err(x) && x@ == e && final(dst)@ == old(dst)@,
        },
{
    match syncer {
        Syncer::Resource(kind) => match src.resource(kind) {
            Some(v) => {
                dst.insert_resource(kind, v);
                Ok(())
            },
            None => Err(BuildError::SyncerSyncFailed(kind)),
        },
        Syncer::Component(kind) => {
            copy_component_pairs(src, dst, kind, pairs, dir, MergeRule::PreferSource);
            Ok(())
        },
        Syncer::ComponentWith(kind, rule) => {
            copy_component_pairs(src, dst, kind, pairs, dir, rule);
            Ok(())
        },
    }
}

/// Runs every syncer once, in order, from `src` into `dst`.
pub fn sync_syncers(
    src: &World,
    dst: &mut World,
    syncers: &Vec<Syncer>,
    pairs: &Vec<(u64, u64)>,
    dir: SyncDirection,
) -> (r: Result<(), BuildError>)
    ensures
        match sync_all(src@, old(dst)@, syncers@, pairs@, dir) {
            Ok(d) => r is Ok && final(dst)@ == d,
            Err(e) => r matches Err(x) && x@ == e,
        },
        r is Err ==> exists|k: int|
            0 <= k < syncers@.len() && sync_all(src@, old(dst)@, syncers@.take(k), pairs@, dir)
                == Ok::<WorldView, Failure>(final(dst)@) && #[trigger] sync_one(
                src@,
                final(dst)@,
                syncers@[k],
                pairs@,
                dir,
            ) is Err,
{
    let mut i: usize = 0;
    while i < syncers.len()
        invariant
            i <= syncers.len(),
            sync_all(src@, old(dst)@, syncers@.subrange(0, i as int), pairs@, dir) == Ok::<
                WorldView,
                Failure,
            >(dst@),
        decreases syncers.len() - i,
    {
        proof {
            assert(syncers@.subrange(0, i + 1).drop_last() =~= syncers@.subrange(0, i as int));
        }
        let r = sync_syncer(src, dst, syncers[i], pairs, dir);
        if r.is_err() {
            proof {
                lemma_sync_error_persists(
                    src@,
                    old(dst)@,
                    syncers@.subrange(0, i + 1),
                    syncers@,
                    pairs@,
                    dir,
                );
                assert(syncers@.take(i as int) =~= syncers@.subrange(0, i as int));
                assert(sync_one(src@, dst@, syncers@[i as int], pairs@, dir) is Err);
            }
            return r;
        }
        i = i + 1;
    }
    assert(syncers@.subrange(0, i as int) =~= syncers@);
    Ok(())
}

pub proof fn lemma_sync_error_persists(
    src: WorldView,
    dst: WorldView,
    pre: Seq<Syncer>,
    all: Seq<Syncer>,
    pairs: Seq<(u64, u64)>,
    dir: SyncDirection,
)
    requires
        sync_all(src, dst, pre, pairs, dir) is Err,
        pre.len() <= all.len(),
        all.subrange(0, pre.len() as int) == pre,
    ensures
        sync_all(src, dst, all, pairs, dir) == sync_all(src, dst, pre, pairs, dir),
    decreases all.len(),
{
    if all.len() > pre.len() {
        assert(all.drop_last().subrange(0, pre.len() as int) =~= pre);
        lemma_sync_error_persists(src, dst, pre, all.drop_last(), pairs, dir);
    } else {
        assert(all =~= pre);
    }
}

/// Some syncer of `syncers` copies the resource of kind `kind`.
pub open spec fn syncs_resource(syncers: Seq<Syncer>, kind: u64) -> bool {
    exists|i: int| 0 <= i < syncers.len() && syncers[i] == Syncer::Resource(kind)
}

/// A component copy leaves the resources of the target as they were.
pub proof fn lemma_copy_keeps_resources(
    src: WorldView,
    dst: WorldView,
    kind: u64,
    pairs: Seq<(u64, u64)>,
    dir: SyncDirection,
    rule: MergeRule,
)
    ensures
        copy_components(src, dst, kind, pairs, dir, rule).resources == dst.resources,
    decreases pairs.len(),
{
    if pairs.len() > 0 {
        lemma_copy_keeps_resources(src, dst, kind, pairs.drop_last(), dir, rule);
    }
}

/// After a successful run, each resource that a syncer copies holds in the
/// target the value it has in the source.
pub proof fn lemma_sync_copies_resources(
    src: WorldView,
    dst: WorldView,
    syncers: Seq<Syncer>,
    pairs: Seq<(u64, u64)>,
    dir: SyncDirection,
)
    ensures
        sync_all(src, dst, syncers, pairs, dir) matches Ok(d) ==> forall|kind: u64|
            #[trigger] syncs_resource(syncers, kind) ==> src.resources.contains_key(kind)
                && d.resources.contains_key(kind) && d.resources[kind] == src.resources[kind],
    decreases syncers.len(),
{
    if syncers.len() > 0 {
        let pre = syncers.drop_last();
        lemma_sync_copies_resources(src, dst, pre, pairs, dir);
        if let Ok(d) = sync_all(src, dst, syncers, pairs, dir) {
            let d0 = sync_all(src, dst, pre, pairs, dir)->Ok_0;
            match syncers.last() {
                Syncer::Component(k) => lemma_copy_keeps_resources(
                    src,
                    d0,
                    k,
                    pairs,
                    dir,
                    MergeRule::PreferSource,
                ),
                Syncer::ComponentWith(k, rule) => lemma_copy_keeps_resources(
                    src,
                    d0,
                    k,
                    pairs,
                    dir,
                    rule,
                ),
                Syncer::Resource(k) => {},
            }
            assert forall|kind: u64| #[trigger] syncs_resource(syncers, kind) implies src.resources.contains_key(
                kind,
            ) && d.resources.contains_key(kind) && d.resources[kind] == src.resources[kind] by {
                let i = choose|i: int| 0 <= i < syncers.len() && syncers[i] == Syncer::Resource(kind);
                if syncers.last() != Syncer::Resource(kind) {
                    assert(i < pre.len());
                    assert(pre[i] == syncers[i]);
                    assert(syncs_resource(pre, kind));
                }
            }
        }
    }
}

/// Running the syncers back from a world that holds, for each resource they
/// copy, the value that `dst` holds, leaves the resources of `dst` as they
/// were.
pub proof fn lemma_sync_back_keeps_resources(
    src: WorldView,
    dst: WorldView,
    syncers: Seq<Syncer>,
    pairs: Seq<(u64, u64)>,
    dir: SyncDirection,
)
    requires
        forall|kind: u64| #[trigger]
            syncs_resource(syncers, kind) ==> src.resources.contains_key(kind)
                && dst.resources.contains_key(kind) && src.resources[kind] == dst.resources[kind],
    ensures
        sync_all(src, dst, syncers, pairs, dir) matches Ok(d) && d.resources == dst.resources,
    decreases syncers.len(),
{
    if syncers.len() > 0 {
        let pre = syncers.drop_last();
        assert forall|kind: u64| #[trigger] syncs_resource(pre, kind) implies syncs_resource(
            syncers,
            kind,
        ) by {
            let i = choose|i: int| 0 <= i < pre.len() && pre[i] == Syncer::Resource(kind);
            assert(syncers[i] == pre[i]);
        }
        lemma_sync_back_keeps_resources(src, dst, pre, pairs, dir);
        let d0 = sync_all(src, dst, pre, pairs, dir)->Ok_0;
        match syncers.last() {
            Syncer::Component(k) => lemma_copy_keeps_resources(
                src,
                d0,
                k,
                pairs,
                dir,
                MergeRule::PreferSource,
            ),
            Syncer::ComponentWith(k, rule) => lemma_copy_keeps_resources(
                src,
                d0,
                k,
                pairs,
                dir,
                rule,
            ),
            Syncer::Resource(k) => {
                assert(syncers[syncers.len() - 1] == Syncer::Resource(k));
                assert(syncs_resource(syncers, k));
                assert(d0.resources.insert(k, src.resources[k]) =~= dst.resources);
            },
        }
    }
}

/// Running every syncer towards the secondary world and then back, with
/// nothing changed in between, succeeds and leaves every resource of the
/// primary world as it was.
pub proof fn resource_round_trip(
    primary: WorldView,
    secondary: WorldView,
    syncers: Seq<Syncer>,
    pairs: Seq<(u64, u64)>,
)
    requires
        sync_all(primary, secondary, syncers, pairs, SyncDirection::PrimaryToSecondary) is Ok,
    ensures
        sync_all(primary, secondary, syncers, pairs, SyncDirection::PrimaryToSecondary) matches Ok(
            s1,
        ) && sync_all(s1, primary, syncers, pairs, SyncDirection::SecondaryToPrimary) matches Ok(p1)
            && p1.resources == primary.resources,
{
    lemma_sync_copies_resources(
        primary,
        secondary,
        syncers,
        pairs,
        SyncDirection::PrimaryToSecondary,
    );
    let s1 = sync_all(
        primary,
        secondary,
        syncers,
        pairs,
        SyncDirection::PrimaryToSecondary,
    )->Ok_0;
    lemma_sync_back_keeps_resources(
        s1,
        primary,
        syncers,
        pairs,
        SyncDirection::SecondaryToPrimary,
    );
}

/// A syncer's setup: a component syncer registers the storage of its kind
/// in the world, empty where there was none. A resource syncer needs none.
pub open spec fn setup_one(w: WorldView, syncer: Syncer) -> WorldView {
    match syncer {
        Syncer::Resource(_) => w,
        Syncer::Component(kind) | Syncer::ComponentWith(kind, _) => if w.components.contains_key(
            kind,
        ) {
            w
        } else {
            WorldView { components: w.components.insert(kind, Map::empty()), ..w }
        },
    }
}

/// Every syncer's setup, in order.
pub open spec fn setup_all(w: WorldView, syncers: Seq<Syncer>) -> WorldView
    decreases syncers.len(),
{
    if syncers.len() == 0 {
        w
    } else {
        setup_one(setup_all(w, syncers.drop_last()), syncers.last())
    }
}

/// Setup touches no resource.
pub proof fn lemma_setup_keeps_resources(w: WorldView, syncers: Seq<Syncer>)
    ensures
        setup_all(w, syncers).resources == w.resources,
    decreases syncers.len(),
{
    if syncers.len() > 0 {
        lemma_setup_keeps_resources(w, syncers.drop_last());
    }
}

/// Runs every syncer's setup on `world`, in order.
pub fn setup_syncers(world: &mut World, syncers: &Vec<Syncer>)
    ensures
        final(world)@ == setup_all(old(world)@, syncers@),
{
    let mut i: usize = 0;
    while i < syncers.len()
        invariant
            i <= syncers.len(),
            world@ == setup_all(old(world)@, syncers@.subrange(0, i as int)),
        decreases syncers.len() - i,
    {
        proof {
            assert(syncers@.subrange(0, i + 1).drop_last() =~= syncers@.subrange(0, i as int));
        }
        let kind = match syncers[i] {
            Syncer::Resource(_) => None,
            Syncer::Component(k) => Some(k),
            Syncer::ComponentWith(k, _) => Some(k),
        };
        if let Some(k) = kind {
            if !world.components.contains_key(&k) {
                let ghost w0 = world@;
                world.components.insert(k, std::collections::HashMap::new());
                assert(world@.components =~= w0.components.insert(k, Map::empty()));
            }
        }
        i = i + 1;
    }
    assert(syncers@.subrange(0, i as int) =~= syncers@);
}

/// The kind of the first resource syncer whose resource `resources` lacks.
pub open spec fn missing_resource(resources: Map<u64, i64>, syncers: Seq<Syncer>) -> Option<u64>
    decreases syncers.len(),
{
    if syncers.len() == 0 {
        None
    } else {
        match missing_resource(resources, syncers.drop_last()) {
            Some(k) => Some(k),
            None => match syncers.last() {
                Syncer::Resource(k) => if resources.contains_key(k) {
                    None
                } else {
                    Some(k)
                },
                _ => None,
            },
        }
    }
}

/// A run of the syncers fails exactly when the source lacks a resource that
/// one of them copies, and then with the first such kind.
pub proof fn lemma_sync_fails_iff_missing(
    src: WorldView,
    dst: WorldView,
    syncers: Seq<Syncer>,
    pairs: Seq<(u64, u64)>,
    dir: SyncDirection,
)
    ensures
        match missing_resource(src.resources, syncers) {
            Some(k) => sync_all(src, dst, syncers, pairs, dir) == Err::<WorldView, Failure>(
                Failure::SyncerSyncFailed(k),
            ),
            None => sync_all(src, dst, syncers, pairs, dir) is Ok,
        },
    decreases syncers.len(),
{
    if syncers.len() > 0 {
        lemma_sync_fails_iff_missing(src, dst, syncers.drop_last(), pairs, dir);
    }
}

/// Where every resource that a syncer copies is present, none is missing.
pub proof fn lemma_none_missing(resources: Map<u64, i64>, syncers: Seq<Syncer>)
    requires
        forall|kind: u64| #[trigger] syncs_resource(syncers, kind) ==> resources.contains_key(kind),
    ensures
        missing_resource(resources, syncers) is None,
    decreases syncers.len(),
{
    if syncers.len() > 0 {
        let pre = syncers.drop_last();
        assert forall|kind: u64| #[trigger] syncs_resource(pre, kind) implies resources.contains_key(
            kind,
        ) by {
            let i = choose|i: int| 0 <= i < pre.len() && pre[i] == Syncer::Resource(kind);
            assert(syncers[i] == pre[i]);
            assert(syncs_resource(syncers, kind));
        }
        lemma_none_missing(resources, pre);
        if let Syncer::Resource(k) = syncers.last() {
            assert(syncers[syncers.len() - 1] == Syncer::Resource(k));
            assert(syncs_resource(syncers, k));
        }
    }
}

/// The kind of the first resource syncer whose resource `world` lacks.
pub fn first_missing_resource(world: &World, syncers: &Vec<Syncer>) -> (r: Option<u64>)
    ensures
        r == missing_resource(world@.resources, syncers@),
{
    let mut i: usize = 0;
    while i < syncers.len()
        invariant
            i <= syncers.len(),
            missing_resource(world@.resources, syncers@.subrange(0, i as int)) is None,
        decreases syncers.len() - i,
    {
        proof {
            assert(syncers@.subrange(0, i + 1).drop_last() =~= syncers@.subrange(0, i as int));
        }
        if let Syncer::Resource(k) = syncers[i] {
            if world.resource(k).is_none() {
                proof {
                    lemma_missing_prefix(world@.resources, syncers@.subrange(0, i + 1), syncers@);
                }
                return Some(k);
            }
        }
        i = i + 1;
    }
    assert(syncers@.subrange(0, i as int) =~= syncers@);
    None
}

/// Once a prefix has a missing resource, the whole list has the same one.
pub proof fn lemma_missing_prefix(resources: Map<u64, i64>, pre: Seq<Syncer>, all: Seq<Syncer>)
    requires
        missing_resource(resources, pre) is Some,
        pre.len() <= all.len(),
        all.subrange(0, pre.len() as int) == pre,
    ensures
        missing_resource(resources, all) == missing_resource(resources, pre),
    decreases all.len(),
{
    if all.len() > pre.len() {
        assert(all.drop_last().subrange(0, pre.len() as int) =~= pre);
        lemma_missing_prefix(resources, pre, all.drop_last());
    } else {
        assert(all =~= pre);
    }
}

} // verus!
