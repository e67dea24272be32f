//! The auto-sync registry: one generation-tagged periodic task per entity,
//! with cancel-before-respawn, a generation check on teardown, and the
//! per-tick decision after a sync attempt.
use vstd::prelude::*;

verus! {

/// A scheduled entity: a Source or a Destination, by id.
#[derive(Debug, Clone, Copy, PartialEq, Eq, Hash, Structural)]
pub enum AutoSyncKey {
    Source(i64),
    Destination(i64),
}

#[verifier::external_type_specification]
#[verifier::external_body]
pub struct ExAbortHandle(tokio::task::AbortHandle);

/// Relies on tokio's `AbortHandle::abort`: it only signals the task and
/// returns nothing.
pub assume_specification[ tokio::task::AbortHandle::abort ](h: &tokio::task::AbortHandle);

struct RegistryEntry {
    key: AutoSyncKey,
    generation: u64,
    handle: tokio::task::AbortHandle,
}

/// The process-wide registry of live periodic tasks: for each key at most
/// one entry, tagged with the generation of the registration that spawned
/// it.
pub struct SyncRegistry {
    entries: Vec<RegistryEntry>,
    next_gen: u64,
}

impl SyncRegistry {
    /// The registered generations, as a map keyed by entity.
    pub closed spec fn view_map(self) -> Map<AutoSyncKey, u64> {
        Map::new(
            |k: AutoSyncKey| exists|i: int| 0 <= i < self.entries@.len() && (#[trigger] self.entries@[i]).key == k,
            |k: AutoSyncKey| self.entries@[choose|i: int| 0 <= i < self.entries@.len() && (#[trigger] self.entries@[i]).key == k].generation,
        )
    }

    pub closed spec fn gen_bound(self) -> u64 {
        self.next_gen
    }

    /// At most one live entry per key.
    pub closed spec fn wf(self) -> bool {
        &&& forall|i: int, j: int|
            0 <= i < j < self.entries@.len() ==> (#[trigger] self.entries@[i]).key != (
            #[trigger] self.entries@[j]).key
        &&& forall|i: int|
            0 <= i < self.entries@.len() ==> (#[trigger] self.entries@[i]).generation
                < self.next_gen
    }

    proof fn lemma_view_at(self, i: int)
        requires
            self.wf(),
            0 <= i < self.entries@.len(),
        ensures
            self.view_map().dom().contains(self.entries@[i].key),
            self.view_map()[self.entries@[i].key] == self.entries@[i].generation,
    {
        let k = self.entries@[i].key;
        assert(exists|p: int|
            0 <= p < self.entries@.len() && (#[trigger] self.entries@[p]).key == k);
        let w = choose|p: int|
            0 <= p < self.entries@.len() && (#[trigger] self.entries@[p]).key == k;
        if w != i {
            if w < i {
                assert(self.entries@[w].key != self.entries@[i].key);
            } else {
                assert(self.entries@[i].key != self.entries@[w].key);
            }
        }
    }

    proof fn lemma_view_absent(self, k: AutoSyncKey)
        requires
            forall|i: int| 0 <= i < self.entries@.len() ==> (#[trigger] self.entries@[i]).key != k,
        ensures
            !self.view_map().dom().contains(k),
    {
    }
}

/// A fresh registry with no live tasks.
pub fn new_registry() -> (r: SyncRegistry)
    ensures
        r.wf(),
        r.view_map() == Map::<AutoSyncKey, u64>::empty(),
        r.gen_bound() == 0,
{
    let r = SyncRegistry { entries: Vec::new(), next_gen: 0 };
    proof {
        assert(r.view_map() =~= Map::<AutoSyncKey, u64>::empty());
    }
    r
}

impl SyncRegistry {
    fn find_key(&self, key: &AutoSyncKey) -> (r: Option<usize>)
        ensures
            match r {
                Some(i) => i < self.entries@.len() && self.entries@[i as int].key == *key,
                None => forall|i: int|
                    0 <= i < self.entries@.len() ==> (#[trigger] self.entries@[i]).key != *key,
            },
    {
        let mut i: usize = 0;
        while i < self.entries.len()
            invariant
                0 <= i <= self.entries@.len(),
                forall|k: int| 0 <= k < i ==> (#[trigger] self.entries@[k]).key != *key,
            decreases self.entries@.len() - i,
        {
            let same = match (&self.entries[i].key, key) {
                (AutoSyncKey::Source(a), AutoSyncKey::Source(b)) => *a == *b,
                (AutoSyncKey::Destination(a), AutoSyncKey::Destination(b)) => *a == *b,
                _ => false,
            };
            if same {
                return Some(i);
            }
            i = i + 1;
        }
        None
    }

    /// Draw the next generation from the monotone counter.
    pub fn next_generation(&mut self) -> (g: u64)
        requires
            old(self).gen_bound() < u64::MAX,
        ensures
            g == old(self).gen_bound(),
            final(self).gen_bound() == g + 1,
            final(self).view_map() == old(self).view_map(),
            old(self).wf() ==> final(self).wf(),
    {
        let g = self.next_gen;
        self.next_gen = g + 1;
        proof {
            assert(final(self).view_map() =~= old(self).view_map());
        }
        g
    }

    /// Remove a key's task and abort it; no-op when absent.
    pub fn cancel(&mut self, key: &AutoSyncKey)
        requires
            old(self).wf(),
        ensures
            final(self).wf(),
            final(self).gen_bound() == old(self).gen_bound(),
            final(self).view_map() == old(self).view_map().remove(*key),
    {
        match self.find_key(key) {
            Some(i) => {
                let e = self.entries.remove(i);
                e.handle.abort();
                proof {
                    let es = self.entries@;
                    let oes = old(self).entries@;
                    oes.remove_ensures(i as int);
                    assert forall|p: int, q: int| 0 <= p < q < es.len() implies (
                    #[trigger] es[p]).key != (#[trigger] es[q]).key by {
                        let p0 = if p < i { p } else { p + 1 };
                        let q0 = if q < i { q } else { q + 1 };
                        assert(es[p] == oes[p0] && es[q] == oes[q0]);
                    }
                    assert forall|p: int| 0 <= p < es.len() implies (
                    #[trigger] es[p]).generation < self.next_gen by {
                        let p0 = if p < i { p } else { p + 1 };
                        assert(es[p] == oes[p0]);
                    }
                    assert forall|p: int| 0 <= p < es.len() implies (#[trigger] es[p]).key
                        != *key by {
                        let p0 = if p < i { p } else { p + 1 };
                        assert(es[p] == oes[p0]);
                        if p0 != i {
                            if p0 < i {
                                assert(oes[p0].key != oes[i as int].key);
                            } else {
                                assert(oes[i as int].key != oes[p0].key);
                            }
                        }
                    }
                    assert(final(self).view_map() =~= old(self).view_map().remove(*key)) by {
                        assert forall|k: AutoSyncKey|
                            final(self).view_map().dom().contains(k) implies old(
                            self,
                        ).view_map().remove(*key).dom().contains(k) && final(self).view_map()[k]
                            == old(self).view_map().remove(*key)[k] by {
                            let w = choose|p: int|
                                0 <= p < es.len() && (#[trigger] es[p]).key == k;
                            let p0 = if w < i { w } else { w + 1 };
                            assert(es[w] == oes[p0]);
                            old(self).lemma_view_at(p0);
                            self.lemma_view_at(w);
                        }
                        assert forall|k: AutoSyncKey|
                            old(self).view_map().remove(*key).dom().contains(k) implies final(self).view_map().dom().contains(k) by {
                            let w = choose|p: int|
                                0 <= p < oes.len() && (#[trigger] oes[p]).key == k;
                            let p0 = if w < i { w } else { w - 1 };
                            assert(w != i);
                            assert(es[p0] == oes[w]);
                            self.lemma_view_at(p0);
                        }
                    }
                }
            },
            None => {
                proof {
                    old(self).lemma_view_absent(*key);
                    assert(final(self).view_map() =~= old(self).view_map().remove(*key));
                }
            },
        }
    }

    /// Record a freshly spawned task under its key and generation. The key
    /// must have been cancelled first, and the generation drawn from this
    /// registry.
    pub fn insert(&mut self, key: AutoSyncKey, generation: u64, handle: tokio::task::AbortHandle)
        requires
            old(self).wf(),
            !old(self).view_map().dom().contains(key),
            generation < old(self).gen_bound(),
        ensures
            final(self).wf(),
            final(self).gen_bound() == old(self).gen_bound(),
            final(self).view_map() == old(self).view_map().insert(key, generation),
    {
        proof {
            assert forall|i: int| 0 <= i < old(self).entries@.len() implies (#[trigger] old(
                self,
            ).entries@[i]).key != key by {
                if old(self).entries@[i].key == key {
                    old(self).lemma_view_at(i);
                }
            }
        }
        self.entries.push(RegistryEntry { key, generation, handle });
        proof {
            let es = self.entries@;
            let oes = old(self).entries@;
            assert(forall|i: int| 0 <= i < oes.len() ==> #[trigger] es[i] == oes[i]);
            assert(es[oes.len() as int].key == key);
            assert forall|p: int, q: int| 0 <= p < q < es.len() implies (#[trigger] es[p]).key
                != (#[trigger] es[q]).key by {
                if q == oes.len() {
                    assert(oes[p].key != key);
                }
            }
            assert(final(self).view_map() =~= old(self).view_map().insert(key, generation)) by {
                assert forall|k: AutoSyncKey|
                    final(self).view_map().dom().contains(k) implies old(
                    self,
                ).view_map().insert(key, generation).dom().contains(k) && final(self).view_map()[k] == old(self).view_map().insert(key, generation)[k] by {
                    let w = choose|p: int| 0 <= p < es.len() && (#[trigger] es[p]).key == k;
                    self.lemma_view_at(w);
                    if w < oes.len() {
                        old(self).lemma_view_at(w);
                    }
                }
                assert forall|k: AutoSyncKey|
                    old(self).view_map().insert(key, generation).dom().contains(k) implies final(self).view_map().dom().contains(k) by {
                    if k == key {
                        self.lemma_view_at(oes.len() as int);
                    } else {
                        let w = choose|p: int|
                            0 <= p < oes.len() && (#[trigger] oes[p]).key == k;
                        self.lemma_view_at(w);
                    }
                }
            }
        }
    }

    /// Tear down a finished task's slot, but only when its generation still
    /// owns the slot: a stale task never evicts its replacement.
    pub fn try_remove(&mut self, key: &AutoSyncKey, generation: u64)
        requires
            old(self).wf(),
        ensures
            final(self).wf(),
            final(self).gen_bound() == old(self).gen_bound(),
            (old(self).view_map().dom().contains(*key) && old(self).view_map()[*key] == generation)
                ==> final(self).view_map() == old(self).view_map().remove(*key),
            !(old(self).view_map().dom().contains(*key) && old(self).view_map()[*key]
                == generation) ==> final(self).view_map() == old(self).view_map(),
    {
        match self.find_key(key) {
            Some(i) => {
                proof {
                    old(self).lemma_view_at(i as int);
                }
                if self.entries[i].generation == generation {
                    self.cancel_at(i, key);
                } else {
                }
            },
            None => {
                proof {
                    old(self).lemma_view_absent(*key);
                }
            },
        }
    }

    /// Remove the entry at a known index (without aborting: the task is
    /// already ending).
    fn cancel_at(&mut self, i: usize, key: &AutoSyncKey)
        requires
            old(self).wf(),
            i < old(self).entries@.len(),
            old(self).entries@[i as int].key == *key,
        ensures
            final(self).wf(),
            final(self).gen_bound() == old(self).gen_bound(),
            final(self).view_map() == old(self).view_map().remove(*key),
    {
        self.entries.remove(i);
        proof {
            let es = self.entries@;
            let oes = old(self).entries@;
            oes.remove_ensures(i as int);
            assert forall|p: int, q: int| 0 <= p < q < es.len() implies (#[trigger] es[p]).key
                != (#[trigger] es[q]).key by {
                let p0 = if p < i { p } else { p + 1 };
                let q0 = if q < i { q } else { q + 1 };
                assert(es[p] == oes[p0] && es[q] == oes[q0]);
            }
            assert forall|p: int| 0 <= p < es.len() implies (#[trigger] es[p]).generation < self
                .next_gen by {
                let p0 = if p < i { p } else { p + 1 };
                assert(es[p] == oes[p0]);
            }
            assert forall|p: int| 0 <= p < es.len() implies (#[trigger] es[p]).key != *key by {
                let p0 = if p < i { p } else { p + 1 };
                assert(es[p] == oes[p0]);
                if p0 != i {
                    if p0 < i {
                        assert(oes[p0].key != oes[i as int].key);
                    } else {
                        assert(oes[i as int].key != oes[p0].key);
                    }
                }
            }
            assert(final(self).view_map() =~= old(self).view_map().remove(*key)) by {
                assert forall|k: AutoSyncKey| final(self).view_map().dom().contains(k) implies old(
                    self,
                ).view_map().remove(*key).dom().contains(k) && final(self).view_map()[k] == old(
                    self,
                ).view_map().remove(*key)[k] by {
                    let w = choose|p: int| 0 <= p < es.len() && (#[trigger] es[p]).key == k;
                    let p0 = if w < i { w } else { w + 1 };
                    assert(es[w] == oes[p0]);
                    old(self).lemma_view_at(p0);
                    self.lemma_view_at(w);
                }
                assert forall|k: AutoSyncKey|
                    old(self).view_map().remove(*key).dom().contains(k) implies final(self).view_map().dom().contains(k) by {
                    let w = choose|p: int| 0 <= p < oes.len() && (#[trigger] oes[p]).key == k;
                    let p0 = if w < i { w } else { w - 1 };
                    assert(w != i);
                    assert(es[p0] == oes[w]);
                    self.lemma_view_at(p0);
                }
            }
        }
    }

    /// Is auto-sync enabled for this interval? Zero or negative disables it.
    pub fn should_schedule(interval_secs: i64) -> (r: bool)
        ensures
            r == (interval_secs > 0),
    {
        interval_secs > 0
    }
}

/// What the periodic loop does after one tick.
#[derive(Debug, Clone, Copy, PartialEq, Eq, Structural)]
pub enum TickAction {
    /// The sync succeeded: log and sleep.
    Continue,
    /// The sync failed but the entity still exists: persist the error,
    /// then sleep.
    PersistErrorAndContinue,
    /// The entity is gone (or the store failed): the task self-terminates.
    Stop,
}

/// Decide a tick's follow-up: success continues; failure persists the
/// error while the entity exists and stops the task once it is gone.
pub fn tick_decision(sync_ok: bool, entity_exists: bool) -> (r: TickAction)
    ensures
        sync_ok ==> r == TickAction::Continue,
        !sync_ok && entity_exists ==> r == TickAction::PersistErrorAndContinue,
        !sync_ok && !entity_exists ==> r == TickAction::Stop,
{
    if sync_ok {
        TickAction::Continue
    } else if entity_exists {
        TickAction::PersistErrorAndContinue
    } else {
        TickAction::Stop
    }
}

} // verus!
