//! The loadable registry: process-wide identities bound to callback tokens.
//!
//! A loadable type registers a decode/apply/revert triple once at startup.
//! The registry itself only records which identity is bound to which
//! callback token; the embedding application owns the actual functions and
//! resolves a token back to them. Registering an identity twice is reported
//! so the caller can warn; the newest registration wins.

use vstd::prelude::*;

verus! {

/// The mathematical map a list of `(identity, token)` pairs denotes; a later
/// pair for the same identity wins.
pub open spec fn id_map_of(entries: Seq<(u64, u64)>) -> Map<u64, u64>
    decreases entries.len(),
{
    if entries.len() == 0 {
        Map::empty()
    } else {
        id_map_of(entries.drop_last()).insert(entries.last().0, entries.last().1)
    }
}

/// True when no identity occurs twice.
pub open spec fn unique_ids(entries: Seq<(u64, u64)>) -> bool {
    forall|i: int, j: int|
        0 <= i < j < entries.len() ==> (#[trigger] entries[i].0) != (#[trigger] entries[j].0)
}

/// An identity is in the denoted map exactly when some pair carries it.
pub proof fn lemma_id_map_contains(entries: Seq<(u64, u64)>, key: u64)
    ensures
        id_map_of(entries).contains_key(key) <==> exists|i: int|
            0 <= i < entries.len() && (#[trigger] entries[i].0) == key,
    decreases entries.len(),
{
    if entries.len() > 0 {
        lemma_id_map_contains(entries.drop_last(), key);
        if entries.last().0 == key {
            assert(entries[entries.len() - 1].0 == key);
        } else if id_map_of(entries).contains_key(key) {
            let i = choose|i: int|
                0 <= i < entries.drop_last().len() && (#[trigger] entries.drop_last()[i].0) == key;
            assert(entries[i].0 == key);
        } else {
            assert forall|i: int|
                0 <= i < entries.len() && (#[trigger] entries[i].0) == key implies false by {
                if i < entries.len() - 1 {
                    assert(entries.drop_last()[i].0 == key);
                }
            }
        }
    }
}

/// Under unique identities, the denoted map sends each pair's identity to
/// its token.
pub proof fn lemma_id_map_get(entries: Seq<(u64, u64)>, j: int)
    requires
        unique_ids(entries),
        0 <= j < entries.len(),
    ensures
        id_map_of(entries).contains_key(entries[j].0),
        id_map_of(entries)[entries[j].0] == entries[j].1,
    decreases entries.len(),
{
    if j + 1 == entries.len() {
    } else {
        assert(entries.drop_last()[j] == entries[j]);
        lemma_id_map_get(entries.drop_last(), j);
        assert(entries[j].0 != entries.last().0);
    }
}

/// Replacing the token at one position updates the denoted map there.
pub proof fn lemma_id_map_update(entries: Seq<(u64, u64)>, j: int, token: u64)
    requires
        unique_ids(entries),
        0 <= j < entries.len(),
    ensures
        id_map_of(entries.update(j, (entries[j].0, token))) == id_map_of(entries).insert(
            entries[j].0,
            token,
        ),
    decreases entries.len(),
{
    let updated = entries.update(j, (entries[j].0, token));
    if j + 1 == entries.len() {
        assert(updated.drop_last() =~= entries.drop_last());
        assert(id_map_of(entries).insert(entries[j].0, token) =~= id_map_of(
            entries.drop_last(),
        ).insert(entries[j].0, token));
    } else {
        assert(updated.drop_last() =~= entries.drop_last().update(j, (entries[j].0, token)));
        assert(entries.drop_last()[j] == entries[j]);
        lemma_id_map_update(entries.drop_last(), j, token);
        assert(entries[j].0 != entries.last().0);
        assert(id_map_of(updated) =~= id_map_of(entries).insert(entries[j].0, token));
    }
}

/// A list of `(identity, token)` pairs with unique identities.
#[derive(Debug)]
pub struct CallbackTable {
    /// The registered pairs.
    pub entries: Vec<(u64, u64)>,
}

impl CallbackTable {
    /// The denoted mathematical map.
    pub open spec fn as_map(&self) -> Map<u64, u64> {
        id_map_of(self.entries@)
    }

    /// The table's invariant: no identity occurs twice.
    pub open spec fn wf(&self) -> bool {
        unique_ids(self.entries@)
    }

    /// An empty table.
    pub fn new() -> (r: CallbackTable)
        ensures
            r.wf(),
            r.as_map() == Map::<u64, u64>::empty(),
    {
        CallbackTable { entries: Vec::new() }
    }

    /// Binds `id` to `token`; reports whether `id` was already bound, in
    /// which case the new token replaces the old one.
    pub fn register(&mut self, id: u64, token: u64) -> (dup: bool)
        requires
            old(self).wf(),
        ensures
            final(self).wf(),
            final(self).as_map() == old(self).as_map().insert(id, token),
            dup == old(self).as_map().contains_key(id),
    {
        let ghost entries0 = self.entries@;
        let mut k: usize = 0;
        while k < self.entries.len()
            invariant
                k <= entries0.len(),
                self.entries@ == entries0,
                old(self).entries@ == entries0,
                unique_ids(entries0),
                forall|j: int| 0 <= j < k ==> (#[trigger] entries0[j].0) != id,
            decreases entries0.len() - k,
        {
            if self.entries[k].0 == id {
                let removed = self.entries.remove(k);
                self.entries.insert(k, (removed.0, token));
                proof {
                    assert(self.entries@ =~= entries0.update(k as int, (entries0[k as int].0, token)));
                    lemma_id_map_update(entries0, k as int, token);
                    lemma_id_map_contains(entries0, id);
                }
                return true;
            }
            k = k + 1;
        }
        self.entries.push((id, token));
        proof {
            assert(self.entries@.drop_last() =~= entries0);
            lemma_id_map_contains(entries0, id);
        }
        false
    }

    /// Looks an identity up.
    pub fn get(&self, id: u64) -> (r: Option<u64>)
        requires
            self.wf(),
        ensures
            r matches Some(t) ==> self.as_map().contains_key(id) && t == self.as_map()[id],
            r is None ==> !self.as_map().contains_key(id),
    {
        let ghost entries0 = self.entries@;
        let mut k: usize = 0;
        while k < self.entries.len()
            invariant
                k <= entries0.len(),
                self.entries@ == entries0,
                unique_ids(entries0),
                forall|j: int| 0 <= j < k ==> (#[trigger] entries0[j].0) != id,
            decreases entries0.len() - k,
        {
            if self.entries[k].0 == id {
                proof {
                    lemma_id_map_get(entries0, k as int);
                }
                return Some(self.entries[k].1);
            }
            k = k + 1;
        }
        proof {
            lemma_id_map_contains(entries0, id);
        }
        None
    }
}

/// Callbacks for applying loadables: commands against the whole world, node
/// loadables against one target, and the reverters that undo them.
#[derive(Debug)]
pub struct LoaderCallbacks {
    /// Appliers of command loadables.
    pub command_callbacks: CallbackTable,
    /// Appliers of node loadables.
    pub node_callbacks: CallbackTable,
    /// Reverters of node loadables.
    pub revert_callbacks: CallbackTable,
}

impl LoaderCallbacks {
    /// The registry's invariant.
    pub open spec fn wf(&self) -> bool {
        self.command_callbacks.wf() && self.node_callbacks.wf() && self.revert_callbacks.wf()
    }

    /// An empty registry.
    pub fn new() -> (r: LoaderCallbacks)
        ensures
            r.wf(),
            r.command_callbacks.as_map() == Map::<u64, u64>::empty(),
            r.node_callbacks.as_map() == Map::<u64, u64>::empty(),
            r.revert_callbacks.as_map() == Map::<u64, u64>::empty(),
    {
        LoaderCallbacks {
            command_callbacks: CallbackTable::new(),
            node_callbacks: CallbackTable::new(),
            revert_callbacks: CallbackTable::new(),
        }
    }

    /// Registers a command loadable; reports a duplicate registration so the
    /// caller can warn. The newest registration wins.
    pub fn register_command(&mut self, id: u64, token: u64) -> (dup: bool)
        requires
            old(self).wf(),
        ensures
            final(self).wf(),
            final(self).command_callbacks.as_map() == old(self).command_callbacks.as_map().insert(
                id,
                token,
            ),
            final(self).node_callbacks == old(self).node_callbacks,
            final(self).revert_callbacks == old(self).revert_callbacks,
            dup == old(self).command_callbacks.as_map().contains_key(id),
    {
        self.command_callbacks.register(id, token)
    }

    /// Registers a node loadable with its applier and reverter; reports a
    /// duplicate registration so the caller can warn. The newest
    /// registration wins.
    pub fn register_node(&mut self, id: u64, callback: u64, reverter: u64) -> (dup: bool)
        requires
            old(self).wf(),
        ensures
            final(self).wf(),
            final(self).node_callbacks.as_map() == old(self).node_callbacks.as_map().insert(
                id,
                callback,
            ),
            final(self).revert_callbacks.as_map() == old(self).revert_callbacks.as_map().insert(
                id,
                reverter,
            ),
            final(self).command_callbacks == old(self).command_callbacks,
            dup == old(self).node_callbacks.as_map().contains_key(id),
    {
        let dup = self.node_callbacks.register(id, callback);
        let _ = self.revert_callbacks.register(id, reverter);
        dup
    }

    /// The applier of a command loadable.
    pub fn get_for_command(&self, id: u64) -> (r: Option<u64>)
        requires
            self.wf(),
        ensures
            r matches Some(t) ==> self.command_callbacks.as_map().contains_key(id) && t
                == self.command_callbacks.as_map()[id],
            r is None ==> !self.command_callbacks.as_map().contains_key(id),
    {
        self.command_callbacks.get(id)
    }

    /// The applier of a node loadable.
    pub fn get_for_node(&self, id: u64) -> (r: Option<u64>)
        requires
            self.wf(),
        ensures
            r matches Some(t) ==> self.node_callbacks.as_map().contains_key(id) && t
                == self.node_callbacks.as_map()[id],
            r is None ==> !self.node_callbacks.as_map().contains_key(id),
    {
        self.node_callbacks.get(id)
    }

    /// The reverter of a node loadable.
    pub fn get_for_revert(&self, id: u64) -> (r: Option<u64>)
        requires
            self.wf(),
        ensures
            r matches Some(t) ==> self.revert_callbacks.as_map().contains_key(id) && t
                == self.revert_callbacks.as_map()[id],
            r is None ==> !self.revert_callbacks.as_map().contains_key(id),
    {
        self.revert_callbacks.get(id)
    }
}

} // verus!
