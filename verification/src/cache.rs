//! The change-tracking cache: which live targets are bound to which scene
//! references, and which loadable values each one currently has applied.
//!
//! On every reload the cache diffs the newly declared loadables against a
//! target's applied set and hands back the actions to perform — apply what
//! is new, re-apply what changed, revert what disappeared — while updating
//! the applied set in the same step, so the record never drifts from the
//! actions handed out. After a reload the applied set equals exactly the
//! declared set.

use vstd::prelude::*;
use crate::constants::bytes_eq;
use crate::fill::clone_bytes;

verus! {

/// A `(file path, node path)` key identifying one location in the assembled
/// document.
#[derive(Debug)]
pub struct SceneRef {
    /// The file the node lives in.
    pub file: Vec<u8>,
    /// The node path inside that file.
    pub path: Vec<u8>,
}

/// What kind of work a load action asks for.
#[derive(Debug, Clone, Copy, PartialEq, Eq, Structural)]
pub enum ActionKind {
    /// Decode the value and apply it to the target.
    Apply,
    /// The value changed: re-apply it over the previous one.
    Update,
    /// The loadable is no longer declared: revert it from the target.
    Revert,
}

/// One action a reload asks the embedding application to perform.
#[derive(Debug)]
pub enum LoadAction {
    /// A newly declared loadable: decode `value` and apply it.
    Apply {
        /// The loadable's identity.
        loadable: u64,
        /// The declared value's canonical serialization.
        value: Vec<u8>,
    },
    /// A loadable declared before and now, with a different value.
    Update {
        /// The loadable's identity.
        loadable: u64,
        /// The declared value's canonical serialization.
        value: Vec<u8>,
    },
    /// A loadable no longer declared.
    Revert {
        /// The loadable's identity.
        loadable: u64,
    },
}

/// The view of one action: its kind, its loadable, and its value bytes
/// (empty for a revert).
pub open spec fn action_view(a: LoadAction) -> (ActionKind, u64, Seq<u8>) {
    match a {
        LoadAction::Apply { loadable, value } => (ActionKind::Apply, loadable, value@),
        LoadAction::Update { loadable, value } => (ActionKind::Update, loadable, value@),
        LoadAction::Revert { loadable } => (ActionKind::Revert, loadable, Seq::empty()),
    }
}

/// The view of an action list.
pub open spec fn actions_view(s: Seq<LoadAction>) -> Seq<(ActionKind, u64, Seq<u8>)> {
    Seq::new(s.len(), |i: int| action_view(s[i]))
}

/// The view of one more action is one more viewed action.
pub proof fn lemma_actions_view_push(s: Seq<LoadAction>, a: LoadAction)
    ensures
        actions_view(s.push(a)) == actions_view(s).push(action_view(a)),
{
    assert(actions_view(s.push(a)) =~= actions_view(s).push(action_view(a)));
}

/// The view of `(identity, value)` pairs.
pub open spec fn vals_view(s: Seq<(u64, Vec<u8>)>) -> Seq<(u64, Seq<u8>)> {
    Seq::new(s.len(), |i: int| (s[i].0, s[i].1@))
}

/// The mathematical map a list of `(identity, value)` pairs denotes.
pub open spec fn val_map_of(entries: Seq<(u64, Vec<u8>)>) -> Map<u64, Seq<u8>>
    decreases entries.len(),
{
    if entries.len() == 0 {
        Map::empty()
    } else {
        val_map_of(entries.drop_last()).insert(entries.last().0, entries.last().1@)
    }
}

/// True when no identity occurs twice.
pub open spec fn unique_val_ids(entries: Seq<(u64, Vec<u8>)>) -> bool {
    forall|i: int, j: int|
        0 <= i < j < entries.len() ==> (#[trigger] entries[i].0) != (#[trigger] entries[j].0)
}

/// An identity is in the denoted map exactly when some pair carries it.
pub proof fn lemma_val_map_contains(entries: Seq<(u64, Vec<u8>)>, key: u64)
    ensures
        val_map_of(entries).contains_key(key) <==> exists|i: int|
            0 <= i < entries.len() && (#[trigger] entries[i].0) == key,
    decreases entries.len(),
{
    if entries.len() > 0 {
        lemma_val_map_contains(entries.drop_last(), key);
        if entries.last().0 == key {
            assert(entries[entries.len() - 1].0 == key);
        } else if val_map_of(entries).contains_key(key) {
            let i = choose|i: int|
                0 <= i < entries.drop_last().len() && (#[trigger] entries.drop_last()[i].0) == key;
            assert(entries[i].0 == key);
        } else {
            assert forall|i: int|
                0 <= i < entries.len() && (#[trigger] entries[i].0) == key implies false by {
                if i < entries.len() - 1 {
                    assert(entries.drop_last()[i].0 == key);
                }
            }
        }
    }
}

/// Under unique identities, the denoted map sends each pair's identity to
/// its value's bytes.
pub proof fn lemma_val_map_get(entries: Seq<(u64, Vec<u8>)>, j: int)
    requires
        unique_val_ids(entries),
        0 <= j < entries.len(),
    ensures
        val_map_of(entries).contains_key(entries[j].0),
        val_map_of(entries)[entries[j].0] == entries[j].1@,
    decreases entries.len(),
{
    if j + 1 == entries.len() {
    } else {
        assert(entries.drop_last()[j] == entries[j]);
        lemma_val_map_get(entries.drop_last(), j);
        assert(entries[j].0 != entries.last().0);
    }
}

/// The apply and update actions a reload produces, in declaration order.
pub open spec fn spec_apply_actions(
    applied: Map<u64, Seq<u8>>,
    declared: Seq<(u64, Vec<u8>)>,
) -> Seq<(ActionKind, u64, Seq<u8>)>
    decreases declared.len(),
{
    if declared.len() == 0 {
        Seq::empty()
    } else {
        let rest = spec_apply_actions(applied, declared.drop_last());
        let id = declared.last().0;
        let v = declared.last().1@;
        if !applied.contains_key(id) {
            rest.push((ActionKind::Apply, id, v))
        } else if applied[id] != v {
            rest.push((ActionKind::Update, id, v))
        } else {
            rest
        }
    }
}

/// The revert actions a reload produces: one for each previously applied
/// loadable that is no longer declared, in applied order.
pub open spec fn spec_revert_actions(
    applied: Seq<(u64, Vec<u8>)>,
    declared: Map<u64, Seq<u8>>,
) -> Seq<(ActionKind, u64, Seq<u8>)>
    decreases applied.len(),
{
    if applied.len() == 0 {
        Seq::empty()
    } else {
        let rest = spec_revert_actions(applied.drop_last(), declared);
        if !declared.contains_key(applied.last().0) {
            rest.push((ActionKind::Revert, applied.last().0, Seq::empty()))
        } else {
            rest
        }
    }
}

/// One tracked target: where it loads from and what it has applied.
#[derive(Debug)]
pub struct TrackedTarget {
    /// The live object's identity.
    pub target: u64,
    /// The scene reference it is bound to.
    pub scene: SceneRef,
    /// The applied loadables: identity and the applied value's bytes.
    pub applied: Vec<(u64, Vec<u8>)>,
}

/// Tracks which targets are bound to which scene references and what each
/// one has applied.
#[derive(Debug)]
pub struct CobwebAssetCache {
    /// The tracked targets.
    pub targets: Vec<TrackedTarget>,
}

impl CobwebAssetCache {
    /// The cache's invariant: target identities unique, applied identities
    /// unique per target.
    pub open spec fn wf(&self) -> bool {
        &&& forall|i: int, j: int|
            0 <= i < j < self.targets@.len() ==> (#[trigger] self.targets@[i].target) != (
            #[trigger] self.targets@[j].target)
        &&& forall|i: int|
            0 <= i < self.targets@.len() ==> unique_val_ids(
                (#[trigger] self.targets@[i]).applied@,
            )
    }

    /// True when `target` is tracked.
    pub open spec fn spec_tracked(&self, target: u64) -> bool {
        exists|i: int| 0 <= i < self.targets@.len() && (#[trigger] self.targets@[i].target) == target
    }

    /// An empty cache.
    pub fn new() -> (r: CobwebAssetCache)
        ensures
            r.wf(),
            r.targets@ == Seq::<TrackedTarget>::empty(),
    {
        CobwebAssetCache { targets: Vec::new() }
    }

    /// Finds the position of a tracked target.
    fn find_target(&self, target: u64) -> (r: Option<usize>)
        ensures
            r matches Some(i) ==> i < self.targets@.len() && self.targets@[i as int].target
                == target,
            r is None ==> !self.spec_tracked(target),
    {
        let mut i: usize = 0;
        while i < self.targets.len()
            invariant
                i <= self.targets@.len(),
                forall|j: int| 0 <= j < i ==> (#[trigger] self.targets@[j].target) != target,
            decreases self.targets@.len() - i,
        {
            if self.targets[i].target == target {
                return Some(i);
            }
            i = i + 1;
        }
        None
    }

    /// Binds `target` to `scene`. A target bound before keeps its applied
    /// set and merely moves to the new reference; a new target starts with
    /// nothing applied.
    pub fn track_entity(&mut self, target: u64, scene: SceneRef)
        requires
            old(self).wf(),
        ensures
            final(self).wf(),
            final(self).spec_tracked(target),
            !old(self).spec_tracked(target) ==> {
                &&& final(self).targets@.len() == old(self).targets@.len() + 1
                &&& final(self).targets@.drop_last() == old(self).targets@
                &&& final(self).targets@.last().target == target
                &&& final(self).targets@.last().scene == scene
                &&& final(self).targets@.last().applied@ == Seq::<(u64, Vec<u8>)>::empty()
            },
            old(self).spec_tracked(target) ==> {
                &&& final(self).targets@.len() == old(self).targets@.len()
                &&& forall|i: int|
                    0 <= i < old(self).targets@.len() && (#[trigger] old(self).targets@[i].target)
                        != target ==> final(self).targets@[i] == old(self).targets@[i]
                &&& forall|i: int|
                    0 <= i < old(self).targets@.len() && (#[trigger] old(self).targets@[i].target)
                        == target ==> (final(self).targets@[i].target == target
                        && final(self).targets@[i].scene == scene
                        && final(self).targets@[i].applied == old(self).targets@[i].applied)
            },
    {
        match self.find_target(target) {
            Some(i) => {
                let removed = self.targets.remove(i);
                self.targets.insert(
                    i,
                    TrackedTarget { target, scene, applied: removed.applied },
                );
                proof {
                    assert(self.targets@ =~= old(self).targets@.update(
                        i as int,
                        self.targets@[i as int],
                    ));
                    assert forall|j: int|
                        0 <= j < old(self).targets@.len() && (#[trigger] old(
                            self,
                        ).targets@[j].target) == target implies (self.targets@[j].target == target
                        && self.targets@[j].scene == scene && self.targets@[j].applied == old(
                        self,
                    ).targets@[j].applied) by {
                        if j != i as int {
                            assert(old(self).targets@[j].target == old(
                                self,
                            ).targets@[i as int].target);
                        }
                    }
                }
            },
            None => {
                self.targets.push(TrackedTarget { target, scene, applied: Vec::new() });
                proof {
                    assert(self.targets@.drop_last() =~= old(self).targets@);
                    assert(self.targets@[self.targets@.len() - 1].target == target);
                }
            },
        }
    }

    /// Diffs the declared loadables against the target's applied set.
    ///
    /// Returns the actions to perform — apply what is newly declared,
    /// re-apply what changed, revert what disappeared — and records the
    /// declared set as the target's applied set in the same step, so that
    /// after the reload the applied set equals exactly what the document
    /// declares. A target that is not tracked gets no actions and no record.
    pub fn reload_target(&mut self, target: u64, declared: &Vec<(u64, Vec<u8>)>) -> (actions: Vec<
        LoadAction,
    >)
        requires
            old(self).wf(),
            unique_val_ids(declared@),
        ensures
            final(self).wf(),
            !old(self).spec_tracked(target) ==> final(self).targets@ == old(self).targets@
                && actions@.len() == 0,
            old(self).spec_tracked(target) ==> {
                &&& final(self).targets@.len() == old(self).targets@.len()
                &&& forall|i: int|
                    0 <= i < old(self).targets@.len() && (#[trigger] old(self).targets@[i].target)
                        != target ==> final(self).targets@[i] == old(self).targets@[i]
                &&& exists|i: int|
                    {
                        &&& 0 <= i < old(self).targets@.len()
                        &&& (#[trigger] old(self).targets@[i].target) == target
                        &&& final(self).targets@[i].target == target
                        &&& final(self).targets@[i].scene == old(self).targets@[i].scene
                        &&& vals_view(final(self).targets@[i].applied@) == vals_view(declared@)
                        &&& actions_view(actions@) == spec_apply_actions(
                            val_map_of(old(self).targets@[i].applied@),
                            declared@,
                        ) + spec_revert_actions(
                            old(self).targets@[i].applied@,
                            val_map_of(declared@),
                        )
                    }
            },
    {
        let Some(idx) = self.find_target(target) else {
            return Vec::new();
        };
        let ghost old_applied = self.targets@[idx as int].applied@;
        let ghost old_map = val_map_of(old_applied);
        let ghost dec_map = val_map_of(declared@);
        let mut actions: Vec<LoadAction> = Vec::new();
        // Apply what is newly declared, re-apply what changed.
        let mut j: usize = 0;
        proof {
            assert(declared@.take(0) =~= Seq::<(u64, Vec<u8>)>::empty());
            assert(actions_view(actions@) =~= spec_apply_actions(old_map, declared@.take(0)));
        }
        while j < declared.len()
            invariant
                j <= declared@.len(),
                idx < self.targets@.len(),
                self.targets@ == old(self).targets@,
                old_applied == self.targets@[idx as int].applied@,
                old_map == val_map_of(old_applied),
                unique_val_ids(old_applied),
                actions_view(actions@) == spec_apply_actions(old_map, declared@.take(j as int)),
            decreases declared@.len() - j,
        {
            proof {
                assert(declared@.take(j + 1).drop_last() =~= declared@.take(j as int));
                assert(declared@.take(j + 1).last() == declared@[j as int]);
            }
            let id = declared[j].0;
            match lookup_val(&self.targets[idx].applied, id) {
                None => {
                    let value = clone_bytes(&declared[j].1);
                    actions.push(LoadAction::Apply { loadable: id, value });
                    proof {
                        assert(actions_view(actions@) =~= spec_apply_actions(
                            old_map,
                            declared@.take(j + 1),
                        ));
                    }
                },
                Some(v) => {
                    if !bytes_eq(v, &declared[j].1) {
                        let value = clone_bytes(&declared[j].1);
                        actions.push(LoadAction::Update { loadable: id, value });
                        proof {
                            assert(actions_view(actions@) =~= spec_apply_actions(
                                old_map,
                                declared@.take(j + 1),
                            ));
                        }
                    }
                },
            }
            j = j + 1;
        }
        proof {
            assert(declared@.take(declared@.len() as int) =~= declared@);
        }
        // Revert what disappeared.
        let ghost apply_part = actions_view(actions@);
        let applied_len = self.targets[idx].applied.len();
        let mut k: usize = 0;
        proof {
            assert(old_applied.take(0) =~= Seq::<(u64, Vec<u8>)>::empty());
            assert(apply_part + spec_revert_actions(old_applied.take(0), dec_map) =~= apply_part);
        }
        while k < applied_len
            invariant
                k <= old_applied.len(),
                applied_len == old_applied.len(),
                idx < self.targets@.len(),
                self.targets@ == old(self).targets@,
                old_applied == self.targets@[idx as int].applied@,
                dec_map == val_map_of(declared@),
                unique_val_ids(declared@),
                actions_view(actions@) == apply_part + spec_revert_actions(
                    old_applied.take(k as int),
                    dec_map,
                ),
            decreases applied_len - k,
        {
            proof {
                assert(old_applied.take(k + 1).drop_last() =~= old_applied.take(k as int));
                assert(old_applied.take(k + 1).last() == old_applied[k as int]);
            }
            let id = self.targets[idx].applied[k].0;
            if !contains_id(declared, id) {
                let ghost pre_actions = actions@;
                actions.push(LoadAction::Revert { loadable: id });
                proof {
                    lemma_actions_view_push(pre_actions, LoadAction::Revert { loadable: id });
                    assert(spec_revert_actions(old_applied.take(k + 1), dec_map)
                        =~= spec_revert_actions(old_applied.take(k as int), dec_map).push(
                        (ActionKind::Revert, id, Seq::<u8>::empty()),
                    ));
                    assert(actions_view(actions@) =~= apply_part + spec_revert_actions(
                        old_applied.take(k + 1),
                        dec_map,
                    ));
                }
            } else {
                proof {
                    assert(spec_revert_actions(old_applied.take(k + 1), dec_map)
                        == spec_revert_actions(old_applied.take(k as int), dec_map));
                }
            }
            k = k + 1;
        }
        proof {
            assert(old_applied.take(old_applied.len() as int) =~= old_applied);
        }
        // Record the declared set as the applied set, in the same step.
        let new_applied = clone_pairs(declared);
        let removed = self.targets.remove(idx);
        self.targets.insert(
            idx,
            TrackedTarget { target: removed.target, scene: removed.scene, applied: new_applied },
        );
        proof {
            assert(self.targets@ =~= old(self).targets@.update(
                idx as int,
                self.targets@[idx as int],
            ));
        }
        actions
    }

    /// Unbinds a target: returns a revert action for everything it had
    /// applied and forgets the target entirely.
    pub fn unbind(&mut self, target: u64) -> (actions: Vec<LoadAction>)
        requires
            old(self).wf(),
        ensures
            final(self).wf(),
            !old(self).spec_tracked(target) ==> final(self).targets@ == old(self).targets@
                && actions@.len() == 0,
            old(self).spec_tracked(target) ==> exists|i: int|
                {
                    &&& 0 <= i < old(self).targets@.len()
                    &&& (#[trigger] old(self).targets@[i].target) == target
                    &&& final(self).targets@ == old(self).targets@.remove(i)
                    &&& actions_view(actions@) == spec_revert_actions(
                        old(self).targets@[i].applied@,
                        Map::<u64, Seq<u8>>::empty(),
                    )
                },
    {
        let Some(idx) = self.find_target(target) else {
            return Vec::new();
        };
        let removed = self.targets.remove(idx);
        let mut actions: Vec<LoadAction> = Vec::new();
        let mut k: usize = 0;
        proof {
            assert(removed.applied@.take(0) =~= Seq::<(u64, Vec<u8>)>::empty());
            assert(actions_view(actions@) =~= spec_revert_actions(
                removed.applied@.take(0),
                Map::<u64, Seq<u8>>::empty(),
            ));
        }
        while k < removed.applied.len()
            invariant
                k <= removed.applied@.len(),
                actions_view(actions@) == spec_revert_actions(
                    removed.applied@.take(k as int),
                    Map::<u64, Seq<u8>>::empty(),
                ),
            decreases removed.applied@.len() - k,
        {
            proof {
                assert(removed.applied@.take(k + 1).drop_last() =~= removed.applied@.take(
                    k as int,
                ));
                assert(removed.applied@.take(k + 1).last() == removed.applied@[k as int]);
            }
            actions.push(LoadAction::Revert { loadable: removed.applied[k].0 });
            proof {
                assert(actions_view(actions@) =~= spec_revert_actions(
                    removed.applied@.take(k + 1),
                    Map::<u64, Seq<u8>>::empty(),
                ));
            }
            k = k + 1;
        }
        proof {
            assert(removed.applied@.take(removed.applied@.len() as int) =~= removed.applied@);
        }
        actions
    }
}

/// Law: after a reload the applied set names exactly the declared loadable
/// identities — everything declared is applied, nothing else remains.
pub proof fn lemma_reload_applied_matches_declared(
    applied: Seq<(u64, Vec<u8>)>,
    declared: Seq<(u64, Vec<u8>)>,
)
    requires
        vals_view(applied) == vals_view(declared),
    ensures
        applied.len() == declared.len(),
        forall|i: int| 0 <= i < applied.len() ==> (#[trigger] applied[i]).0 == declared[i].0,
        forall|i: int| 0 <= i < applied.len() ==> (#[trigger] applied[i]).1@ == declared[i].1@,
{
    assert(vals_view(applied).len() == applied.len());
    assert(vals_view(declared).len() == declared.len());
    assert forall|i: int|
        0 <= i < applied.len() implies (#[trigger] applied[i]).0 == declared[i].0 && applied[i].1@
        == declared[i].1@ by {
        assert(vals_view(applied)[i] == vals_view(declared)[i]);
    }
}

/// Law: unbinding reverts everything that was applied — one revert action
/// for each applied loadable, in order, and nothing else.
pub proof fn lemma_unbind_reverts_all(applied: Seq<(u64, Vec<u8>)>)
    ensures
        spec_revert_actions(applied, Map::<u64, Seq<u8>>::empty()).len() == applied.len(),
        forall|i: int|
            0 <= i < applied.len() ==> spec_revert_actions(applied, Map::<u64, Seq<u8>>::empty())[i]
                == (ActionKind::Revert, (#[trigger] applied[i]).0, Seq::<u8>::empty()),
    decreases applied.len(),
{
    if applied.len() > 0 {
        lemma_unbind_reverts_all(applied.drop_last());
        assert(!Map::<u64, Seq<u8>>::empty().contains_key(applied.last().0));
        assert forall|i: int|
            0 <= i < applied.len() implies spec_revert_actions(
            applied,
            Map::<u64, Seq<u8>>::empty(),
        )[i] == (ActionKind::Revert, (#[trigger] applied[i]).0, Seq::<u8>::empty()) by {
            if i < applied.len() - 1 {
                assert(applied.drop_last()[i] == applied[i]);
            }
        }
    }
}

/// Looks an identity up among `(identity, value)` pairs.
fn lookup_val<'a>(applied: &'a Vec<(u64, Vec<u8>)>, id: u64) -> (r: Option<&'a Vec<u8>>)
    requires
        unique_val_ids(applied@),
    ensures
        r matches Some(v) ==> val_map_of(applied@).contains_key(id) && v@ == val_map_of(applied@)[id],
        r is None ==> !val_map_of(applied@).contains_key(id),
{
    let mut i: usize = 0;
    while i < applied.len()
        invariant
            i <= applied@.len(),
            unique_val_ids(applied@),
            forall|j: int| 0 <= j < i ==> (#[trigger] applied@[j].0) != id,
        decreases applied@.len() - i,
    {
        if applied[i].0 == id {
            proof {
                lemma_val_map_get(applied@, i as int);
            }
            return Some(&applied[i].1);
        }
        i = i + 1;
    }
    proof {
        lemma_val_map_contains(applied@, id);
    }
    None
}

/// Reports whether an identity occurs among `(identity, value)` pairs.
fn contains_id(declared: &Vec<(u64, Vec<u8>)>, id: u64) -> (r: bool)
    ensures
        r == val_map_of(declared@).contains_key(id),
{
    let mut i: usize = 0;
    while i < declared.len()
        invariant
            i <= declared@.len(),
            forall|j: int| 0 <= j < i ==> (#[trigger] declared@[j].0) != id,
        decreases declared@.len() - i,
    {
        if declared[i].0 == id {
            proof {
                lemma_val_map_contains(declared@, id);
            }
            return true;
        }
        i = i + 1;
    }
    proof {
        lemma_val_map_contains(declared@, id);
    }
    false
}

/// Copies `(identity, value)` pairs.
fn clone_pairs(src: &Vec<(u64, Vec<u8>)>) -> (r: Vec<(u64, Vec<u8>)>)
    ensures
        vals_view(r@) == vals_view(src@),
        r@.len() == src@.len(),
        unique_val_ids(src@) ==> unique_val_ids(r@),
{
    let mut out: Vec<(u64, Vec<u8>)> = Vec::new();
    let mut i: usize = 0;
    while i < src.len()
        invariant
            i <= src@.len(),
            out@.len() == i,
            vals_view(out@) == vals_view(src@).take(i as int),
        decreases src@.len() - i,
    {
        let value = clone_bytes(&src[i].1);
        out.push((src[i].0, value));
        i = i + 1;
        proof {
            assert(vals_view(out@) =~= vals_view(src@).take(i as int));
        }
    }
    proof {
        assert(vals_view(src@).take(src@.len() as int) =~= vals_view(src@));
        assert forall|i0: int, j0: int|
            0 <= i0 < j0 < out@.len() && unique_val_ids(src@) implies (#[trigger] out@[i0].0) != (
        #[trigger] out@[j0].0) by {
            assert(vals_view(out@)[i0] == vals_view(src@)[i0]);
            assert(vals_view(out@)[j0] == vals_view(src@)[j0]);
        }
    }
    out
}

} // verus!
