//! Scoped constant resolution across an import graph.
//!
//! Each file's constants freeze into an immutable map held in an arena;
//! buffers stack `(prefix, map index)` pairs so that importing a file shares
//! its maps instead of copying them. Map identity is the arena index, which
//! is what the diamond-import deduplication compares.

use vstd::prelude::*;
use smallvec::SmallVec;
use crate::value::CafValue;
use crate::fill::clone_bytes;
use crate::num::copy_range;

verus! {

/// ASCII code of `:`; the separator between an alias and a name is two of
/// these.
pub const CH_COLON: u8 = 58;

/// The stack of `(prefix, arena index)` pairs of one buffer.
///
/// The entries live in a `smallvec::SmallVec` so that the common case of a
/// handful of imports stays free of heap allocation; Verus sees the stack
/// only through [`stack_entries`] and the wrappers below.
#[verifier::external_body]
pub struct ConstStack {
    inner: SmallVec<[(Vec<u8>, usize); 5]>,
}

/// What a constant stack holds, in order from oldest to newest.
pub uninterp spec fn stack_entries(v: ConstStack) -> Seq<(Vec<u8>, usize)>;

/// Relies on smallvec::SmallVec::new: a freshly built vector is empty.
#[verifier::external_body]
fn stack_new() -> (r: ConstStack)
    ensures
        stack_entries(r) == Seq::<(Vec<u8>, usize)>::empty(),
{
    ConstStack { inner: SmallVec::new() }
}

/// Relies on smallvec::SmallVec::len: the number of stored items.
#[verifier::external_body]
fn stack_len(v: &ConstStack) -> (r: usize)
    ensures
        r == stack_entries(*v).len(),
{
    v.inner.len()
}

/// Relies on smallvec::SmallVec::push: appends one item at the end.
#[verifier::external_body]
fn stack_push(v: &mut ConstStack, prefix: Vec<u8>, index: usize)
    ensures
        stack_entries(*final(v)) == stack_entries(*old(v)).push((prefix, index)),
{
    v.inner.push((prefix, index));
}

/// Relies on smallvec's Index impl, which exposes the items as a slice.
#[verifier::external_body]
fn stack_get<'a>(v: &'a ConstStack, i: usize) -> (r: &'a (Vec<u8>, usize))
    requires
        i < stack_entries(*v).len(),
    ensures
        *r == stack_entries(*v)[i as int],
{
    &v.inner[i]
}

/// The view of stacked pairs: each prefix as its byte sequence.
pub open spec fn pairs_view(s: Seq<(Vec<u8>, usize)>) -> Seq<(Seq<u8>, int)> {
    Seq::new(s.len(), |i: int| (s[i].0@, s[i].1 as int))
}

/// Compares two byte vectors.
pub fn bytes_eq(a: &Vec<u8>, b: &Vec<u8>) -> (r: bool)
    ensures
        r == (a@ == b@),
{
    if a.len() != b.len() {
        return false;
    }
    let mut i: usize = 0;
    while i < a.len()
        invariant
            i <= a@.len(),
            a@.len() == b@.len(),
            forall|j: int| 0 <= j < i ==> a@[j] == b@[j],
        decreases a@.len() - i,
    {
        if a[i] != b[i] {
            return false;
        }
        i = i + 1;
    }
    proof {
        assert(a@ =~= b@);
    }
    true
}

/// True when `p` starts with `prefix`.
pub open spec fn spec_starts_with(p: Seq<u8>, prefix: Seq<u8>) -> bool {
    p.len() >= prefix.len() && p.subrange(0, prefix.len() as int) == prefix
}

/// Reports whether `p` starts with `prefix`.
pub fn starts_with(p: &Vec<u8>, prefix: &Vec<u8>) -> (r: bool)
    ensures
        r == spec_starts_with(p@, prefix@),
{
    if p.len() < prefix.len() {
        return false;
    }
    let mut i: usize = 0;
    while i < prefix.len()
        invariant
            i <= prefix@.len() <= p@.len(),
            forall|j: int| 0 <= j < i ==> p@[j] == prefix@[j],
        decreases prefix@.len() - i,
    {
        if p[i] != prefix[i] {
            proof {
                assert(p@.subrange(0, prefix@.len() as int)[i as int] == p@[i as int]);
            }
            return false;
        }
        i = i + 1;
    }
    proof {
        assert(p@.subrange(0, prefix@.len() as int) =~= prefix@);
    }
    true
}

/// One file's frozen constants: names to values, keys unique.
#[derive(Debug)]
pub struct ConstantsMap {
    /// The `(name, value)` pairs.
    pub entries: Vec<(Vec<u8>, CafValue)>,
}

/// The mathematical map a list of pairs denotes; a later pair for the same
/// name wins.
pub open spec fn spec_map_of(entries: Seq<(Vec<u8>, CafValue)>) -> Map<Seq<u8>, CafValue>
    decreases entries.len(),
{
    if entries.len() == 0 {
        Map::empty()
    } else {
        spec_map_of(entries.drop_last()).insert(entries.last().0@, entries.last().1)
    }
}

/// True when no name occurs twice.
pub open spec fn unique_keys(entries: Seq<(Vec<u8>, CafValue)>) -> bool {
    forall|i: int, j: int|
        0 <= i < j < entries.len() ==> (#[trigger] entries[i].0@) != (#[trigger] entries[j].0@)
}

/// A name is in the denoted map exactly when some pair carries it.
pub proof fn lemma_map_of_contains(entries: Seq<(Vec<u8>, CafValue)>, key: Seq<u8>)
    ensures
        spec_map_of(entries).contains_key(key) <==> exists|i: int|
            0 <= i < entries.len() && (#[trigger] entries[i].0@) == key,
    decreases entries.len(),
{
    if entries.len() > 0 {
        lemma_map_of_contains(entries.drop_last(), key);
        if entries.last().0@ == key {
            assert(entries[entries.len() - 1].0@ == key);
        } else if spec_map_of(entries).contains_key(key) {
            let i = choose|i: int|
                0 <= i < entries.drop_last().len() && (#[trigger] entries.drop_last()[i].0@)
                    == key;
            assert(entries[i].0@ == key);
        } else {
            assert forall|i: int|
                0 <= i < entries.len() && (#[trigger] entries[i].0@) == key implies false by {
                if i < entries.len() - 1 {
                    assert(entries.drop_last()[i].0@ == key);
                }
            }
        }
    }
}

/// Under unique keys, the denoted map sends each pair's name to its value.
pub proof fn lemma_map_of_get(entries: Seq<(Vec<u8>, CafValue)>, j: int)
    requires
        unique_keys(entries),
        0 <= j < entries.len(),
    ensures
        spec_map_of(entries).contains_key(entries[j].0@),
        spec_map_of(entries)[entries[j].0@] == entries[j].1,
    decreases entries.len(),
{
    if j + 1 == entries.len() {
    } else {
        assert(entries.drop_last()[j] == entries[j]);
        lemma_map_of_get(entries.drop_last(), j);
        assert(entries[j].0@ != entries.last().0@);
    }
}

/// Replacing the value at one position updates the denoted map at that name.
pub proof fn lemma_map_of_update(entries: Seq<(Vec<u8>, CafValue)>, j: int, value: CafValue)
    requires
        unique_keys(entries),
        0 <= j < entries.len(),
    ensures
        spec_map_of(entries.update(j, (entries[j].0, value))) == spec_map_of(entries).insert(
            entries[j].0@,
            value,
        ),
    decreases entries.len(),
{
    let updated = entries.update(j, (entries[j].0, value));
    if j + 1 == entries.len() {
        assert(updated.drop_last() =~= entries.drop_last());
        assert(spec_map_of(updated) == spec_map_of(entries.drop_last()).insert(
            entries[j].0@,
            value,
        ));
        assert(spec_map_of(entries).insert(entries[j].0@, value) =~= spec_map_of(
            entries.drop_last(),
        ).insert(entries[j].0@, value));
    } else {
        assert(updated.drop_last() =~= entries.drop_last().update(j, (entries[j].0, value)));
        assert(entries.drop_last()[j] == entries[j]);
        lemma_map_of_update(entries.drop_last(), j, value);
        assert(entries[j].0@ != entries.last().0@);
        assert(spec_map_of(updated) =~= spec_map_of(entries).insert(entries[j].0@, value));
    }
}

impl ConstantsMap {
    /// The denoted mathematical map.
    pub open spec fn as_map(&self) -> Map<Seq<u8>, CafValue> {
        spec_map_of(self.entries@)
    }

    /// The type's invariant: no name occurs twice.
    pub open spec fn wf(&self) -> bool {
        unique_keys(self.entries@)
    }

    /// An empty map.
    pub fn new() -> (r: ConstantsMap)
        ensures
            r.entries@ == Seq::<(Vec<u8>, CafValue)>::empty(),
            r.wf(),
            r.as_map() == Map::<Seq<u8>, CafValue>::empty(),
    {
        ConstantsMap { entries: Vec::new() }
    }

    /// Binds `name` to `value`; a later write for the same name wins.
    pub fn insert(&mut self, name: Vec<u8>, value: CafValue)
        requires
            old(self).wf(),
        ensures
            final(self).wf(),
            final(self).as_map() == old(self).as_map().insert(name@, value),
    {
        let ghost entries0 = self.entries@;
        let mut k: usize = 0;
        while k < self.entries.len()
            invariant
                k <= entries0.len(),
                self.entries@ == entries0,
                old(self).entries@ == entries0,
                unique_keys(entries0),
                forall|j: int| 0 <= j < k ==> (#[trigger] entries0[j].0@) != name@,
            decreases entries0.len() - k,
        {
            if bytes_eq(&self.entries[k].0, &name) {
                let removed = self.entries.remove(k);
                self.entries.insert(k, (removed.0, value));
                proof {
                    assert(self.entries@ =~= entries0.update(k as int, (entries0[k as int].0, value)));
                    lemma_map_of_update(entries0, k as int, value);
                    assert(entries0[k as int].0@ == name@);
                }
                return ;
            }
            k = k + 1;
        }
        self.entries.push((name, value));
        proof {
            assert(self.entries@.drop_last() =~= entries0);
            assert(forall|j: int|
                0 <= j < entries0.len() ==> (#[trigger] entries0[j].0@) != name@);
        }
    }

    /// Looks a name up.
    pub fn get<'a>(&'a self, name: &Vec<u8>) -> (r: Option<&'a CafValue>)
        requires
            self.wf(),
        ensures
            r matches Some(v) ==> self.as_map().contains_key(name@) && *v == self.as_map()[name@],
            r is None ==> !self.as_map().contains_key(name@),
    {
        let ghost entries0 = self.entries@;
        let mut k: usize = 0;
        while k < self.entries.len()
            invariant
                k <= entries0.len(),
                self.entries@ == entries0,
                unique_keys(entries0),
                forall|j: int| 0 <= j < k ==> (#[trigger] entries0[j].0@) != name@,
            decreases entries0.len() - k,
        {
            if bytes_eq(&self.entries[k].0, &name) {
                proof {
                    lemma_map_of_get(entries0, k as int);
                }
                return Some(&self.entries[k].1);
            }
            k = k + 1;
        }
        proof {
            lemma_map_of_contains(entries0, name@);
        }
        None
    }
}

/// The arena of frozen per-file constant maps; a map's index is its
/// identity.
#[derive(Debug)]
pub struct ConstantsArena {
    /// The frozen maps, in freeze order.
    pub maps: Vec<ConstantsMap>,
}

impl ConstantsArena {
    /// The arena's invariant: every frozen map is well formed.
    pub open spec fn wf(&self) -> bool {
        forall|i: int| 0 <= i < self.maps@.len() ==> (#[trigger] self.maps@[i]).wf()
    }

    /// An empty arena.
    pub fn new() -> (r: ConstantsArena)
        ensures
            r.maps@ == Seq::<ConstantsMap>::empty(),
            r.wf(),
    {
        ConstantsArena { maps: Vec::new() }
    }

    /// The map frozen under `idx`.
    pub fn map_at<'a>(&'a self, idx: usize) -> (r: &'a ConstantsMap)
        requires
            idx < self.maps@.len(),
        ensures
            *r == self.maps@[idx as int],
    {
        &self.maps[idx]
    }
}

/// Joins the non-empty parts with the separator: `a::b::c`.
pub open spec fn spec_join_parts(sep: Seq<u8>, parts: Seq<Seq<u8>>) -> Seq<u8>
    decreases parts.len(),
{
    if parts.len() == 0 {
        Seq::empty()
    } else if parts[0].len() == 0 {
        spec_join_parts(sep, parts.skip(1))
    } else {
        let rest = spec_join_parts(sep, parts.skip(1));
        if rest.len() == 0 {
            parts[0]
        } else {
            parts[0] + sep + rest
        }
    }
}

/// How the join grows when one more part is added at the end.
pub proof fn lemma_join_snoc(sep: Seq<u8>, parts: Seq<Seq<u8>>, p: Seq<u8>)
    ensures
        spec_join_parts(sep, parts.push(p)) == (if p.len() == 0 {
            spec_join_parts(sep, parts)
        } else if spec_join_parts(sep, parts).len() == 0 {
            p
        } else {
            spec_join_parts(sep, parts) + sep + p
        }),
    decreases parts.len(),
{
    reveal_with_fuel(spec_join_parts, 3);
    if parts.len() == 0 {
        assert(parts.push(p)[0] == p);
        assert(parts.push(p).skip(1) =~= Seq::<Seq<u8>>::empty());
    } else {
        assert(parts.push(p)[0] == parts[0]);
        assert(parts.push(p).skip(1) =~= parts.skip(1).push(p));
        lemma_join_snoc(sep, parts.skip(1), p);
        if parts[0].len() > 0 && p.len() > 0 && spec_join_parts(sep, parts.skip(1)).len() > 0 {
            assert(parts[0] + sep + (spec_join_parts(sep, parts.skip(1)) + sep + p) =~= (parts[0]
                + sep + spec_join_parts(sep, parts.skip(1))) + sep + p);
        }
    }
}

/// The views of a list of byte vectors.
pub open spec fn parts_view(parts: Seq<Vec<u8>>) -> Seq<Seq<u8>> {
    Seq::new(parts.len(), |i: int| parts[i]@)
}

/// Appends the bytes of `src` to `dst`.
pub fn append_bytes(dst: &mut Vec<u8>, src: &Vec<u8>)
    ensures
        final(dst)@ == old(dst)@ + src@,
{
    let mut i: usize = 0;
    while i < src.len()
        invariant
            i <= src@.len(),
            dst@ == old(dst)@ + src@.subrange(0, i as int),
        decreases src@.len() - i,
    {
        dst.push(src[i]);
        i = i + 1;
        assert(dst@ =~= old(dst)@ + src@.subrange(0, i as int));
    }
    assert(dst@ =~= old(dst)@ + src@);
}

/// Concatenates the non-empty parts, separated: `a::b::c`.
pub fn path_to_string(separator: &Vec<u8>, parts: &Vec<Vec<u8>>) -> (r: Vec<u8>)
    ensures
        r@ == spec_join_parts(separator@, parts_view(parts@)),
{
    let ghost pv = parts_view(parts@);
    let mut out: Vec<u8> = Vec::new();
    let mut i: usize = 0;
    proof {
        assert(pv.take(0) =~= Seq::<Seq<u8>>::empty());
    }
    while i < parts.len()
        invariant
            i <= parts@.len(),
            pv == parts_view(parts@),
            out@ == spec_join_parts(separator@, pv.take(i as int)),
        decreases parts@.len() - i,
    {
        proof {
            assert(pv.take(i + 1) =~= pv.take(i as int).push(pv[i as int]));
            lemma_join_snoc(separator@, pv.take(i as int), pv[i as int]);
        }
        if parts[i].len() > 0 {
            if out.len() > 0 {
                append_bytes(&mut out, separator);
            }
            append_bytes(&mut out, &parts[i]);
        }
        i = i + 1;
    }
    proof {
        assert(pv.take(parts@.len() as int) =~= pv);
    }
    out
}

/// The prefix an imported entry gets under an alias.
pub open spec fn spec_join2(alias: Seq<u8>, prefix: Seq<u8>) -> Seq<u8> {
    if alias.len() == 0 {
        prefix
    } else if prefix.len() == 0 {
        alias
    } else {
        alias + seq![CH_COLON, CH_COLON] + prefix
    }
}

/// Joining exactly two parts is the aliased-prefix join.
pub proof fn lemma_join2_of_two(alias: Seq<u8>, prefix: Seq<u8>)
    ensures
        spec_join_parts(seq![CH_COLON, CH_COLON], seq![alias, prefix]) == spec_join2(
            alias,
            prefix,
        ),
{
    reveal_with_fuel(spec_join_parts, 4);
    let parts = seq![alias, prefix];
    assert(parts.skip(1) =~= seq![prefix]);
    assert(seq![prefix].skip(1) =~= Seq::<Seq<u8>>::empty());
    assert(parts[0] == alias);
    assert(seq![prefix][0] == prefix);
}

/// Under one alias, different entries get different prefixes.
pub proof fn lemma_join2_injective(alias: Seq<u8>, p1: Seq<u8>, p2: Seq<u8>)
    requires
        spec_join2(alias, p1) == spec_join2(alias, p2),
    ensures
        p1 == p2,
{
    if alias.len() > 0 && p1.len() > 0 && p2.len() > 0 {
        let j1 = alias + seq![CH_COLON, CH_COLON] + p1;
        let j2 = alias + seq![CH_COLON, CH_COLON] + p2;
        assert(j1 == j2);
        assert(j1.len() == alias.len() + 2 + p1.len());
        assert(j2.len() == alias.len() + 2 + p2.len());
        assert(p1.len() == p2.len());
        assert forall|i: int| 0 <= i < p1.len() implies p1[i] == p2[i] by {
            assert(j1[alias.len() + 2 + i] == p1[i]);
            assert(j2[alias.len() + 2 + i] == p2[i]);
        }
        assert(p1 =~= p2);
    }
}

/// The stack entries an `append` under `alias` adds: the entries of the
/// appended buffer, each prefix re-based under the alias.
pub open spec fn spec_appended(alias: Seq<u8>, ta: Seq<(Seq<u8>, int)>) -> Seq<(Seq<u8>, int)> {
    Seq::new(ta.len(), |i: int| (spec_join2(alias, ta[i].0), ta[i].1))
}

/// The stack entries an `append` keeps: those whose `(prefix, identity)`
/// pair is not among the entries about to be appended.
pub open spec fn spec_kept(st: Seq<(Seq<u8>, int)>, app: Seq<(Seq<u8>, int)>) -> Seq<
    (Seq<u8>, int),
>
    decreases st.len(),
{
    if st.len() == 0 {
        Seq::empty()
    } else {
        let rest = spec_kept(st.drop_last(), app);
        if app.contains(st.last()) {
            rest
        } else {
            rest.push(st.last())
        }
    }
}

/// True when no `(prefix, identity)` pair occurs twice.
pub open spec fn stack_unique(st: Seq<(Seq<u8>, int)>) -> bool {
    forall|i: int, j: int| 0 <= i < j < st.len() ==> st[i] != st[j]
}

/// What `spec_kept` keeps: entries of the original stack, none of them among
/// the appended entries, and no pair twice if the original had none twice.
pub proof fn lemma_kept_props(st: Seq<(Seq<u8>, int)>, app: Seq<(Seq<u8>, int)>)
    ensures
        forall|i: int|
            0 <= i < spec_kept(st, app).len() ==> st.contains(#[trigger] spec_kept(st, app)[i])
                && !app.contains(spec_kept(st, app)[i]),
        stack_unique(st) ==> stack_unique(spec_kept(st, app)),
    decreases st.len(),
{
    if st.len() > 0 {
        let rest = spec_kept(st.drop_last(), app);
        lemma_kept_props(st.drop_last(), app);
        assert forall|i: int| 0 <= i < rest.len() implies st.contains(#[trigger] rest[i]) by {
            let j = choose|j: int| 0 <= j < st.drop_last().len() && st.drop_last()[j] == rest[i];
            assert(st[j] == rest[i]);
        }
        if !app.contains(st.last()) {
            assert(st[st.len() - 1] == st.last());
            if stack_unique(st) {
                assert(stack_unique(st.drop_last()));
                assert forall|i: int, j: int|
                    0 <= i < j < spec_kept(st, app).len() implies spec_kept(st, app)[i]
                    != spec_kept(st, app)[j] by {
                    if j == spec_kept(st, app).len() - 1 {
                        let k = choose|k: int|
                            0 <= k < st.drop_last().len() && st.drop_last()[k] == rest[i];
                        assert(st[k] == rest[i]);
                        assert(st[k] != st.last());
                    }
                }
            }
        } else {
            if stack_unique(st) {
                assert(stack_unique(st.drop_last()));
            }
        }
    }
}

/// Law: after deduplicating appends, no `(prefix, identity)` pair occurs
/// twice — repeated diamond imports of one shared map do not pile up.
pub proof fn lemma_append_dedup(oldv: Seq<(Seq<u8>, int)>, alias: Seq<u8>, tav: Seq<
    (Seq<u8>, int),
>)
    requires
        stack_unique(oldv),
        stack_unique(tav),
    ensures
        stack_unique(spec_kept(oldv, spec_appended(alias, tav)) + spec_appended(alias, tav)),
{
    let app = spec_appended(alias, tav);
    let kept = spec_kept(oldv, app);
    assert forall|i: int, j: int| 0 <= i < j < app.len() implies app[i] != app[j] by {
        if app[i] == app[j] {
            lemma_join2_injective(alias, tav[i].0, tav[j].0);
            assert(tav[i] == tav[j]);
        }
    }
    lemma_kept_props(oldv, app);
    assert forall|i: int, j: int|
        0 <= i < j < (kept + app).len() implies (kept + app)[i] != (kept + app)[j] by {
        if i < kept.len() && j >= kept.len() {
            assert((kept + app)[i] == kept[i]);
            assert((kept + app)[j] == app[j - kept.len()]);
            assert(!app.contains(kept[i]));
            if kept[i] == app[j - kept.len()] {
                assert(app.contains(kept[i]));
            }
        }
    }
}

/// Where an alias path resolves inside one stack entry: the prefix is
/// stripped, then one optional `::` separator.
pub open spec fn spec_cleaned(path: Seq<u8>, prefix: Seq<u8>) -> Seq<u8> {
    let stripped = path.skip(prefix.len() as int);
    if stripped.len() >= 2 && stripped[0] == CH_COLON && stripped[1] == CH_COLON {
        stripped.skip(2)
    } else {
        stripped
    }
}

/// Resolves a path against stacked entries, newest first.
pub open spec fn spec_stack_lookup(
    st: Seq<(Seq<u8>, int)>,
    maps: Seq<ConstantsMap>,
    path: Seq<u8>,
) -> Option<CafValue>
    decreases st.len(),
{
    if st.len() == 0 {
        None
    } else {
        let prefix = st.last().0;
        let idx = st.last().1;
        if spec_starts_with(path, prefix) && 0 <= idx < maps.len() && spec_map_of(
            maps[idx].entries@,
        ).contains_key(spec_cleaned(path, prefix)) {
            Some(spec_map_of(maps[idx].entries@)[spec_cleaned(path, prefix)])
        } else {
            spec_stack_lookup(st.drop_last(), maps, path)
        }
    }
}

/// Records a stack of constant maps.
///
/// Used to merge constants cheaply when importing them into new files: an
/// import shares the exporting file's frozen maps by arena index instead of
/// copying their contents. The stack carries no `(prefix, map identity)`
/// pair twice ([`Self::stack_wf`]): a fresh buffer starts that way, and
/// every operation keeps it, with `end_new_file` relying on the buffer
/// referring into the arena it freezes into.
pub struct ConstantsBuffer {
    /// The visible imports: `(prefix, arena index)` pairs, oldest first.
    pub stack: ConstStack,
    /// The constants of the file currently being processed.
    pub new_file: ConstantsMap,
}

impl ConstantsBuffer {
    /// The stack's view: each prefix as bytes, each index as an integer.
    pub open spec fn sview(&self) -> Seq<(Seq<u8>, int)> {
        pairs_view(stack_entries(self.stack))
    }

    /// What a lookup of `path` resolves to: the current file's own
    /// declarations shadow all imports, and imports are searched newest
    /// first.
    pub open spec fn spec_get(&self, maps: Seq<ConstantsMap>, path: Seq<u8>) -> Option<CafValue> {
        if self.new_file.as_map().contains_key(path) {
            Some(self.new_file.as_map()[path])
        } else {
            spec_stack_lookup(self.sview(), maps, path)
        }
    }

    /// The buffer's invariant against the arena it refers into.
    pub open spec fn wf(&self, arena: &ConstantsArena) -> bool {
        &&& self.new_file.wf()
        &&& arena.wf()
        &&& self.indices_below(arena.maps@.len() as int)
    }

    /// Every stacked entry refers to a map below index `n`.
    pub open spec fn indices_below(&self, n: int) -> bool {
        forall|i: int|
            0 <= i < self.sview().len() ==> 0 <= (#[trigger] self.sview()[i]).1 < n
    }

    /// The stack invariant: no `(prefix, map identity)` pair occurs twice.
    pub open spec fn stack_wf(&self) -> bool {
        stack_unique(self.sview())
    }

    /// An empty buffer.
    pub fn new() -> (r: ConstantsBuffer)
        ensures
            r.sview() == Seq::<(Seq<u8>, int)>::empty(),
            r.stack_wf(),
            r.new_file.as_map() == Map::<Seq<u8>, CafValue>::empty(),
            r.new_file.wf(),
    {
        let r = ConstantsBuffer { stack: stack_new(), new_file: ConstantsMap::new() };
        proof {
            assert(r.sview() =~= Seq::<(Seq<u8>, int)>::empty());
        }
        r
    }

    /// Begins collecting a new file's own constants.
    pub fn start_new_file(&mut self)
        ensures
            final(self).sview() == old(self).sview(),
            final(self).new_file.as_map() == Map::<Seq<u8>, CafValue>::empty(),
            final(self).new_file.wf(),
    {
        self.new_file = ConstantsMap::new();
    }

    /// Freezes the collected file constants into the arena and pushes them
    /// onto the stack under the empty prefix; from here on files that import
    /// this one can see them.
    pub fn end_new_file(&mut self, arena: &mut ConstantsArena)
        ensures
            final(arena).maps@ == old(arena).maps@.push(old(self).new_file),
            final(self).sview() == old(self).sview().push(
                (Seq::<u8>::empty(), old(arena).maps@.len() as int),
            ),
            final(self).new_file.as_map() == Map::<Seq<u8>, CafValue>::empty(),
            final(self).new_file.wf(),
            (old(self).stack_wf() && old(self).indices_below(old(arena).maps@.len() as int))
                ==> final(self).stack_wf(),
            old(self).indices_below(old(arena).maps@.len() as int)
                ==> final(self).indices_below(final(arena).maps@.len() as int),
    {
        let mut frozen = ConstantsMap::new();
        core::mem::swap(&mut frozen, &mut self.new_file);
        let idx = arena.maps.len();
        arena.maps.push(frozen);
        let empty_prefix: Vec<u8> = Vec::new();
        stack_push(&mut self.stack, empty_prefix, idx);
        proof {
            assert(self.sview() =~= old(self).sview().push(
                (Seq::<u8>::empty(), old(arena).maps@.len() as int),
            ));
            let n = old(arena).maps@.len() as int;
            if old(self).indices_below(n) {
                assert forall|i: int|
                    0 <= i < self.sview().len() implies 0 <= (#[trigger] self.sview()[i]).1 < n
                    + 1 by {
                    if i < self.sview().len() - 1 {
                        assert(self.sview()[i] == old(self).sview()[i]);
                    }
                }
                if old(self).stack_wf() {
                    assert forall|i: int, j: int|
                        0 <= i < j < self.sview().len() implies self.sview()[i]
                        != self.sview()[j] by {
                        assert(self.sview()[i] == old(self).sview()[i]);
                        if j == self.sview().len() - 1 {
                            assert(old(self).sview()[i].1 < n);
                            assert(self.sview()[j].1 == n);
                        } else {
                            assert(self.sview()[j] == old(self).sview()[j]);
                        }
                    }
                }
            }
        }
    }

    /// Adds an entry to the new file being collected.
    pub fn insert(&mut self, name: Vec<u8>, value: CafValue)
        requires
            old(self).new_file.wf(),
        ensures
            final(self).sview() == old(self).sview(),
            final(self).new_file.as_map() == old(self).new_file.as_map().insert(name@, value),
            final(self).new_file.wf(),
    {
        self.new_file.insert(name, value);
    }

    /// Searches backward through the stack until a match is found; the
    /// current file's own declarations are checked first.
    pub fn get<'a>(&'a self, arena: &'a ConstantsArena, path: &Vec<u8>) -> (r: Option<
        &'a CafValue,
    >)
        requires
            self.wf(arena),
        ensures
            r matches Some(v) ==> self.spec_get(arena.maps@, path@) == Some(*v),
            r is None ==> self.spec_get(arena.maps@, path@) is None,
    {
        if let Some(v) = self.new_file.get(path) {
            return Some(v);
        }
        let ghost sv = self.sview();
        let ghost maps = arena.maps@;
        let mut j = stack_len(&self.stack);
        proof {
            assert(sv.take(sv.len() as int) =~= sv);
        }
        while j > 0
            invariant
                j <= sv.len(),
                sv == self.sview(),
                maps == arena.maps@,
                self.wf(arena),
                !self.new_file.as_map().contains_key(path@),
                spec_stack_lookup(sv, maps, path@) == spec_stack_lookup(
                    sv.take(j as int),
                    maps,
                    path@,
                ),
            ensures
                j == 0,
                spec_stack_lookup(sv, maps, path@) == spec_stack_lookup(
                    sv.take(j as int),
                    maps,
                    path@,
                ),
            decreases j,
        {
            j = j - 1;
            let entry = stack_get(&self.stack, j);
            proof {
                assert(sv[j as int] == (entry.0@, entry.1 as int));
                assert(sv.take(j + 1).last() == sv[j as int]);
                assert(sv.take(j + 1).drop_last() =~= sv.take(j as int));
            }
            if starts_with(path, &entry.0) {
                let plen = entry.0.len();
                let rem = path.len() - plen;
                let k: usize = if rem >= 2 && path[plen] == CH_COLON && path[plen + 1] == CH_COLON {
                    plen + 2
                } else {
                    plen
                };
                proof {
                    let stripped = path@.skip(plen as int);
                    if path@.len() >= plen + 2 {
                        assert(stripped[0] == path@[plen as int]);
                        assert(stripped[1] == path@[plen + 1]);
                    }
                    assert(path@.subrange(k as int, path@.len() as int) =~= spec_cleaned(
                        path@,
                        entry.0@,
                    ));
                }
                let cleaned = copy_range(path, k, path.len());
                let m = arena.map_at(entry.1);
                if let Some(v) = m.get(&cleaned) {
                    return Some(v);
                }
            }
        }
        proof {
            assert(sv.take(0) =~= Seq::<(Seq<u8>, int)>::empty());
        }
        None
    }

    /// The number of stacked import entries.
    pub fn import_count(&self) -> (r: usize)
        ensures
            r == self.sview().len(),
    {
        stack_len(&self.stack)
    }

    /// The stacked import entry at `i`: its prefix and its map identity.
    pub fn import_at(&self, i: usize) -> (r: (Vec<u8>, usize))
        requires
            i < self.sview().len(),
        ensures
            (r.0@, r.1 as int) == self.sview()[i as int],
    {
        let entry = stack_get(&self.stack, i);
        (clone_bytes(&entry.0), entry.1)
    }

    /// Merges another buffer's stack into this one under `alias`.
    ///
    /// Each incoming entry's prefix is re-based under the alias; an entry of
    /// this buffer carrying the same `(prefix, map identity)` pair as an
    /// incoming one is dropped first, so a shared import reached over two
    /// paths lands on the stack once.
    pub fn append(&mut self, alias: &Vec<u8>, to_append: &ConstantsBuffer)
        ensures
            final(self).sview() == spec_kept(
                old(self).sview(),
                spec_appended(alias@, to_append.sview()),
            ) + spec_appended(alias@, to_append.sview()),
            final(self).new_file == old(self).new_file,
            (old(self).stack_wf() && to_append.stack_wf()) ==> final(self).stack_wf(),
            forall|n: int|
                old(self).indices_below(n) && to_append.indices_below(n)
                    ==> #[trigger] final(self).indices_below(n),
    {
        let ghost app = spec_appended(alias@, to_append.sview());
        let ghost oldv = self.sview();
        let mut sep: Vec<u8> = Vec::new();
        sep.push(CH_COLON);
        sep.push(CH_COLON);
        // Re-base the incoming prefixes under the alias.
        let talen = stack_len(&to_append.stack);
        let mut joined: Vec<(Vec<u8>, usize)> = Vec::new();
        let mut i: usize = 0;
        proof {
            assert(pairs_view(joined@) =~= app.take(0));
        }
        while i < talen
            invariant
                i <= talen,
                talen == to_append.sview().len(),
                app == spec_appended(alias@, to_append.sview()),
                sep@ == seq![CH_COLON, CH_COLON],
                joined@.len() == i,
                pairs_view(joined@) == app.take(i as int),
            decreases talen - i,
        {
            let entry = stack_get(&to_append.stack, i);
            let mut parts: Vec<Vec<u8>> = Vec::new();
            parts.push(clone_bytes(alias));
            parts.push(clone_bytes(&entry.0));
            let new_prefix = path_to_string(&sep, &parts);
            proof {
                assert(parts_view(parts@) =~= seq![alias@, entry.0@]);
                lemma_join2_of_two(alias@, entry.0@);
                assert(new_prefix@ == spec_join2(alias@, entry.0@));
                assert(to_append.sview()[i as int] == (entry.0@, entry.1 as int));
            }
            let idx = entry.1;
            let ghost np = new_prefix@;
            joined.push((new_prefix, idx));
            proof {
                assert(joined@.len() == i + 1);
                assert(joined@[i as int] == (joined@[i as int].0, joined@[i as int].1));
                assert(joined@[i as int].0@ == np);
                assert(pairs_view(joined@)[i as int] == (np, idx as int));
                assert(app[i as int] == (spec_join2(alias@, to_append.sview()[i as int].0),
                    to_append.sview()[i as int].1));
                assert(pairs_view(joined@) =~= app.take(i + 1));
            }
            i = i + 1;
        }
        proof {
            assert(app.take(talen as int) =~= app);
        }
        // Keep only the current entries that the append does not duplicate.
        let mut new_stack = stack_new();
        let selflen = stack_len(&self.stack);
        let mut k: usize = 0;
        proof {
            assert(oldv.take(0) =~= Seq::<(Seq<u8>, int)>::empty());
            assert(pairs_view(stack_entries(new_stack)) =~= spec_kept(oldv.take(0), app));
        }
        while k < selflen
            invariant
                k <= selflen,
                selflen == oldv.len(),
                oldv == self.sview(),
                old(self).new_file == self.new_file,
                app == spec_appended(alias@, to_append.sview()),
                pairs_view(joined@) == app,
                pairs_view(stack_entries(new_stack)) == spec_kept(oldv.take(k as int), app),
            decreases selflen - k,
        {
            let entry = stack_get(&self.stack, k);
            proof {
                assert(oldv[k as int] == (entry.0@, entry.1 as int));
                assert(oldv.take(k + 1).last() == oldv[k as int]);
                assert(oldv.take(k + 1).drop_last() =~= oldv.take(k as int));
            }
            if !contains_pair(&joined, &entry.0, entry.1) {
                let kept_prefix = clone_bytes(&entry.0);
                stack_push(&mut new_stack, kept_prefix, entry.1);
                proof {
                    assert(pairs_view(stack_entries(new_stack)) =~= spec_kept(
                        oldv.take(k as int),
                        app,
                    ).push(oldv[k as int]));
                }
            }
            k = k + 1;
        }
        proof {
            assert(oldv.take(selflen as int) =~= oldv);
        }
        // Append the re-based entries.
        let mut jj: usize = 0;
        while jj < joined.len()
            invariant
                jj <= joined@.len(),
                old(self).new_file == self.new_file,
                app == spec_appended(alias@, to_append.sview()),
                pairs_view(joined@) == app,
                joined@.len() == app.len(),
                stack_entries(new_stack).len() == spec_kept(oldv, app).len() + jj,
                pairs_view(stack_entries(new_stack)) == spec_kept(oldv, app) + app.take(
                    jj as int,
                ),
            decreases joined@.len() - jj,
        {
            let moved_prefix = clone_bytes(&joined[jj].0);
            let ghost mp = moved_prefix@;
            let idx = joined[jj].1;
            proof {
                assert(pairs_view(joined@)[jj as int] == (joined@[jj as int].0@, joined@[jj as int].1 as int));
                assert(app[jj as int] == (mp, idx as int));
            }
            let ghost pre = stack_entries(new_stack);
            stack_push(&mut new_stack, moved_prefix, idx);
            proof {
                let newv = pairs_view(stack_entries(new_stack));
                let kept = spec_kept(oldv, app);
                let target = kept + app.take(jj + 1);
                assert(stack_entries(new_stack).len() == pre.len() + 1);
                assert(newv.len() == target.len());
                assert forall|n: int| 0 <= n < newv.len() implies newv[n] == target[n] by {
                    if n < pre.len() {
                        assert(stack_entries(new_stack)[n] == pre[n]);
                        assert(newv[n] == pairs_view(pre)[n]);
                        assert(pairs_view(pre)[n] == (kept + app.take(jj as int))[n]);
                        if n >= kept.len() {
                            assert(app.take(jj as int)[n - kept.len()] == app[n - kept.len()]);
                            assert(app.take(jj + 1)[n - kept.len()] == app[n - kept.len()]);
                        }
                    } else {
                        assert(newv[n] == (mp, idx as int));
                        assert(target[n] == app.take(jj + 1)[jj as int]);
                        assert(app.take(jj + 1)[jj as int] == app[jj as int]);
                    }
                }
                assert(newv =~= target);
            }
            jj = jj + 1;
        }
        proof {
            assert(app.take(joined@.len() as int) =~= app);
        }
        self.stack = new_stack;
        proof {
            let kept = spec_kept(oldv, app);
            if old(self).stack_wf() && to_append.stack_wf() {
                lemma_append_dedup(oldv, alias@, to_append.sview());
            }
            lemma_kept_props(oldv, app);
            assert forall|n: int|
                old(self).indices_below(n) && to_append.indices_below(n) implies #[trigger] self.indices_below(
                n,
            ) by {
                assert forall|i: int|
                    0 <= i < self.sview().len() implies 0 <= (#[trigger] self.sview()[i]).1
                    < n by {
                    if i < kept.len() {
                        assert(self.sview()[i] == kept[i]);
                        assert(oldv.contains(kept[i]));
                        let j = choose|j: int| 0 <= j < oldv.len() && oldv[j] == kept[i];
                        assert(old(self).sview()[j].1 < n);
                    } else {
                        assert(self.sview()[i] == app[i - kept.len()]);
                        assert(app[i - kept.len()].1 == to_append.sview()[i - kept.len()].1);
                        assert(to_append.sview()[i - kept.len()].1 < n);
                    }
                }
            }
        }
    }
}

/// Reports whether the re-based entries hold the given `(prefix, index)`
/// pair.
fn contains_pair(joined: &Vec<(Vec<u8>, usize)>, prefix: &Vec<u8>, idx: usize) -> (r: bool)
    ensures
        r == pairs_view(joined@).contains((prefix@, idx as int)),
{
    let mut i: usize = 0;
    while i < joined.len()
        invariant
            i <= joined@.len(),
            forall|j: int|
                0 <= j < i ==> #[trigger] pairs_view(joined@)[j] != (prefix@, idx as int),
        decreases joined@.len() - i,
    {
        if joined[i].1 == idx && bytes_eq(&joined[i].0, prefix) {
            proof {
                assert(pairs_view(joined@)[i as int] == (prefix@, idx as int));
            }
            return true;
        }
        proof {
            assert(pairs_view(joined@)[i as int] == (joined@[i as int].0@, joined@[i as int].1 as int));
        }
        i = i + 1;
    }
    proof {
        if pairs_view(joined@).contains((prefix@, idx as int)) {
            let j = choose|j: int|
                0 <= j < pairs_view(joined@).len() && pairs_view(joined@)[j] == (
                    prefix@,
                    idx as int,
                );
        }
    }
    false
}

/// Law: a constant declared in the file itself shadows every import of the
/// same name.
pub proof fn lemma_own_constant_shadows(
    buf: ConstantsBuffer,
    maps: Seq<ConstantsMap>,
    path: Seq<u8>,
)
    requires
        buf.new_file.as_map().contains_key(path),
    ensures
        buf.spec_get(maps, path) == Some(buf.new_file.as_map()[path]),
{
}

/// Law: a name the file does not declare itself resolves through the newest
/// import whose prefix matches and whose map carries the stripped name.
pub proof fn lemma_aliased_lookup(buf: ConstantsBuffer, maps: Seq<ConstantsMap>, path: Seq<u8>)
    requires
        !buf.new_file.as_map().contains_key(path),
        buf.sview().len() > 0,
        spec_starts_with(path, buf.sview().last().0),
        0 <= buf.sview().last().1 < maps.len(),
        spec_map_of(maps[buf.sview().last().1].entries@).contains_key(
            spec_cleaned(path, buf.sview().last().0),
        ),
    ensures
        buf.spec_get(maps, path) == Some(
            spec_map_of(maps[buf.sview().last().1].entries@)[spec_cleaned(
                path,
                buf.sview().last().0,
            )],
        ),
{
}

} // verus!
