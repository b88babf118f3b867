//! Connection registry: the single shared mapping from connection identity
//! to display name. Entries keep insertion order, so the roster snapshot is
//! deterministic; a re-registration overwrites the name in place.

use vstd::prelude::*;

verus! {

/// One roster entry: an identity and the display name it registered.
pub struct Entry {
    pub id: u64,
    pub name: Vec<u8>,
}

/// Shared mapping from connection identity to display name.
///
/// An identity appears at most once; entries stand in the order in which
/// their identities first registered.
pub struct Registry {
    entries: Vec<Entry>,
}

/// Index of the first pair with identity `id`, or -1 when none has it.
pub open spec fn pairs_find(m: Seq<(u64, Seq<u8>)>, id: u64) -> int
    decreases m.len(),
{
    if m.len() == 0 {
        -1
    } else if m[0].0 == id {
        0
    } else {
        let rest = pairs_find(m.drop_first(), id);
        if rest == -1 {
            -1
        } else {
            rest + 1
        }
    }
}

/// Whether some pair carries identity `id`.
pub open spec fn pairs_contains(m: Seq<(u64, Seq<u8>)>, id: u64) -> bool {
    exists|i: int| 0 <= i < m.len() && m[i].0 == id
}

/// The mapping after `register(id, name)`: overwrite in place, or append.
pub open spec fn spec_register_pairs(m: Seq<(u64, Seq<u8>)>, id: u64, name: Seq<u8>) -> Seq<
    (u64, Seq<u8>),
> {
    if pairs_contains(m, id) {
        m.update(pairs_find(m, id), (id, name))
    } else {
        m.push((id, name))
    }
}

/// The mapping after `unregister(id)`: the pair removed, or unchanged.
pub open spec fn spec_unregister_pairs(m: Seq<(u64, Seq<u8>)>, id: u64) -> Seq<(u64, Seq<u8>)> {
    if pairs_contains(m, id) {
        m.remove(pairs_find(m, id))
    } else {
        m
    }
}

/// Index of the first entry with identity `id`, or -1 when none has it.
pub open spec fn find_idx(s: Seq<Entry>, id: u64) -> int
    decreases s.len(),
{
    if s.len() == 0 {
        -1
    } else if s[0].id == id {
        0
    } else {
        let rest = find_idx(s.drop_first(), id);
        if rest == -1 {
            -1
        } else {
            rest + 1
        }
    }
}

/// `find_idx` is a valid index exactly when some entry has the identity,
/// and it points at an entry with that identity.
pub proof fn lemma_find_idx(s: Seq<Entry>, id: u64)
    ensures
        find_idx(s, id) == -1 <==> (forall|i: int| 0 <= i < s.len() ==> s[i].id != id),
        find_idx(s, id) != -1 ==> 0 <= find_idx(s, id) < s.len() && s[find_idx(s, id)].id == id,
        find_idx(s, id) != -1 ==> (forall|i: int| 0 <= i < find_idx(s, id) ==> s[i].id != id),
    decreases s.len(),
{
    if s.len() > 0 && s[0].id != id {
        lemma_find_idx(s.drop_first(), id);
        assert forall|i: int| 1 <= i < s.len() implies s.drop_first()[i - 1] == s[i] by {}
    }
}

/// A pair view and an entry view agree when they list the same identities
/// and names pointwise; then the searches agree too.
proof fn lemma_pairs_match(s: Seq<Entry>, m: Seq<(u64, Seq<u8>)>, id: u64)
    requires
        m.len() == s.len(),
        forall|k: int| 0 <= k < s.len() ==> m[k] == (s[k].id, s[k].name@),
    ensures
        pairs_find(m, id) == find_idx(s, id),
        pairs_contains(m, id) <==> (exists|i: int| 0 <= i < s.len() && s[i].id == id),
    decreases s.len(),
{
    if s.len() > 0 {
        assert forall|k: int| 0 <= k < s.drop_first().len() implies m.drop_first()[k] == (
            s.drop_first()[k].id,
            s.drop_first()[k].name@,
        ) by {
            assert(m.drop_first()[k] == m[k + 1]);
        }
        lemma_pairs_match(s.drop_first(), m.drop_first(), id);
    }
    if pairs_contains(m, id) {
        let w = choose|i: int| 0 <= i < m.len() && m[i].0 == id;
        assert(s[w].id == id);
    }
    if exists|i: int| 0 <= i < s.len() && s[i].id == id {
        let w = choose|i: int| 0 <= i < s.len() && s[i].id == id;
        assert(m[w].0 == id);
        assert(pairs_contains(m, id));
    }
}

impl Registry {
    /// The registry as a sequence of entries, in insertion order.
    pub closed spec fn view(self) -> Seq<Entry> {
        self.entries@
    }

    /// The registry as identity–name pairs, in insertion order.
    pub open spec fn model(self) -> Seq<(u64, Seq<u8>)> {
        self@.map_values(|e: Entry| (e.id, e.name@))
    }

    /// No identity appears twice.
    pub open spec fn wf(self) -> bool {
        forall|i: int, j: int|
            0 <= i < j < self@.len() ==> self@[i].id != self@[j].id
    }

    /// Whether `id` is currently registered.
    pub open spec fn spec_contains(self, id: u64) -> bool {
        exists|i: int| 0 <= i < self@.len() && self@[i].id == id
    }

    /// The display name registered for `id`, if any.
    pub open spec fn spec_resolve(self, id: u64) -> Option<Seq<u8>> {
        if self.spec_contains(id) {
            Some(self@[find_idx(self@, id)].name@)
        } else {
            None
        }
    }

    /// The roster: the display names in entry order.
    pub open spec fn spec_names(self) -> Seq<Seq<u8>> {
        self@.map_values(|e: Entry| e.name@)
    }

    /// An empty registry.
    pub fn new() -> (r: Registry)
        ensures
            r.wf(),
            r@ =~= Seq::<Entry>::empty(),
    {
        Registry { entries: Vec::new() }
    }

    /// Index of the entry for `id`, if one exists.
    fn position(&self, id: u64) -> (r: Option<usize>)
        ensures
            match r {
                Some(i) => i == find_idx(self@, id) && i < self@.len() && self@[i as int].id == id,
                None => find_idx(self@, id) == -1,
            },
    {
        proof {
            lemma_find_idx(self@, id);
        }
        let mut i: usize = 0;
        while i < self.entries.len()
            invariant
                i <= self@.len(),
                forall|j: int| 0 <= j < i ==> self@[j].id != id,
                find_idx(self@, id) == -1 <==> (forall|j: int|
                    0 <= j < self@.len() ==> self@[j].id != id),
                find_idx(self@, id) != -1 ==> 0 <= find_idx(self@, id) < self@.len()
                    && self@[find_idx(self@, id)].id == id,
                find_idx(self@, id) != -1 ==> (forall|j: int|
                    0 <= j < find_idx(self@, id) ==> self@[j].id != id),
            decreases self@.len() - i,
        {
            if self.entries[i].id == id {
                return Some(i);
            }
            i = i + 1;
        }
        None
    }

    /// Inserts or overwrites the mapping for `id`; never fails.
    ///
    /// A fresh identity is appended; a re-registration replaces the name but
    /// keeps the entry's position, so the stale name is gone from the roster.
    pub fn register(&mut self, id: u64, name: Vec<u8>)
        requires
            old(self).wf(),
        ensures
            final(self).wf(),
            old(self).spec_contains(id) ==> final(self)@ =~= old(self)@.update(
                find_idx(old(self)@, id),
                Entry { id, name },
            ),
            !old(self).spec_contains(id) ==> final(self)@ =~= old(self)@.push(
                Entry { id, name },
            ),
            final(self).spec_resolve(id) == Some::<Seq<u8>>(name@),
            final(self).model() =~= spec_register_pairs(old(self).model(), id, name@),
    {
        proof {
            lemma_find_idx(self@, id);
            lemma_pairs_match(self@, self.model(), id);
        }
        let pos = self.position(id);
        match pos {
            Some(i) => {
                self.entries[i] = Entry { id, name };
                proof {
                    lemma_find_idx(self@, id);
                    assert(find_idx(self@, id) == i) by {
                        assert(self@[i as int].id == id);
                        assert(forall|j: int| 0 <= j < i ==> self@[j].id != id);
                    }
                    assert(self.model() =~= old(self).model().update(i as int, (id, name@)));
                }
            },
            None => {
                self.entries.push(Entry { id, name });
                proof {
                    lemma_find_idx(self@, id);
                    let n = self@.len() - 1;
                    assert(self@[n].id == id);
                    assert(find_idx(self@, id) == n) by {
                        assert(forall|j: int| 0 <= j < n ==> self@[j].id != id);
                    }
                    assert(self.model() =~= old(self).model().push((id, name@)));
                }
            },
        }
    }

    /// Removes the mapping for `id` if present; idempotent.
    pub fn unregister(&mut self, id: u64)
        requires
            old(self).wf(),
        ensures
            final(self).wf(),
            old(self).spec_contains(id) ==> final(self)@ =~= old(self)@.remove(
                find_idx(old(self)@, id),
            ),
            !old(self).spec_contains(id) ==> final(self)@ =~= old(self)@,
            !final(self).spec_contains(id),
            final(self).model() =~= spec_unregister_pairs(old(self).model(), id),
    {
        proof {
            lemma_find_idx(self@, id);
            lemma_pairs_match(self@, self.model(), id);
        }
        let pos = self.position(id);
        match pos {
            Some(i) => {
                self.entries.remove(i);
                proof {
                    assert forall|k: int| 0 <= k < self@.len() implies self@[k].id != id by {
                        if k < i {
                            assert(self@[k] == old(self)@[k]);
                        } else {
                            assert(self@[k] == old(self)@[k + 1]);
                        }
                    }
                    assert(self.model() =~= old(self).model().remove(i as int));
                }
            },
            None => {
                proof {
                    assert(self.model() =~= old(self).model());
                }
            },
        }
    }

    /// The display name registered for `id`, for attributing an outgoing
    /// chat message to its sender.
    pub fn resolve(&self, id: u64) -> (r: Option<Vec<u8>>)
        ensures
            match r {
                Some(name) => self.spec_resolve(id) == Some::<Seq<u8>>(name@),
                None => self.spec_resolve(id) is None,
            },
    {
        proof {
            lemma_find_idx(self@, id);
        }
        match self.position(id) {
            Some(i) => Some(self.entries[i].name.clone()),
            None => None,
        }
    }

    /// The current roster of display names, in insertion order.
    pub fn snapshot(&self) -> (r: Vec<Vec<u8>>)
        ensures
            r@.len() == self@.len(),
            forall|i: int| 0 <= i < r@.len() ==> r@[i]@ == self.spec_names()[i],
    {
        let mut out: Vec<Vec<u8>> = Vec::new();
        let mut i: usize = 0;
        while i < self.entries.len()
            invariant
                i <= self@.len(),
                out@.len() == i,
                forall|j: int| 0 <= j < i ==> out@[j]@ == self@[j].name@,
            decreases self@.len() - i,
        {
            out.push(self.entries[i].name.clone());
            i = i + 1;
        }
        out
    }

    /// Number of registered identities.
    pub fn len(&self) -> (r: usize)
        ensures
            r == self@.len(),
    {
        self.entries.len()
    }
}

/// The snapshot lists exactly the registered names: each registered identity
/// contributes its current name at its entry's position, every element of
/// the roster comes from some registered identity, and — identities being
/// unique — no identity contributes twice.
pub proof fn lemma_snapshot_exact(r: Registry)
    requires
        r.wf(),
    ensures
        r.spec_names().len() == r@.len(),
        forall|id: u64|
            r.spec_contains(id) ==> r.spec_names()[find_idx(r@, id)]
                == r.spec_resolve(id).unwrap(),
        forall|i: int|
            0 <= i < r.spec_names().len() ==> r.spec_names()[i]
                == r.spec_resolve(r@[i].id).unwrap(),
{
    assert forall|id: u64| r.spec_contains(id) implies r.spec_names()[find_idx(r@, id)]
        == r.spec_resolve(id).unwrap() by {
        lemma_find_idx(r@, id);
    }
    assert forall|i: int| 0 <= i < r.spec_names().len() implies r.spec_names()[i]
        == r.spec_resolve(r@[i].id).unwrap() by {
        let id = r@[i].id;
        lemma_find_idx(r@, id);
        assert(r.spec_contains(id));
        assert(find_idx(r@, id) == i) by {
            let f = find_idx(r@, id);
            if f != i {
                assert(r@[f].id == id && r@[i].id == id);
            }
        }
    }
}

/// Registering an already-registered identity overwrites its roster entry:
/// the roster afterwards is the old roster with that identity's slot holding
/// the new name, so the stale name no longer stands at that identity's
/// position in any subsequent snapshot.
pub proof fn lemma_reregister_overwrites(pre: Registry, post: Registry, id: u64, name: Vec<u8>)
    requires
        pre.wf(),
        pre.spec_contains(id),
        post@ == pre@.update(find_idx(pre@, id), Entry { id, name }),
    ensures
        post.spec_names() =~= pre.spec_names().update(find_idx(pre@, id), name@),
        post.spec_resolve(id) == Some(name@),
{
    lemma_find_idx(pre@, id);
    let idx = find_idx(pre@, id);
    assert(forall|k: int| 0 <= k < post@.len() ==> post@[k].id == pre@[k].id);
    lemma_find_idx(post@, id);
    assert(find_idx(post@, id) == idx) by {
        let f = find_idx(post@, id);
        assert(post@[idx].id == id);
        if f < idx {
            assert(pre@[f].id == id);
        } else if f > idx {
            assert(post@[idx].id != id);
        }
    }
}

} // verus!
