//! The per-scope service registry: a mapping from a service's type identity
//! (a caller-chosen `u64` key) to a handle into the service arena of
//! [`crate::ui::Ui`]. A registry holds at most one current handle per key;
//! registering a key again shadows the earlier handle without invalidating
//! the instance it points to (the arena keeps every instance alive).

use vstd::prelude::*;

verus! {

/// What a sequence of `(key, handle)` registrations resolves a key to: the
/// most recent registration of that key wins, so re-registering overwrites
/// the earlier handle without erasing the record of it.
pub open spec fn lookup(entries: Seq<(u64, usize)>, key: u64) -> Option<usize>
    decreases entries.len(),
{
    if entries.len() == 0 {
        None
    } else if entries.last().0 == key {
        Some(entries.last().1)
    } else {
        lookup(entries.drop_last(), key)
    }
}

/// Every handle in the entry sequence lies below `bound`.
pub open spec fn entries_bounded(entries: Seq<(u64, usize)>, bound: int) -> bool {
    forall|i: int| 0 <= i < entries.len() ==> (#[trigger] entries[i]).1 < bound
}

/// A resolved handle always comes from one of the entries.
pub proof fn lemma_lookup_is_entry(entries: Seq<(u64, usize)>, key: u64)
    requires
        lookup(entries, key) is Some,
    ensures
        exists|i: int|
            0 <= i < entries.len() && entries[i] == (key, lookup(entries, key).unwrap()),
    decreases entries.len(),
{
    if entries.last().0 == key {
        assert(entries[entries.len() - 1] == (key, lookup(entries, key).unwrap()));
    } else {
        lemma_lookup_is_entry(entries.drop_last(), key);
        let i = choose|i: int|
            0 <= i < entries.drop_last().len() && entries.drop_last()[i] == (
                key,
                lookup(entries.drop_last(), key).unwrap(),
            );
        assert(entries[i] == (key, lookup(entries, key).unwrap()));
    }
}

/// In a bounded entry sequence, whatever a key resolves to lies below `bound`.
pub proof fn lemma_lookup_bounded(entries: Seq<(u64, usize)>, key: u64, bound: int)
    requires
        entries_bounded(entries, bound),
        lookup(entries, key) is Some,
    ensures
        lookup(entries, key).unwrap() < bound,
{
    lemma_lookup_is_entry(entries, key);
}

/// Law (injection miss): a key that no entry registers resolves to nothing.
pub proof fn lemma_lookup_miss(entries: Seq<(u64, usize)>, key: u64)
    requires
        forall|i: int| 0 <= i < entries.len() ==> (#[trigger] entries[i]).0 != key,
    ensures
        lookup(entries, key) is None,
    decreases entries.len(),
{
    if entries.len() > 0 {
        assert(entries[entries.len() - 1].0 != key);
        lemma_lookup_miss(entries.drop_last(), key);
    }
}

/// Law (shadowing): registering a key resolves that key to the new handle and
/// leaves every other key's resolution unchanged. The sequence registered
/// into is untouched as a value, so an earlier copy of it — a parent scope's
/// registry — still resolves the key to the old handle.
pub proof fn lemma_register_shadows(
    entries: Seq<(u64, usize)>,
    key: u64,
    handle: usize,
    other: u64,
)
    ensures
        lookup(entries.push((key, handle)), key) == Some(handle),
        other != key ==> lookup(entries.push((key, handle)), other) == lookup(entries, other),
{
    assert(entries.push((key, handle)).drop_last() =~= entries);
}

/// Law (shadowing across scopes): a child registry copied from its parent
/// resolves a key exactly as the parent does; after the child registers a
/// new handle under that key — what providing in the child scope does — the
/// child resolves it to the new handle while the parent, untouched by the
/// child's registration, still resolves it to the old one.
pub proof fn lemma_child_shadowing(
    parent: Seq<(u64, usize)>,
    child: Seq<(u64, usize)>,
    key: u64,
    v1: usize,
    v2: usize,
)
    requires
        child == parent,
        lookup(parent, key) == Some(v1),
    ensures
        lookup(child, key) == Some(v1),
        lookup(child.push((key, v2)), key) == Some(v2),
        lookup(parent, key) == Some(v1),
{
    lemma_register_shadows(child, key, v2, key);
}

/// Law (isolation across re-renders): a fresh registry copied from a snapshot
/// resolves exactly as the snapshot does, so a key the snapshot never
/// registered resolves to nothing — whatever earlier copies registered.
pub proof fn lemma_rerender_isolation(
    snapshot: Seq<(u64, usize)>,
    fresh: Seq<(u64, usize)>,
    key: u64,
)
    requires
        fresh == snapshot,
        forall|i: int| 0 <= i < snapshot.len() ==> (#[trigger] snapshot[i]).0 != key,
    ensures
        lookup(fresh, key) is None,
{
    lemma_lookup_miss(snapshot, key);
}

/// A type-keyed service registry. The view is the sequence of registrations;
/// [`lookup`] says what a key currently resolves to.
pub struct ServiceRegistry {
    entries: Vec<(u64, usize)>,
}

impl View for ServiceRegistry {
    type V = Seq<(u64, usize)>;

    closed spec fn view(&self) -> Seq<(u64, usize)> {
        self.entries@
    }
}

impl ServiceRegistry {
    /// A registry with no registrations.
    pub fn new() -> (r: ServiceRegistry)
        ensures
            r@ == Seq::<(u64, usize)>::empty(),
    {
        ServiceRegistry { entries: Vec::new() }
    }

    /// Registers `handle` as the sole current instance of the type keyed by
    /// `key`, overwriting (shadowing) any earlier registration of that key.
    pub fn register(&mut self, key: u64, handle: usize)
        ensures
            final(self)@ == old(self)@.push((key, handle)),
            lookup(final(self)@, key) == Some(handle),
            forall|other: u64|
                other != key ==> lookup(final(self)@, other) == lookup(old(self)@, other),
    {
        self.entries.push((key, handle));
        proof {
            assert forall|other: u64| other != key implies lookup(self@, other) == lookup(
                old(self)@,
                other,
            ) by {
                lemma_register_shadows(old(self)@, key, handle, other);
            }
            lemma_register_shadows(old(self)@, key, handle, key);
        }
    }

    /// What `key` currently resolves to: the handle most recently registered
    /// for it, or nothing if it was never registered in this registry.
    pub fn get(&self, key: u64) -> (r: Option<usize>)
        ensures
            r == lookup(self@, key),
    {
        let n = self.entries.len();
        let mut i: usize = n;
        proof {
            assert(self.entries@.take(n as int) =~= self.entries@);
        }
        while i > 0
            invariant
                i <= n,
                n == self.entries@.len(),
                lookup(self.entries@, key) == lookup(self.entries@.take(i as int), key),
            decreases i,
        {
            i = i - 1;
            proof {
                assert(self.entries@.take(i + 1).drop_last() =~= self.entries@.take(i as int));
                assert(self.entries@.take(i + 1).last() == self.entries@[i as int]);
            }
            let entry = self.entries[i];
            if entry.0 == key {
                return Some(entry.1);
            }
        }
        None
    }

    /// The registrations, oldest first: the copy-on-create rule duplicates
    /// them into a child scope's registry. Not a general iteration API.
    pub fn entries(&self) -> (r: Vec<(u64, usize)>)
        ensures
            r@ == self@,
    {
        let mut out: Vec<(u64, usize)> = Vec::new();
        let mut i: usize = 0;
        while i < self.entries.len()
            invariant
                i <= self.entries@.len(),
                out@ == self.entries@.take(i as int),
            decreases self.entries@.len() - i,
        {
            out.push(self.entries[i]);
            proof {
                assert(self.entries@.take(i + 1) =~= self.entries@.take(i as int).push(
                    self.entries@[i as int],
                ));
            }
            i = i + 1;
        }
        proof {
            assert(self.entries@.take(self.entries@.len() as int) =~= self.entries@);
        }
        out
    }

    /// A registry with exactly this registry's registrations: the shallow
    /// copy a child scope starts from. The handles are shared, the sequences
    /// are independent afterwards.
    pub fn duplicate(&self) -> (r: ServiceRegistry)
        ensures
            r@ == self@,
    {
        ServiceRegistry { entries: self.entries() }
    }
}

} // verus!
