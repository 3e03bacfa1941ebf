use crate::object::direct::DirectValue;
use crate::object::error::ObjectErrorCode;
use crate::object::indirect::object::IndirectObject;
use crate::object::indirect::IndirectValue;
use vstd::prelude::*;

verus! {

/// The key of an object in use: its object number and generation number.
pub type ObjectKey = (u64, u16);

/// An object in use, with the number of the increment of the file that
/// holds it.
pub type InUseEntry<'buffer> = (IndirectObject<'buffer>, u64);

/// The objects in use, found by their object and generation numbers. No key
/// occurs twice.
pub struct InUseObjects<'buffer> {
    entries: Vec<(ObjectKey, InUseEntry<'buffer>)>,
}

/// No key occurs twice in `entries`.
pub open spec fn keys_unique<V>(entries: Seq<(ObjectKey, V)>) -> bool {
    forall|i: int, j: int| 0 <= i < j < entries.len() ==> #[trigger] entries[i].0 != #[trigger] entries[j].0
}

/// `entries` has an entry for `k`.
pub open spec fn has_key<V>(entries: Seq<(ObjectKey, V)>, k: ObjectKey) -> bool {
    exists|i: int| 0 <= i < entries.len() && #[trigger] entries[i].0 == k
}

/// The map from the keys of `entries` to their values.
pub open spec fn entries_map<V>(entries: Seq<(ObjectKey, V)>) -> Map<ObjectKey, V> {
    Map::new(
        |k: ObjectKey| has_key(entries, k),
        |k: ObjectKey| entries[choose|i: int| 0 <= i < entries.len() && #[trigger] entries[i].0 == k].1,
    )
}

/// The map of `entries`, whose keys are unique, gives at the key of each
/// entry that entry's value.
proof fn lemma_entries_map_at<V>(entries: Seq<(ObjectKey, V)>, i: int)
    requires
        keys_unique(entries),
        0 <= i < entries.len(),
    ensures
        entries_map(entries).contains_key(entries[i].0),
        entries_map(entries)[entries[i].0] == entries[i].1,
{
    let k = entries[i].0;
    assert(has_key(entries, k));
    let j = choose|j: int| 0 <= j < entries.len() && #[trigger] entries[j].0 == k;
    if j != i {
        if j < i {
            assert(entries[j].0 != entries[i].0);
        } else {
            assert(entries[i].0 != entries[j].0);
        }
    }
}

/// The keys of the map of any entries are those of the entries, finitely
/// many.
proof fn lemma_entries_map_finite<V>(entries: Seq<(ObjectKey, V)>)
    ensures
        entries_map(entries).dom() == entries.map_values(|e: (ObjectKey, V)| e.0).to_set(),
        entries_map(entries).dom().finite(),
{
    let keys = entries.map_values(|e: (ObjectKey, V)| e.0);
    assert(entries_map(entries).dom() =~= keys.to_set()) by {
        assert forall|k: ObjectKey| entries_map(entries).dom().contains(k) implies keys.to_set().contains(k) by {
            let i = choose|i: int| 0 <= i < entries.len() && #[trigger] entries[i].0 == k;
            assert(keys[i] == k);
        }
        assert forall|k: ObjectKey| keys.to_set().contains(k) implies entries_map(entries).dom().contains(k) by {
            let i = choose|i: int| 0 <= i < keys.len() && keys[i] == k;
            assert(entries[i].0 == k);
        }
    }
    vstd::seq_lib::seq_to_set_is_finite(keys);
}

/// The map of entries with unique keys has as many keys as there are
/// entries.
proof fn lemma_entries_map_len<V>(entries: Seq<(ObjectKey, V)>)
    requires
        keys_unique(entries),
    ensures
        entries_map(entries).dom().finite(),
        entries_map(entries).len() == entries.len(),
{
    let keys = entries.map_values(|e: (ObjectKey, V)| e.0);
    assert(keys.no_duplicates()) by {
        assert forall|i: int, j: int| 0 <= i < keys.len() && 0 <= j < keys.len() && i != j implies keys[i] != keys[j] by {
            if i < j {
                assert(entries[i].0 != entries[j].0);
            } else {
                assert(entries[j].0 != entries[i].0);
            }
        }
    }
    keys.unique_seq_to_set();
    lemma_entries_map_finite(entries);
}

impl<'buffer> InUseObjects<'buffer> {
    /// There are finitely many objects in use.
    pub proof fn lemma_finite(self)
        ensures
            self@.dom().finite(),
    {
        lemma_entries_map_finite(self.entries@);
    }

    #[verifier::type_invariant]
    spec fn unique(self) -> bool {
        keys_unique(self.entries@)
    }

    /// The objects in use, by key.
    pub closed spec fn spec_map(self) -> Map<ObjectKey, InUseEntry<'buffer>> {
        entries_map(self.entries@)
    }

    pub fn new() -> (objects: Self)
        ensures
            objects@ == Map::<ObjectKey, InUseEntry<'buffer>>::empty(),
    {
        let objects = Self { entries: Vec::new() };
        assert(objects@ =~= Map::<ObjectKey, InUseEntry<'buffer>>::empty());
        objects
    }

    /// The number of objects in use.
    pub fn len(&self) -> (n: usize)
        ensures
            self@.dom().finite(),
            n == self@.len(),
    {
        proof {
            use_type_invariant(self);
            lemma_entries_map_len(self.entries@);
        }
        self.entries.len()
    }

    /// Where the entry of `k` is, if there is one.
    fn position(&self, k: ObjectKey) -> (r: Option<usize>)
        ensures
            match r {
                Some(i) => i < self.entries@.len() && self.entries@[i as int].0 == k,
                None => !has_key(self.entries@, k),
            },
    {
        let mut i: usize = 0;
        while i < self.entries.len()
            invariant
                i <= self.entries@.len(),
                forall|j: int| 0 <= j < i ==> #[trigger] self.entries@[j].0 != k,
            decreases self.entries@.len() - i,
        {
            if self.entries[i].0.0 == k.0 && self.entries[i].0.1 == k.1 {
                return Some(i);
            }
            i = i + 1;
        }
        None
    }

    /// The object in use under `object_number` and `generation_number`.
    pub fn get(&self, object_number: u64, generation_number: u16) -> (r: Option<&InUseEntry<'buffer>>)
        ensures
            match r {
                Some(e) => self@.contains_key((object_number, generation_number)) && *e == self@[(
                    object_number,
                    generation_number,
                )],
                None => !self@.contains_key((object_number, generation_number)),
            },
    {
        proof {
            use_type_invariant(self);
        }
        match self.position((object_number, generation_number)) {
            Some(i) => {
                proof {
                    lemma_entries_map_at(self.entries@, i as int);
                }
                Some(&self.entries[i].1)
            },
            None => None,
        }
    }

    /// Puts `value` under `k`, and gives back what was there.
    pub fn insert(&mut self, k: ObjectKey, value: InUseEntry<'buffer>) -> (r: Option<InUseEntry<'buffer>>)
        ensures
            final(self)@ == old(self)@.insert(k, value),
            match r {
                Some(e) => old(self)@.contains_key(k) && e == old(self)@[k],
                None => !old(self)@.contains_key(k),
            },
    {
        proof {
            use_type_invariant(&*self);
        }
        let ghost old_entries = self.entries@;
        match self.position(k) {
            Some(i) => {
                proof {
                    lemma_entries_map_at(old_entries, i as int);
                }
                let mut entries = Vec::new();
                std::mem::swap(&mut entries, &mut self.entries);
                let (_, old_value) = entries.remove(i);
                entries.insert(i, (k, value));
                proof {
                    let new_entries = entries@;
                    assert(keys_unique(new_entries)) by {
                        assert forall|a: int, b: int| 0 <= a < b < new_entries.len() implies #[trigger] new_entries[a].0
                            != #[trigger] new_entries[b].0 by {
                            assert(old_entries[a].0 != old_entries[b].0);
                        }
                    }
                    assert(new_entries =~= old_entries.update(i as int, (k, value)));
                    assert forall|k2: ObjectKey| #[trigger] entries_map(new_entries).contains_key(k2) == entries_map(
                        old_entries,
                    ).insert(k, value).contains_key(k2) by {
                        if has_key(new_entries, k2) {
                            let j = choose|j: int| 0 <= j < new_entries.len() && #[trigger] new_entries[j].0 == k2;
                            if j != i {
                                assert(old_entries[j].0 == k2);
                            }
                        }
                        if has_key(old_entries, k2) {
                            let j = choose|j: int| 0 <= j < old_entries.len() && #[trigger] old_entries[j].0 == k2;
                            if j != i {
                                assert(new_entries[j].0 == k2);
                            }
                        }
                    }
                    assert forall|k2: ObjectKey| #[trigger] entries_map(new_entries).contains_key(k2) implies entries_map(
                        new_entries,
                    )[k2] == entries_map(old_entries).insert(k, value)[k2] by {
                        let j = choose|j: int| 0 <= j < new_entries.len() && #[trigger] new_entries[j].0 == k2;
                        lemma_entries_map_at(new_entries, j);
                        if j != i {
                            lemma_entries_map_at(old_entries, j);
                        }
                    }
                    assert(entries_map(new_entries) =~= entries_map(old_entries).insert(k, value));
                }
                self.entries = entries;
                Some(old_value)
            },
            None => {
                let mut entries = Vec::new();
                std::mem::swap(&mut entries, &mut self.entries);
                entries.push((k, value));
                proof {
                    let new_entries = entries@;
                    let n = old_entries.len() as int;
                    assert(keys_unique(new_entries)) by {
                        assert forall|a: int, b: int| 0 <= a < b < new_entries.len() implies #[trigger] new_entries[a].0
                            != #[trigger] new_entries[b].0 by {
                            if b < n {
                                assert(old_entries[a].0 != old_entries[b].0);
                            } else {
                                assert(old_entries[a].0 == new_entries[a].0);
                            }
                        }
                    }
                    assert forall|k2: ObjectKey| #[trigger] entries_map(new_entries).contains_key(k2) == entries_map(
                        old_entries,
                    ).insert(k, value).contains_key(k2) by {
                        if has_key(new_entries, k2) {
                            let j = choose|j: int| 0 <= j < new_entries.len() && #[trigger] new_entries[j].0 == k2;
                            if j != n {
                                assert(old_entries[j].0 == k2);
                            }
                        }
                        if has_key(old_entries, k2) {
                            let j = choose|j: int| 0 <= j < old_entries.len() && #[trigger] old_entries[j].0 == k2;
                            assert(new_entries[j].0 == k2);
                        }
                        if k2 == k {
                            assert(new_entries[n].0 == k2);
                        }
                    }
                    assert forall|k2: ObjectKey| #[trigger] entries_map(new_entries).contains_key(k2) implies entries_map(
                        new_entries,
                    )[k2] == entries_map(old_entries).insert(k, value)[k2] by {
                        let j = choose|j: int| 0 <= j < new_entries.len() && #[trigger] new_entries[j].0 == k2;
                        lemma_entries_map_at(new_entries, j);
                        if j != n {
                            lemma_entries_map_at(old_entries, j);
                        }
                    }
                    assert(entries_map(new_entries) =~= entries_map(old_entries).insert(k, value));
                }
                self.entries = entries;
                None
            },
        }
    }
}

/// What a reference to `k` stands for among the objects `m`: the direct
/// value of the object, after following at most `fuel` more references.
pub open spec fn resolve_reference(m: Map<ObjectKey, InUseEntry>, k: ObjectKey, fuel: nat) -> Result<
    DirectValue,
    ObjectErrorCode,
>
    decreases fuel,
{
    if !m.contains_key(k) {
        Err(ObjectErrorCode::MissingReferencedObject(k.0, k.1))
    } else {
        match m[k].0.value {
            IndirectValue::Stream(_) => Err(ObjectErrorCode::ReferenceToStream(k.0, k.1)),
            IndirectValue::Direct(DirectValue::Reference(r)) => if fuel == 0 {
                Err(ObjectErrorCode::CyclicReference(k.0, k.1))
            } else {
                resolve_reference(m, (r.id.object_number, r.id.generation_number), (fuel - 1) as nat)
            },
            IndirectValue::Direct(v) => Ok(v),
        }
    }
}

/// The key that the object of `k` refers to, if its value is a reference;
/// else `k` itself.
pub open spec fn referred_key(m: Map<ObjectKey, InUseEntry>, k: ObjectKey) -> ObjectKey {
    match m[k].0.value {
        IndirectValue::Direct(DirectValue::Reference(r)) => (r.id.object_number, r.id.generation_number),
        _ => k,
    }
}

/// The key reached from `k` after following `n` references among `m`.
pub open spec fn follow(m: Map<ObjectKey, InUseEntry>, k: ObjectKey, n: nat) -> ObjectKey
    decreases n,
{
    if n == 0 {
        k
    } else {
        referred_key(m, follow(m, k, (n - 1) as nat))
    }
}

proof fn lemma_follow_shift(m: Map<ObjectKey, InUseEntry>, k: ObjectKey, n: nat)
    ensures
        follow(m, k, n + 1) == follow(m, referred_key(m, k), n),
    decreases n,
{
    assert(follow(m, k, n + 1) == referred_key(m, follow(m, k, n)));
    if n > 0 {
        lemma_follow_shift(m, k, (n - 1) as nat);
        assert(follow(m, referred_key(m, k), n) == referred_key(m, follow(m, referred_key(m, k), (n - 1) as nat)));
    }
}

/// Where the resolution from `k` runs out of fuel, each of the objects that
/// it passes is in `m` and its value is a reference.
proof fn lemma_cyclic_passes_references(m: Map<ObjectKey, InUseEntry>, k: ObjectKey, fuel: nat, i: nat)
    requires
        resolve_reference(m, k, fuel) is Err,
        resolve_reference(m, k, fuel)->Err_0 is CyclicReference,
        i <= fuel,
    ensures
        m.contains_key(follow(m, k, i)),
        m[follow(m, k, i)].0.value matches IndirectValue::Direct(DirectValue::Reference(_)),
    decreases fuel,
{
    if i > 0 {
        let next = referred_key(m, k);
        lemma_cyclic_passes_references(m, next, (fuel - 1) as nat, (i - 1) as nat);
        lemma_follow_shift(m, k, (i - 1) as nat);
    }
}

/// A reference is cyclic only where following references from it comes
/// back to an object that it passed.
pub proof fn lemma_cyclic_reference_revisits(m: Map<ObjectKey, InUseEntry>, k: ObjectKey)
    requires
        m.dom().finite(),
        resolve_reference(m, k, m.len()) is Err,
        resolve_reference(m, k, m.len())->Err_0 is CyclicReference,
    ensures
        exists|i: nat, j: nat| i < j <= m.len() && #[trigger] follow(m, k, i) == #[trigger] follow(m, k, j),
{
    let n = m.len();
    let keys = Seq::new(n + 1, |i: int| follow(m, k, i as nat));
    assert(keys.to_set().subset_of(m.dom())) by {
        assert forall|x: ObjectKey| keys.to_set().contains(x) implies m.dom().contains(x) by {
            let i = choose|i: int| 0 <= i < keys.len() && keys[i] == x;
            lemma_cyclic_passes_references(m, k, n, i as nat);
        }
    }
    vstd::set_lib::lemma_len_subset(keys.to_set(), m.dom());
    if keys.no_duplicates() {
        keys.unique_seq_to_set();
        assert(false);
    }
    let (i, j) = choose|i: int, j: int| 0 <= i < keys.len() && 0 <= j < keys.len() && i != j && keys[i] == keys[j];
    if i < j {
        assert(follow(m, k, i as nat) == follow(m, k, j as nat));
    } else {
        assert(follow(m, k, j as nat) == follow(m, k, i as nat));
    }
}

impl<'buffer> InUseObjects<'buffer> {
    /// The direct value that a reference to `object_number` and
    /// `generation_number` stands for.
    pub fn resolve(&self, object_number: u64, generation_number: u16) -> (r: Result<
        &DirectValue<'buffer>,
        ObjectErrorCode,
    >)
        ensures
            self@.dom().finite(),
            match resolve_reference(self@, (object_number, generation_number), self@.len()) {
                Ok(v) => r == Ok::<&DirectValue, ObjectErrorCode>(&v),
                Err(e) => r == Err::<&DirectValue, ObjectErrorCode>(e),
            },
    {
        let ghost k0 = (object_number, generation_number);
        let mut k: ObjectKey = (object_number, generation_number);
        let mut fuel: usize = self.len();
        loop
            invariant
                k0 == (object_number, generation_number),
                self@.dom().finite(),
                resolve_reference(self@, k, fuel as nat) == resolve_reference(self@, k0, self@.len()),
            decreases fuel,
        {
            assert((k.0, k.1) == k);
            match self.get(k.0, k.1) {
                None => return Err(ObjectErrorCode::MissingReferencedObject(k.0, k.1)),
                Some(e) => match &e.0.value {
                    IndirectValue::Stream(_) => return Err(ObjectErrorCode::ReferenceToStream(k.0, k.1)),
                    IndirectValue::Direct(DirectValue::Reference(r)) => {
                        if fuel == 0 {
                            return Err(ObjectErrorCode::CyclicReference(k.0, k.1));
                        }
                        fuel = fuel - 1;
                        k = (r.id.object_number, r.id.generation_number);
                    },
                    IndirectValue::Direct(v) => return Ok(v),
                },
            }
        }
    }
}

impl<'buffer> Default for InUseObjects<'buffer> {
    fn default() -> (objects: Self)
        ensures
            objects@ == Map::<ObjectKey, InUseEntry<'buffer>>::empty(),
    {
        Self::new()
    }
}

impl<'buffer> View for InUseObjects<'buffer> {
    type V = Map<ObjectKey, InUseEntry<'buffer>>;

    closed spec fn view(&self) -> Map<ObjectKey, InUseEntry<'buffer>> {
        self.spec_map()
    }
}

} // verus!
