//! The registry that gives each guarded rule a small id of its own.

use crate::flags::RECURSIVE_FLAG_BITS;
use vstd::hash_map::StringHashMap;
use vstd::prelude::*;

verus! {

/// What holds of the ids that a registry has given out: they are the numbers
/// below the count of names, each given to one name.
pub open spec fn ids_dense(ids: Map<Seq<char>, usize>) -> bool {
    &&& ids.dom().finite()
    &&& forall|name: Seq<char>| #[trigger] ids.contains_key(name) ==> ids[name] < ids.dom().len()
    &&& forall|a: Seq<char>, b: Seq<char>|
        #[trigger] ids.contains_key(a) && #[trigger] ids.contains_key(b) && ids[a] == ids[b] ==> a
            == b
}

/// Whether `id` has been given to a name.
pub open spec fn id_is_given(ids: Map<Seq<char>, usize>, id: usize) -> bool {
    exists|name: Seq<char>| #[trigger] ids.contains_key(name) && ids[name] == id
}

/// The ids leave no gap: every number below the count of names is the id of a
/// name.
pub proof fn lemma_ids_fill_the_count(ids: Map<Seq<char>, usize>)
    requires
        ids_dense(ids),
        ids.dom().len() <= RECURSIVE_FLAG_BITS,
    ensures
        forall|id: usize| id < ids.dom().len() ==> #[trigger] id_is_given(ids, id),
{
    let count = ids.dom().len();
    assert(ids.is_injective()) by {
        assert forall|a: Seq<char>, b: Seq<char>|
            a != b && ids.dom().contains(a) && ids.dom().contains(b) implies #[trigger] ids[a]
            != #[trigger] ids[b] by {
            assert(ids.contains_key(a) && ids.contains_key(b));
        }
    }
    ids.lemma_injective_values_len();
    let below: Set<usize> = Set::new(|id: usize| id < count);
    let range: Set<int> = vstd::set_lib::set_int_range(0, count as int);
    vstd::set_lib::lemma_int_range(0, count as int);
    let narrow = |i: int| i as usize;
    assert(vstd::relations::injective_on(narrow, range));
    assert(range.map(narrow) =~= below) by {
        assert forall|id: usize| below.contains(id) implies range.map(narrow).contains(id) by {
            assert(range.contains(id as int) && narrow(id as int) == id);
        }
    }
    vstd::set_lib::lemma_map_size(range, below, narrow);
    assert(ids.values().subset_of(below)) by {
        assert forall|id: usize| ids.values().contains(id) implies below.contains(id) by {
            let name = choose|name: Seq<char>| ids.dom().contains(name) && ids[name] == id;
            assert(ids.contains_key(name));
        }
    }
    vstd::set_lib::lemma_subset_equality(ids.values(), below);
    assert forall|id: usize| id < count implies #[trigger] id_is_given(ids, id) by {
        assert(below.contains(id));
        assert(ids.values().contains(id));
        let name = choose|name: Seq<char>| ids.dom().contains(name) && ids[name] == id;
        assert(ids.contains_key(name) && ids[name] == id);
    }
}

/// Whether a lookup of `name` can be served: the name is known, or an id is
/// left for it.
pub open spec fn can_resolve(ids: Map<Seq<char>, usize>, name: Seq<char>) -> bool {
    ids.contains_key(name) || ids.dom().len() < RECURSIVE_FLAG_BITS
}

/// The id that a lookup of `name` returns: the one it has, or else the next
/// unused one.
pub open spec fn resolved_id(ids: Map<Seq<char>, usize>, name: Seq<char>) -> usize {
    if ids.contains_key(name) {
        ids[name]
    } else {
        ids.dom().len() as usize
    }
}

/// The registry after a lookup of `name`.
pub open spec fn resolved_ids(ids: Map<Seq<char>, usize>, name: Seq<char>) -> Map<
    Seq<char>,
    usize,
> {
    if ids.contains_key(name) {
        ids
    } else {
        ids.insert(name, ids.dom().len() as usize)
    }
}

/// A lookup keeps the registry dense and within the capacity.
pub proof fn lemma_resolve_keeps_dense(ids: Map<Seq<char>, usize>, name: Seq<char>)
    requires
        ids_dense(ids),
        ids.dom().len() <= RECURSIVE_FLAG_BITS,
        can_resolve(ids, name),
    ensures
        ids_dense(resolved_ids(ids, name)),
        resolved_ids(ids, name).dom().len() <= RECURSIVE_FLAG_BITS,
        resolved_ids(ids, name).contains_key(name),
        resolved_ids(ids, name)[name] == resolved_id(ids, name),
        resolved_id(ids, name) < RECURSIVE_FLAG_BITS,
        ids.submap_of(resolved_ids(ids, name)),
{
    broadcast use vstd::set::group_set_axioms, vstd::map::group_map_axioms;

    if !ids.contains_key(name) {
        let after = resolved_ids(ids, name);
        assert(after.dom() =~= ids.dom().insert(name));
        assert(after.dom().len() == ids.dom().len() + 1);
        assert forall|a: Seq<char>, b: Seq<char>|
            #[trigger] after.contains_key(a) && #[trigger] after.contains_key(b) && after[a]
                == after[b] implies a == b by {
            if a != name {
                assert(ids.contains_key(a));
            }
            if b != name {
                assert(ids.contains_key(b));
            }
        }
        assert forall|other: Seq<char>| #[trigger] after.contains_key(other) implies after[other]
            < after.dom().len() by {
            if other != name {
                assert(ids.contains_key(other));
            }
        }
    }
}

/// Whether the lookups of `names`, one after the other, can all be served.
pub open spec fn can_resolve_all(ids: Map<Seq<char>, usize>, names: Seq<Seq<char>>) -> bool
    decreases names.len(),
{
    names.len() > 0 ==> can_resolve(ids, names[0]) && can_resolve_all(
        resolved_ids(ids, names[0]),
        names.drop_first(),
    )
}

/// The registry after the lookups of `names`, one after the other.
pub open spec fn resolved_all(ids: Map<Seq<char>, usize>, names: Seq<Seq<char>>) -> Map<
    Seq<char>,
    usize,
>
    decreases names.len(),
{
    if names.len() == 0 {
        ids
    } else {
        resolved_all(resolved_ids(ids, names[0]), names.drop_first())
    }
}

/// Lookups never take an id back or change it: whatever is looked up, every
/// name keeps the id it has, and the registry stays dense and within the
/// capacity.
pub proof fn lemma_lookups_keep_ids(ids: Map<Seq<char>, usize>, names: Seq<Seq<char>>)
    requires
        ids_dense(ids),
        ids.dom().len() <= RECURSIVE_FLAG_BITS,
        can_resolve_all(ids, names),
    ensures
        ids_dense(resolved_all(ids, names)),
        resolved_all(ids, names).dom().len() <= RECURSIVE_FLAG_BITS,
        ids.submap_of(resolved_all(ids, names)),
    decreases names.len(),
{
    if names.len() > 0 {
        let next = resolved_ids(ids, names[0]);
        lemma_resolve_keeps_dense(ids, names[0]);
        lemma_lookups_keep_ids(next, names.drop_first());
        assert forall|name: Seq<char>| #[trigger] ids.contains_key(name) implies resolved_all(
            ids,
            names,
        ).contains_key(name) && resolved_all(ids, names)[name] == ids[name] by {
            assert(next.contains_key(name));
        }
    }
}

/// Repeated lookups of one name return one id, whatever is looked up in
/// between.
pub proof fn lemma_ids_stable(
    ids: Map<Seq<char>, usize>,
    name: Seq<char>,
    between: Seq<Seq<char>>,
)
    requires
        ids_dense(ids),
        ids.dom().len() <= RECURSIVE_FLAG_BITS,
        can_resolve(ids, name),
        can_resolve_all(resolved_ids(ids, name), between),
    ensures
        can_resolve(resolved_all(resolved_ids(ids, name), between), name),
        resolved_id(resolved_all(resolved_ids(ids, name), between), name) == resolved_id(
            ids,
            name,
        ),
{
    let once = resolved_ids(ids, name);
    lemma_resolve_keeps_dense(ids, name);
    lemma_lookups_keep_ids(once, between);
    assert(once.contains_key(name));
    assert(resolved_all(once, between).contains_key(name));
}

/// Lookups of two names return two ids, in whatever state the registry is and
/// whatever is looked up in between.
pub proof fn lemma_ids_distinct(
    ids: Map<Seq<char>, usize>,
    first: Seq<char>,
    between: Seq<Seq<char>>,
    second: Seq<char>,
)
    requires
        ids_dense(ids),
        ids.dom().len() <= RECURSIVE_FLAG_BITS,
        can_resolve(ids, first),
        can_resolve_all(resolved_ids(ids, first), between),
        can_resolve(resolved_all(resolved_ids(ids, first), between), second),
        first != second,
    ensures
        resolved_id(resolved_all(resolved_ids(ids, first), between), second) != resolved_id(
            ids,
            first,
        ),
{
    let once = resolved_ids(ids, first);
    lemma_resolve_keeps_dense(ids, first);
    lemma_lookups_keep_ids(once, between);
    let later = resolved_all(once, between);
    assert(once.contains_key(first));
    assert(later.contains_key(first));
    lemma_resolve_keeps_dense(later, second);
    let last = resolved_ids(later, second);
    assert(last.contains_key(first));
    assert(last.contains_key(second));
}

/// Whether `id` has been given to a name other than `name`.
pub open spec fn id_is_given_to_other(
    ids: Map<Seq<char>, usize>,
    id: usize,
    name: Seq<char>,
) -> bool {
    exists|other: Seq<char>| other != name && #[trigger] ids.contains_key(other) && ids[other] == id
}

/// A registry that has given out every id serves no new name: no id is left
/// for it, since every id below the capacity belongs to another name.
pub proof fn lemma_full_registry_refuses(ids: Map<Seq<char>, usize>, name: Seq<char>)
    requires
        ids_dense(ids),
        ids.dom().len() == RECURSIVE_FLAG_BITS,
        !ids.contains_key(name),
    ensures
        !can_resolve(ids, name),
        forall|id: usize|
            id < RECURSIVE_FLAG_BITS ==> #[trigger] id_is_given_to_other(ids, id, name),
{
    lemma_ids_fill_the_count(ids);
    assert forall|id: usize| id < RECURSIVE_FLAG_BITS implies #[trigger] id_is_given_to_other(
        ids,
        id,
        name,
    ) by {
        assert(id_is_given(ids, id));
        let other = choose|other: Seq<char>| #[trigger] ids.contains_key(other) && ids[other] == id;
        assert(other != name && ids.contains_key(other) && ids[other] == id);
    }
}

/// The lookup that could not be served, with the capacity that was exhausted.
#[derive(Clone, Copy, Debug, PartialEq, Eq)]
pub struct CapacityExceeded {
    pub capacity: usize,
}

/// The ids of the guarded rules, by name, in the order in which the rules were
/// first seen.
pub struct RecursiveIndexes {
    indexes: StringHashMap<usize>,
    next: usize,
}

impl View for RecursiveIndexes {
    type V = Map<Seq<char>, usize>;

    closed spec fn view(&self) -> Map<Seq<char>, usize> {
        self.indexes@
    }
}

impl RecursiveIndexes {
    /// The ids are dense, their count is the next id, and it is within the
    /// capacity.
    pub closed spec fn wf(&self) -> bool {
        &&& ids_dense(self@)
        &&& self.next == self@.dom().len()
        &&& self.next <= RECURSIVE_FLAG_BITS
    }

    /// A well-formed registry holds no more names than the capacity.
    pub proof fn lemma_within_capacity(&self)
        requires
            self.wf(),
        ensures
            ids_dense(self@),
            self@.dom().len() <= RECURSIVE_FLAG_BITS,
    {
    }

    /// A registry without names.
    pub fn new() -> (registry: Self)
        ensures
            registry.wf(),
            registry@ == Map::<Seq<char>, usize>::empty(),
    {
        let registry = RecursiveIndexes { indexes: StringHashMap::new(), next: 0 };
        proof {
            assert(registry@.dom() =~= Set::<Seq<char>>::empty());
        }
        registry
    }

    /// The id of `key`: the one it got when it was first seen, or, for a new
    /// name, the next unused id, which it keeps from now on.
    pub fn get(&mut self, key: &'static str) -> (id: usize)
        requires
            old(self).wf(),
            can_resolve(old(self)@, key@),
        ensures
            final(self).wf(),
            id == resolved_id(old(self)@, key@),
            final(self)@ == resolved_ids(old(self)@, key@),
            id < RECURSIVE_FLAG_BITS,
    {
        proof {
            lemma_resolve_keeps_dense(self@, key@);
        }
        let known: Option<usize> = match self.indexes.get(key) {
            Some(x) => Some(*x),
            None => None,
        };
        match known {
            Some(x) => x,
            None => {
                let new_index: usize = self.next;
                self.next = self.next + 1;
                self.indexes.insert(key.to_owned(), new_index);
                new_index
            },
        }
    }

    /// The id of `key` as `get` gives it, or, where `key` is new and no id is
    /// left, the error with the capacity and the registry as it was.
    pub fn try_get(&mut self, key: &'static str) -> (found: Result<usize, CapacityExceeded>)
        requires
            old(self).wf(),
        ensures
            final(self).wf(),
            can_resolve(old(self)@, key@) ==> found == Ok::<usize, CapacityExceeded>(
                resolved_id(old(self)@, key@),
            ) && final(self)@ == resolved_ids(old(self)@, key@),
            !can_resolve(old(self)@, key@) ==> found == Err::<usize, CapacityExceeded>(
                (CapacityExceeded { capacity: RECURSIVE_FLAG_BITS }),
            ) && final(self)@ == old(self)@,
    {
        if self.next < RECURSIVE_FLAG_BITS || self.indexes.contains_key(key) {
            Ok(self.get(key))
        } else {
            Err(CapacityExceeded { capacity: RECURSIVE_FLAG_BITS })
        }
    }
}

} // verus!
