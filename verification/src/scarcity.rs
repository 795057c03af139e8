//! Scarce resources shared among consumers, and arenas of such resources.
//!
//! Amounts are of any type `A`: this module keeps track of who holds what
//! and never computes with amounts.
use vstd::prelude::*;
use crate::ledger::Ledger;

verus! {

/// A resource of limited capacity and what each consumer holds of it.
#[derive(Debug, Clone)]
pub struct ScarceResource<A> {
    pub name: String,
    pub capacity: A,
    /// What each consumer holds, by consumer name.
    pub consumers: Ledger<A>,
}

/// `after` is `before` with `consumer` no longer holding anything of it.
pub open spec fn released<A>(before: ScarceResource<A>, after: ScarceResource<A>, consumer: Seq<char>) -> bool {
    &&& after.name@ == before.name@
    &&& after.capacity == before.capacity
    &&& after.consumers@ == before.consumers@.remove(consumer)
}

impl<A> ScarceResource<A> {
    /// A resource named `name` of capacity `capacity`, held by no one.
    pub fn new(name: &str, capacity: A) -> (r: Self)
        ensures
            r.name@ == name@,
            r.capacity == capacity,
            r.consumers@ == Map::<Seq<char>, A>::empty(),
    {
        ScarceResource { name: name.to_owned(), capacity, consumers: Ledger::new() }
    }

    /// Drops what `consumer` holds and returns it, if it holds anything.
    pub fn release(&mut self, consumer: &str) -> (r: Option<A>)
        ensures
            released(*old(self), *final(self), consumer@),
            r matches Some(v) ==> old(self).consumers@.contains_key(consumer@) && v == old(self).consumers@[consumer@],
            r is None ==> !old(self).consumers@.contains_key(consumer@),
    {
        self.consumers.remove(consumer)
    }

    /// Number of consumers holding part of the resource.
    pub fn num_consumers(&self) -> (n: usize)
        ensures
            n == self.consumers@.len(),
    {
        self.consumers.len()
    }
}

/// Resources by name.
#[derive(Debug, Clone)]
pub struct ResourceArena<A> {
    resources: Ledger<ScarceResource<A>>,
}

impl<A> View for ResourceArena<A> {
    type V = Map<Seq<char>, ScarceResource<A>>;

    /// Each resource under the name it was added with.
    closed spec fn view(&self) -> Map<Seq<char>, ScarceResource<A>> {
        self.resources@
    }
}

impl<A> ResourceArena<A> {
    /// An arena without resources.
    pub fn new() -> (a: Self)
        ensures
            a@ == Map::<Seq<char>, ScarceResource<A>>::empty(),
    {
        ResourceArena { resources: Ledger::new() }
    }

    /// Adds `resource` under its name, in place of any resource of that name.
    pub fn add_resource(&mut self, resource: ScarceResource<A>)
        ensures
            final(self)@ == old(self)@.insert(resource.name@, resource),
    {
        let name = resource.name.clone();
        self.resources.insert(name.as_str(), resource);
    }

    /// The resource named `name`, if any.
    pub fn get_resource(&self, name: &str) -> (r: Option<&ScarceResource<A>>)
        ensures
            r matches Some(res) ==> self@.contains_key(name@) && *res == self@[name@],
            r is None ==> !self@.contains_key(name@),
    {
        self.resources.get(name)
    }

    /// Takes the resource named `name` out of the arena, if there is one.
    pub fn take_resource(&mut self, name: &str) -> (r: Option<ScarceResource<A>>)
        ensures
            final(self)@ == old(self)@.remove(name@),
            r matches Some(res) ==> old(self)@.contains_key(name@) && res == old(self)@[name@],
            r is None ==> !old(self)@.contains_key(name@),
    {
        self.resources.remove(name)
    }

    /// Number of resources.
    pub fn num_resources(&self) -> (n: usize)
        ensures
            self@.dom().finite(),
            n == self@.len(),
    {
        self.resources.len()
    }

    /// Releases everything `consumer` holds, in every resource.
    pub fn release_all(&mut self, consumer: &str)
        ensures
            final(self)@.dom() == old(self)@.dom(),
            forall|k: Seq<char>| #[trigger] old(self)@.contains_key(k) ==> released(old(self)@[k], final(self)@[k], consumer@),
    {
        let ghost start = self@;
        let mut names: Vec<String> = Vec::new();
        let listed = self.resources.entries();
        let n = listed.len();
        let mut i: usize = 0;
        while i < n
            invariant
                i <= n,
                n == listed@.len(),
                names@.len() == i,
                forall|j: int| 0 <= j < i ==> #[trigger] names@[j]@ == listed@[j].0@,
            decreases n - i,
        {
            let name = listed[i].0.clone();
            names.push(name);
            i = i + 1;
        }
        proof {
            assert forall|j: int, l: int| 0 <= j < l < n implies names@[j]@ != names@[l]@ by {
                assert(names@[j]@ == listed@[j].0@ && names@[l]@ == listed@[l].0@);
            }
            assert forall|j: int| 0 <= j < n implies #[trigger] start.contains_key(names@[j]@) by {
                assert(names@[j]@ == listed@[j].0@);
            }
            assert forall|key: Seq<char>| #[trigger] start.contains_key(key) implies exists|j: int| 0 <= j < n && names@[j]@ == key by {
                let j = choose|j: int| 0 <= j < listed@.len() && listed@[j].0@ == key;
                assert(names@[j]@ == key);
            }
        }
        let mut k: usize = 0;
        while k < n
            invariant
                k <= n,
                names@.len() == n,
                n == start.len(),
                forall|j: int| 0 <= j < n ==> #[trigger] start.contains_key(names@[j]@),
                forall|j: int, l: int| 0 <= j < l < n ==> names@[j]@ != names@[l]@,
                forall|key: Seq<char>| #[trigger] start.contains_key(key) ==> exists|j: int| 0 <= j < n && names@[j]@ == key,
                self@.dom() == start.dom(),
                forall|j: int| 0 <= j < k ==> released(start[#[trigger] names@[j]@], self@[names@[j]@], consumer@),
                forall|j: int| k <= j < n ==> self@[#[trigger] names@[j]@] == start[names@[j]@],
            decreases n - k,
        {
            let ghost before = self@;
            let name = names[k].as_str();
            match self.resources.remove(name) {
                Some(mut res) => {
                    res.release(consumer);
                    self.resources.insert(name, res);
                    proof {
                        assert(self@ =~= before.insert(names@[k as int]@, res));
                        assert forall|j: int| 0 <= j < n && j != k implies self@[#[trigger] names@[j]@] == before[names@[j]@] by {
                            if j < k {
                                assert(names@[j]@ != names@[k as int]@);
                            } else {
                                assert(names@[k as int]@ != names@[j]@);
                            }
                        }
                    }
                },
                None => {
                    assert(start.contains_key(names@[k as int]@));
                },
            }
            k = k + 1;
        }
        proof {
            assert forall|key: Seq<char>| #[trigger] start.contains_key(key) implies released(start[key], self@[key], consumer@) by {
                let j = choose|j: int| 0 <= j < n && names@[j]@ == key;
                assert(released(start[names@[j]@], self@[names@[j]@], consumer@));
            }
        }
    }
}

/// Once everything a consumer holds has been released from every resource,
/// it holds nothing anywhere, and every other consumer holds exactly what it
/// held before.
pub proof fn lemma_release_all_frees_only_consumer<A>(
    before: Map<Seq<char>, ScarceResource<A>>,
    after: Map<Seq<char>, ScarceResource<A>>,
    consumer: Seq<char>,
)
    requires
        after.dom() == before.dom(),
        forall|k: Seq<char>| #[trigger] before.contains_key(k) ==> released(before[k], after[k], consumer),
    ensures
        forall|k: Seq<char>| #[trigger] after.contains_key(k) ==> !after[k].consumers@.contains_key(consumer),
        forall|k: Seq<char>, c: Seq<char>|
            before.contains_key(k) && c != consumer ==> {
                &&& #[trigger] after[k].consumers@.contains_key(c) == before[k].consumers@.contains_key(c)
                &&& after[k].consumers@.contains_key(c) ==> after[k].consumers@[c] == before[k].consumers@[c]
            },
{
    assert forall|k: Seq<char>| #[trigger] after.contains_key(k) implies !after[k].consumers@.contains_key(consumer) by {
        assert(before.contains_key(k));
    }
}

impl<A> Default for ResourceArena<A> {
    /// An arena without resources.
    fn default() -> (a: Self)
        ensures
            a@ == Map::<Seq<char>, ScarceResource<A>>::empty(),
    {
        Self::new()
    }
}

} // verus!
