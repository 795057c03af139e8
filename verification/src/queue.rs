//! A work queue ordered by urgency.
//!
//! Entries keep the order in which they were enqueued. Every operation that
//! depends on urgency takes the ranks of the entries' priorities at the moment
//! of the call, position by position.
use vstd::prelude::*;
use crate::order::{trails, is_stable_descending, stable_descending_order, last_max,
    lemma_trails_unique, lemma_stable_descending_unique, lemma_stable_descending_exists};

verus! {

/// An entry of the queue: an identifier and what is queued under it.
#[derive(Debug, Clone)]
pub struct QueueEntry<T> {
    pub id: String,
    pub item: T,
}

/// A queue of entries served highest priority first.
#[derive(Debug, Clone)]
pub struct PriorityQueue<T> {
    entries: Vec<QueueEntry<T>>,
}

impl<T> View for PriorityQueue<T> {
    type V = Seq<QueueEntry<T>>;

    /// The entries, in the order in which they were enqueued.
    closed spec fn view(&self) -> Seq<QueueEntry<T>> {
        self.entries@
    }
}

/// The position served next among entries ranked by `s`: the highest rank,
/// and the latest position among equal highest ranks.
pub open spec fn next_served(s: Seq<u64>) -> int {
    choose|i: int| trails(s, i)
}

/// The positions of entries ranked by `s` in serving order: highest rank
/// first, earlier entries first among equal ranks.
pub open spec fn serving_order(s: Seq<u64>) -> Seq<usize> {
    choose|o: Seq<usize>| is_stable_descending(s, o)
}

/// `i` is the first position of `q` whose entry carries the identifier `id`.
pub open spec fn first_with_id<T>(q: Seq<QueueEntry<T>>, id: Seq<char>, i: int) -> bool {
    &&& 0 <= i < q.len()
    &&& q[i].id@ == id
    &&& forall|j: int| 0 <= j < i ==> q[j].id@ != id
}

/// Some entry of `q` carries the identifier `id`.
pub open spec fn has_id<T>(q: Seq<QueueEntry<T>>, id: Seq<char>) -> bool {
    exists|j: int| 0 <= j < q.len() && q[j].id@ == id
}

/// A non-empty sequence of ranks has a position served next.
pub proof fn lemma_next_served(s: Seq<u64>)
    requires
        s.len() > 0,
    ensures
        trails(s, next_served(s)),
    decreases s.len(),
{
    if s.len() == 1 {
        assert(trails(s, 0));
    } else {
        let t = s.drop_last();
        lemma_next_served(t);
        let i = next_served(t);
        let last = s.len() - 1;
        if s[last] >= s[i] {
            assert forall|j: int| 0 <= j < s.len() implies s[j] <= s[last] by {
                if j < last {
                    assert(t[j] == s[j]);
                    assert(t[j] <= t[i]);
                }
            }
            assert(trails(s, last));
        } else {
            assert(t[i] == s[i]);
            assert forall|j: int| 0 <= j < s.len() implies s[j] <= s[i] by {
                if j < last {
                    assert(t[j] == s[j]);
                }
            }
            assert forall|j: int| i < j < s.len() implies s[j] < s[i] by {
                if j < last {
                    assert(t[j] == s[j]);
                }
            }
            assert(trails(s, i));
        }
    }
}

/// Every sequence of ranks has a serving order.
pub proof fn lemma_serving_order(s: Seq<u64>)
    requires
        s.len() <= usize::MAX,
    ensures
        is_stable_descending(s, serving_order(s)),
{
    lemma_stable_descending_exists(s);
}

/// The entry served first in the sorted order has the same priority as the
/// entry that `dequeue` and `peek` select.
pub proof fn lemma_sorted_head_ties_with_next_served(s: Seq<u64>)
    requires
        0 < s.len() <= usize::MAX,
    ensures
        s[serving_order(s)[0] as int] == s[next_served(s)],
{
    lemma_serving_order(s);
    lemma_next_served(s);
    let o = serving_order(s);
    let h = o[0] as int;
    let n = next_served(s);
    assert(crate::order::lists(o, n));
    let k = choose|k: int| 0 <= k < o.len() && o[k] == n;
    if k > 0 {
        assert(crate::order::ranked_before(s, o[0] as int, o[k] as int));
    }
    assert(o[0] < s.len());
    assert(s[h] <= s[n]);
}

/// Enqueueing an entry under an identifier no other entry carries, then
/// removing that identifier, gives back the entry and leaves the queue as it
/// was.
pub proof fn lemma_remove_undoes_enqueue<T>(q: Seq<QueueEntry<T>>, e: QueueEntry<T>)
    requires
        !has_id(q, e.id@),
    ensures
        first_with_id(q.push(e), e.id@, q.len() as int),
        q.push(e).remove(q.len() as int) == q,
{
    assert forall|j: int| 0 <= j < q.len() implies q.push(e)[j].id@ != e.id@ by {
        assert(q.push(e)[j] == q[j]);
    }
    assert(q.push(e).remove(q.len() as int) =~= q);
}

impl<T> PriorityQueue<T> {
    /// Creates an empty queue.
    pub fn new() -> (q: Self)
        ensures
            q@ == Seq::<QueueEntry<T>>::empty(),
    {
        PriorityQueue { entries: Vec::new() }
    }

    /// Adds an entry at the back of the queue.
    pub fn enqueue(&mut self, entry: QueueEntry<T>)
        ensures
            final(self)@ == old(self)@.push(entry),
    {
        self.entries.push(entry);
    }

    /// Number of entries in the queue.
    pub fn len(&self) -> (n: usize)
        ensures
            n == self@.len(),
    {
        self.entries.len()
    }

    /// The entries, in the order in which they were enqueued; position `i`
    /// here is position `i` of the ranks that the other operations take.
    pub fn entries(&self) -> (r: &Vec<QueueEntry<T>>)
        ensures
            r@ == self@,
    {
        &self.entries
    }

    /// Whether the queue has no entry.
    pub fn is_empty(&self) -> (b: bool)
        ensures
            b <==> self@.len() == 0,
    {
        self.entries.len() == 0
    }

    /// Removes and returns the entry of highest priority (the latest one
    /// among equals), where `ranks[i]` ranks the priority of the `i`-th entry.
    /// An empty queue gives `None`.
    pub fn dequeue(&mut self, ranks: &Vec<u64>) -> (r: Option<QueueEntry<T>>)
        requires
            ranks@.len() == old(self)@.len(),
        ensures
            r is None <==> old(self)@.len() == 0,
            r is None ==> final(self)@ == old(self)@,
            r matches Some(e) ==> {
                &&& trails(ranks@, next_served(ranks@))
                &&& e == old(self)@[next_served(ranks@)]
                &&& final(self)@ == old(self)@.remove(next_served(ranks@))
            },
    {
        if self.entries.len() == 0 {
            return None;
        }
        let i = last_max(ranks);
        proof {
            lemma_next_served(ranks@);
            lemma_trails_unique(ranks@, i as int, next_served(ranks@));
        }
        Some(self.entries.remove(i))
    }

    /// The entry that `dequeue` would remove with the same ranks, left in place.
    pub fn peek(&self, ranks: &Vec<u64>) -> (r: Option<&QueueEntry<T>>)
        requires
            ranks@.len() == self@.len(),
        ensures
            r is None <==> self@.len() == 0,
            r matches Some(e) ==> {
                &&& trails(ranks@, next_served(ranks@))
                &&& *e == self@[next_served(ranks@)]
            },
    {
        if self.entries.len() == 0 {
            return None;
        }
        let i = last_max(ranks);
        proof {
            lemma_next_served(ranks@);
            lemma_trails_unique(ranks@, i as int, next_served(ranks@));
        }
        Some(&self.entries[i])
    }

    /// Removes and returns the first entry carrying `id`; `None`, with the
    /// queue unchanged, when no entry carries it.
    pub fn remove(&mut self, id: &str) -> (r: Option<QueueEntry<T>>)
        ensures
            r is None <==> !has_id(old(self)@, id@),
            r is None ==> final(self)@ == old(self)@,
            r matches Some(e) ==> exists|i: int| {
                &&& first_with_id(old(self)@, id@, i)
                &&& e == old(self)@[i]
                &&& final(self)@ == old(self)@.remove(i)
            },
    {
        let wanted = id.to_owned();
        let mut i: usize = 0;
        while i < self.entries.len()
            invariant
                i <= self@.len(),
                self@ == old(self)@,
                wanted@ == id@,
                forall|j: int| 0 <= j < i ==> self@[j].id@ != id@,
            decreases self@.len() - i,
        {
            if self.entries[i].id == wanted {
                let ghost before = self@;
                let e = self.entries.remove(i);
                assert(first_with_id(before, id@, i as int));
                assert(has_id(before, id@));
                return Some(e);
            }
            i = i + 1;
        }
        proof {
            if has_id(self@, id@) {
                let j = choose|j: int| 0 <= j < self@.len() && self@[j].id@ == id@;
                assert(self@[j].id@ != id@);
            }
        }
        None
    }

    /// Every entry, in serving order: highest priority first, earlier entries
    /// first among equals, where `ranks[i]` ranks the priority of the `i`-th
    /// entry.
    pub fn sorted(&self, ranks: &Vec<u64>) -> (r: Vec<&QueueEntry<T>>)
        requires
            ranks@.len() == self@.len(),
        ensures
            is_stable_descending(ranks@, serving_order(ranks@)),
            r@.len() == self@.len(),
            forall|k: int| 0 <= k < r@.len() ==> *r@[k] == self@[serving_order(ranks@)[k] as int],
    {
        let order = stable_descending_order(ranks);
        proof {
            lemma_stable_descending_unique(ranks@, order@, serving_order(ranks@));
        }
        let mut r: Vec<&QueueEntry<T>> = Vec::new();
        let mut k: usize = 0;
        while k < order.len()
            invariant
                k <= order@.len(),
                order@ == serving_order(ranks@),
                is_stable_descending(ranks@, order@),
                ranks@.len() == self@.len(),
                r@.len() == k,
                forall|m: int| 0 <= m < k ==> *r@[m] == self@[order@[m] as int],
            decreases order@.len() - k,
        {
            r.push(&self.entries[order[k]]);
            k = k + 1;
        }
        r
    }
}

impl<T> Default for PriorityQueue<T> {
    /// An empty queue.
    fn default() -> (q: Self)
        ensures
            q@ == Seq::<QueueEntry<T>>::empty(),
    {
        Self::new()
    }
}

} // verus!
