use vstd::prelude::*;
use std::collections::VecDeque;

verus! {

/// Largest number of samples a history keeps.
pub const CAPACITY: usize = 1000;

/// A timestamp (microseconds since start) paired with a value.
pub type Sample<V> = (u64, V);

/// The last `CAPACITY` samples of `s`, in order.
pub open spec fn capped<V>(s: Seq<Sample<V>>) -> Seq<Sample<V>> {
    if s.len() > CAPACITY {
        s.subrange(s.len() - CAPACITY, s.len() as int)
    } else {
        s
    }
}

/// A sample taken at `t` lies beyond `horizon` microseconds as seen at `now`.
pub open spec fn is_stale(t: u64, now: u64, horizon: u64) -> bool {
    now as int - t as int > horizon as int
}

/// `s` with its leading stale samples dropped.
pub open spec fn pruned<V>(s: Seq<Sample<V>>, now: u64, horizon: u64) -> Seq<Sample<V>>
    decreases s.len(),
{
    if s.len() > 0 && is_stale(s[0].0, now, horizon) {
        pruned(s.drop_first(), now, horizon)
    } else {
        s
    }
}

/// Timestamps never decrease along `s`.
pub open spec fn sorted_times<V>(s: Seq<Sample<V>>) -> bool {
    forall|i: int, j: int| 0 <= i <= j < s.len() ==> s[i].0 <= s[j].0
}

/// A sample at `t` may be appended to `s` without breaking the order.
pub open spec fn admits_time<V>(s: Seq<Sample<V>>, t: u64) -> bool {
    s.len() == 0 || s.last().0 <= t
}

/// A time-ordered sequence of samples, bounded by `CAPACITY`.
pub struct History<V> {
    entries: VecDeque<Sample<V>>,
}

impl<V> View for History<V> {
    type V = Seq<Sample<V>>;

    closed spec fn view(&self) -> Seq<Sample<V>> {
        self.entries@
    }
}

/// Pruning keeps whatever a later sample may be appended after.
pub proof fn lemma_pruned_admits<V>(s: Seq<Sample<V>>, now: u64, horizon: u64, t: u64)
    requires
        admits_time(s, t),
    ensures
        admits_time(pruned(s, now, horizon), t),
    decreases s.len(),
{
    if s.len() > 0 && is_stale(s[0].0, now, horizon) {
        if s.len() > 1 {
            assert(s.drop_first().last() == s.last());
        }
        lemma_pruned_admits(s.drop_first(), now, horizon, t);
    }
}

/// Pruning twice at the same instant and horizon prunes nothing more than
/// pruning once; and a history with no stale sample is left as it is.
pub proof fn lemma_prune_idempotent<V>(s: Seq<Sample<V>>, now: u64, horizon: u64)
    ensures
        pruned(pruned(s, now, horizon), now, horizon) == pruned(s, now, horizon),
        (forall|i: int| 0 <= i < s.len() ==> !is_stale(#[trigger] s[i].0, now, horizon))
            ==> pruned(s, now, horizon) == s,
    decreases s.len(),
{
    if s.len() > 0 && is_stale(s[0].0, now, horizon) {
        lemma_prune_idempotent(s.drop_first(), now, horizon);
    }
}

/// `s` with each of `items` appended in turn, as `History::push` does.
pub open spec fn push_all<V>(s: Seq<Sample<V>>, items: Seq<Sample<V>>) -> Seq<Sample<V>>
    decreases items.len(),
{
    if items.len() == 0 {
        s
    } else {
        capped(push_all(s, items.drop_last()).push(items.last()))
    }
}

proof fn lemma_capped_push<V>(a: Seq<Sample<V>>, x: Sample<V>)
    ensures
        capped(capped(a).push(x)) == capped(a.push(x)),
{
    if a.len() > CAPACITY {
        assert(capped(capped(a).push(x)) =~= capped(a.push(x)));
    }
}

/// Appending samples one at a time to a bounded history leaves exactly the
/// last `CAPACITY` of all samples, oldest first.
pub proof fn lemma_capacity_bound<V>(s: Seq<Sample<V>>, items: Seq<Sample<V>>)
    requires
        s.len() <= CAPACITY,
    ensures
        push_all(s, items) == capped(s + items),
        push_all(s, items).len() == if s.len() + items.len() > CAPACITY {
            CAPACITY as int
        } else {
            s.len() + items.len() as int
        },
    decreases items.len(),
{
    if items.len() == 0 {
        assert(s + items =~= s);
    } else {
        lemma_capacity_bound(s, items.drop_last());
        lemma_capped_push(s + items.drop_last(), items.last());
        assert((s + items.drop_last()).push(items.last()) =~= s + items);
    }
}

impl<V> History<V> {
    /// Well-formed: within capacity and ordered by time.
    pub open spec fn wf(&self) -> bool {
        &&& self@.len() <= CAPACITY
        &&& sorted_times(self@)
    }

    pub fn new() -> (r: Self)
        ensures
            r.wf(),
            r@ == Seq::<Sample<V>>::empty(),
    {
        History { entries: VecDeque::new() }
    }

    pub fn len(&self) -> (r: usize)
        ensures
            r == self@.len(),
    {
        self.entries.len()
    }

    /// The sample at position `i`, oldest first.
    pub fn get(&self, i: usize) -> (r: &Sample<V>)
        requires
            i < self@.len(),
        ensures
            *r == self@[i as int],
    {
        &self.entries[i]
    }

    /// Whether a sample at `t` may be appended.
    pub fn admits(&self, t: u64) -> (r: bool)
        ensures
            r == admits_time(self@, t),
    {
        let n = self.entries.len();
        if n == 0 {
            true
        } else {
            self.entries[n - 1].0 <= t
        }
    }

    /// Appends a sample and drops the oldest one when over capacity.
    pub fn push(&mut self, t: u64, v: V)
        requires
            old(self).wf(),
            admits_time(old(self)@, t),
        ensures
            final(self).wf(),
            final(self)@ == capped(old(self)@.push((t, v))),
    {
        self.entries.push_back((t, v));
        if self.entries.len() > CAPACITY {
            let _ = self.entries.pop_front();
        }
    }

    /// Drops the leading samples older than `horizon` microseconds before `now`.
    pub fn prune(&mut self, now: u64, horizon: u64)
        requires
            old(self).wf(),
        ensures
            final(self).wf(),
            final(self)@ == pruned(old(self)@, now, horizon),
    {
        loop
            invariant
                self.wf(),
                pruned(self@, now, horizon) == pruned(old(self)@, now, horizon),
            ensures
                self.wf(),
                self@ == pruned(old(self)@, now, horizon),
            decreases self@.len(),
        {
            let n = self.entries.len();
            if n == 0 {
                assert(pruned(self@, now, horizon) == self@);
                break;
            }
            let t = self.entries[0].0;
            if now > t && now - t > horizon {
                let ghost before = self@;
                let _ = self.entries.pop_front();
                assert(self@ =~= before.drop_first());
            } else {
                assert(pruned(self@, now, horizon) == self@);
                break;
            }
        }
    }
}

} // verus!
