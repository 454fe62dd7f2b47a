//! A bounded history ledger: an ordered sequence of snapshots that keeps at
//! most a configured number of entries, discarding the oldest first.

use vstd::prelude::*;

verus! {

/// The entries after recording `x`: `x` is appended, and the oldest entry
/// is dropped when that takes the ledger over `limit`.
pub open spec fn recorded<T>(entries: Seq<T>, limit: nat, x: T) -> Seq<T> {
    let e = entries.push(x);
    if e.len() > limit {
        e.drop_first()
    } else {
        e
    }
}

/// The entries after recording each of `xs` in turn.
pub open spec fn recorded_all<T>(entries: Seq<T>, limit: nat, xs: Seq<T>) -> Seq<T>
    decreases xs.len(),
{
    if xs.len() == 0 {
        entries
    } else {
        recorded(recorded_all(entries, limit, xs.drop_last()), limit, xs.last())
    }
}

/// A ledger never exceeds its limit, however many entries are recorded: after
/// recording `xs` it holds exactly the newest `min(total, limit)` of its
/// earlier entries followed by `xs`, so each entry beyond the limit pushed out
/// the oldest one.
pub proof fn lemma_recorded_all_bounded<T>(entries: Seq<T>, limit: nat, xs: Seq<T>)
    requires
        limit >= 1,
        entries.len() <= limit,
    ensures
        recorded_all(entries, limit, xs).len() <= limit,
        ({
            let total = entries.len() + xs.len() as int;
            let kept = if total < limit {
                total
            } else {
                limit as int
            };
            recorded_all(entries, limit, xs) == (entries + xs).subrange(total - kept, total)
        }),
    decreases xs.len(),
{
    let total = entries.len() + xs.len() as int;
    if xs.len() == 0 {
        assert((entries + xs).subrange(0, total) =~= entries);
    } else {
        let prev = xs.drop_last();
        lemma_recorded_all_bounded(entries, limit, prev);
        let t0 = entries.len() + prev.len() as int;
        let k0 = if t0 < limit {
            t0
        } else {
            limit as int
        };
        let before = recorded_all(entries, limit, prev);
        assert(before == (entries + prev).subrange(t0 - k0, t0));
        assert(before.push(xs.last()) =~= (entries + xs).subrange(t0 - k0, total));
        if k0 + 1 > limit {
            assert(before.push(xs.last()).drop_first() =~= (entries + xs).subrange(
                total - limit,
                total,
            ));
        }
    }
}

/// A ledger of snapshots holding at most `max_len` entries (at least one
/// after a restart, even when `max_len` is 0).
#[derive(Debug, Clone)]
pub struct History<T> {
    entries: Vec<T>,
    max_len: usize,
}

impl<T> View for History<T> {
    type V = Seq<T>;

    closed spec fn view(&self) -> Seq<T> {
        self.entries@
    }
}

impl<T> History<T> {
    /// The configured maximum length.
    pub closed spec fn limit(&self) -> nat {
        self.max_len as nat
    }

    /// At most `limit` entries, or a single one.
    pub open spec fn well_formed(&self) -> bool {
        self@.len() <= self.limit() || self@.len() <= 1
    }

    /// An empty ledger keeping at most `max_len` entries.
    pub fn new(max_len: usize) -> (r: Self)
        ensures
            r@ == Seq::<T>::empty(),
            r.limit() == max_len,
            r.well_formed(),
    {
        History { entries: Vec::new(), max_len }
    }

    /// The configured maximum length.
    pub fn max_len(&self) -> (r: usize)
        ensures
            r == self.limit(),
    {
        self.max_len
    }

    /// The entries, oldest first.
    pub fn entries(&self) -> (r: &[T])
        ensures
            r@ == self@,
    {
        self.entries.as_slice()
    }

    /// The number of entries.
    pub fn len(&self) -> (r: usize)
        ensures
            r == self@.len(),
    {
        self.entries.len()
    }

    /// Appends `x`, dropping the oldest entry when the ledger goes over its limit.
    /// A ledger built by `new`, `record` and `restart` is always well formed.
    pub fn record(&mut self, x: T)
        requires
            old(self).well_formed(),
        ensures
            final(self).well_formed(),
            final(self)@ == recorded(old(self)@, old(self).limit(), x),
            final(self).limit() == old(self).limit(),
    {
        self.entries.push(x);
        if self.entries.len() > self.max_len {
            self.entries.remove(0);
        }
        proof {
            assert(self@ =~= recorded(old(self)@, old(self).limit(), x));
        }
    }

    /// Discards every entry and starts again from `x` alone.
    pub fn restart(&mut self, x: T)
        ensures
            final(self)@ == seq![x],
            final(self).limit() == old(self).limit(),
            final(self).well_formed(),
    {
        self.entries.clear();
        self.entries.push(x);
        assert(self@ =~= seq![x]);
    }
}

} // verus!
