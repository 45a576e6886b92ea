//! The recent history of readings drawn as charts: samples in strictly increasing time order,
//! at most a fixed number of them.
use std::collections::VecDeque;
use vstd::prelude::*;

verus! {

/// How many samples a history keeps (fifteen minutes at one sample a second).
pub const CAPACITY: usize = 900;

/// Timed samples, oldest first. `T` is what one sample holds.
pub struct History<T> {
    samples: VecDeque<(u64, T)>,
}

/// The timestamps of `s` are positive and strictly increasing, and there are at most
/// `CAPACITY` of them.
pub open spec fn well_ordered<T>(s: Seq<(u64, T)>) -> bool {
    &&& s.len() <= CAPACITY
    &&& forall|i: int| 0 <= i < s.len() ==> #[trigger] s[i].0 > 0
    &&& forall|i: int, j: int| 0 <= i < j < s.len() ==> s[i].0 < s[j].0
}

/// The samples after a push of `(at, sample)` onto `s`: unchanged when `at` is zero or not
/// newer than the newest sample; otherwise appended, dropping the oldest beyond `CAPACITY`.
pub open spec fn pushed<T>(s: Seq<(u64, T)>, at: u64, sample: T) -> Seq<(u64, T)> {
    if at == 0 || (s.len() > 0 && s.last().0 >= at) {
        s
    } else if s.len() + 1 > CAPACITY {
        s.push((at, sample)).drop_first()
    } else {
        s.push((at, sample))
    }
}

/// A push keeps a history in order: timestamps positive and strictly increasing, at most
/// `CAPACITY` samples; a sample no newer than the newest one changes nothing, and any other
/// becomes the newest sample.
pub proof fn law_push_keeps_order<T>(s: Seq<(u64, T)>, at: u64, sample: T)
    requires
        well_ordered(s),
    ensures
        well_ordered(pushed(s, at, sample)),
        at == 0 || (s.len() > 0 && s.last().0 >= at) ==> pushed(s, at, sample) == s,
        at > 0 && (s.len() == 0 || s.last().0 < at) ==> pushed(s, at, sample).last() == (at, sample),
{
    if !(at == 0 || (s.len() > 0 && s.last().0 >= at)) {
        let p = s.push((at, sample));
        assert(forall|i: int| 0 <= i < s.len() ==> #[trigger] p[i] == s[i]);
        assert(forall|i: int, j: int| 0 <= i < j < p.len() ==> p[i].0 < p[j].0) by {
            assert forall|i: int, j: int| 0 <= i < j < p.len() implies p[i].0 < p[j].0 by {
                if j == s.len() && i < s.len() && s.len() > 0 {
                    assert(s[i].0 <= s.last().0);
                }
            }
        }
    }
}

impl<T> View for History<T> {
    type V = Seq<(u64, T)>;

    closed spec fn view(&self) -> Seq<(u64, T)> {
        self.samples@
    }
}

impl<T> History<T> {
    #[verifier::type_invariant]
    closed spec fn ordered(self) -> bool {
        well_ordered(self.samples@)
    }

    /// An empty history.
    pub fn new() -> (h: Self)
        ensures
            h@ == Seq::<(u64, T)>::empty(),
            well_ordered(h@),
    {
        History { samples: VecDeque::with_capacity(CAPACITY) }
    }

    /// Adds a sample taken at `at` (seconds since the epoch; 0 when unknown).
    pub fn push(&mut self, at: u64, sample: T)
        ensures
            well_ordered(old(self)@),
            final(self)@ == pushed(old(self)@, at, sample),
            well_ordered(final(self)@),
    {
        proof { use_type_invariant(&*self); }
        let n = self.samples.len();
        if at == 0 || (n > 0 && self.samples[n - 1].0 >= at) {
            return;
        }
        let mut s = VecDeque::new();
        std::mem::swap(&mut s, &mut self.samples);
        let ghost before = s@;
        s.push_back((at, sample));
        if s.len() > CAPACITY {
            let _ = s.pop_front();
            assert(s@ =~= before.push((at, sample)).drop_first());
        }
        assert(well_ordered(s@));
        self.samples = s;
    }

    /// The number of samples.
    pub fn len(&self) -> (n: usize)
        ensures
            n == self@.len(),
    {
        self.samples.len()
    }

    /// The timestamp of sample `i`.
    pub fn timestamp(&self, i: usize) -> (t: u64)
        requires
            i < self@.len(),
        ensures
            t == self@[i as int].0,
    {
        self.samples[i].0
    }

    /// Sample `i`.
    pub fn sample(&self, i: usize) -> (s: &T)
        requires
            i < self@.len(),
        ensures
            *s == self@[i as int].1,
    {
        &self.samples[i].1
    }

    /// `draw`, selection part: the index of the first sample of the last `minutes` minutes
    /// before the newest one (none when there are no samples); the samples from it on are
    /// exactly those no older than that limit.
    pub fn recent_start(&self, minutes: u64) -> (k: Option<usize>)
        requires
            minutes * 60 <= u64::MAX,
        ensures
            match k {
                None => self@.len() == 0,
                Some(k) => {
                    let last = self@.last().0;
                    let from = if last >= minutes * 60 { last - minutes * 60 } else { 0 };
                    &&& self@.len() > 0
                    &&& k < self@.len()
                    &&& forall|i: int| 0 <= i < self@.len() ==> (self@[i].0 >= from <==> i >= k)
                },
            },
    {
        proof { use_type_invariant(self); }
        let n = self.samples.len();
        if n == 0 {
            return None;
        }
        let last = self.samples[n - 1].0;
        let span = minutes * 60;
        let from = if last >= span { last - span } else { 0 };
        let mut k: usize = 0;
        while k < n && self.samples[k].0 < from
            invariant
                n == self.samples@.len(),
                n > 0,
                k <= n,
                well_ordered(self.samples@),
                last == self.samples@[n - 1].0,
                from <= last,
                forall|i: int| 0 <= i < k ==> #[trigger] self.samples@[i].0 < from,
            decreases n - k,
        {
            k = k + 1;
        }
        proof {
            assert forall|i: int| 0 <= i < n implies (self.samples@[i].0 >= from <==> i >= k) by {
                if i >= k && k < n {
                    if i > k {
                        assert(self.samples@[k as int].0 < self.samples@[i].0);
                    }
                }
            }
        }
        Some(k)
    }
}

/// Whether a snapshot is fresh: the clock and its timestamp are both known (seconds since the
/// epoch) and it is at most 4 s old; a timestamp ahead of the clock counts as fresh.
pub open spec fn fresh(now: Option<u64>, timestamp: Option<u64>) -> bool {
    match (now, timestamp) {
        (Some(n), Some(t)) => n <= t || n - t <= 4,
        _ => false,
    }
}

/// The live indicator: whether a snapshot taken at `timestamp` is fresh at `now`.
pub fn is_fresh(now: Option<u64>, timestamp: Option<u64>) -> (r: bool)
    ensures
        r == fresh(now, timestamp),
{
    match (now, timestamp) {
        (Some(n), Some(t)) => n <= t || n - t <= 4,
        _ => false,
    }
}

} // verus!
