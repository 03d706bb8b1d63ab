//! A sliding-window rate throttle shared by all outbound API calls.
//!
//! The throttle admits at most `rate` calls within any window of `interval`
//! nanoseconds. It keeps a time-ordered history of recent admissions; a call
//! is admitted when, after pruning entries older than `now - interval`, fewer
//! than `rate` entries remain. Otherwise the caller is told the earliest
//! instant at which retrying can succeed; the caller waits and asks again
//! (several blocked callers may race for the same freed slot, so admission is
//! re-checked on every attempt and no FIFO order is guaranteed).

use std::collections::VecDeque;
use vstd::prelude::*;

verus! {

/// Number of entries of `s` that are at least `lo`.
pub open spec fn count_at_least(s: Seq<u64>, lo: int) -> int
    decreases s.len(),
{
    if s.len() == 0 {
        0
    } else {
        count_at_least(s.drop_last(), lo) + if s.last() as int >= lo {
            1int
        } else {
            0int
        }
    }
}

/// Number of entries of `s` inside the closed window `[lo, hi]`.
pub open spec fn count_in_window(s: Seq<u64>, lo: int, hi: int) -> int
    decreases s.len(),
{
    if s.len() == 0 {
        0
    } else {
        count_in_window(s.drop_last(), lo, hi) + if lo <= s.last() as int <= hi {
            1int
        } else {
            0int
        }
    }
}

pub open spec fn sorted_ascending(s: Seq<u64>) -> bool {
    forall|i: int, j: int| 0 <= i <= j < s.len() ==> s[i] <= s[j]
}

/// Number of leading entries of `s` strictly below `cutoff`.
pub open spec fn stale_prefix_len(s: Seq<u64>, cutoff: u64) -> int
    decreases s.len(),
{
    if s.len() == 0 {
        0
    } else if s[0] < cutoff {
        1 + stale_prefix_len(s.skip(1), cutoff)
    } else {
        0
    }
}

/// The clock value the throttle works with: raw clock readings are clamped so
/// that time never moves backwards inside the throttle's reasoning.
pub open spec fn clamp_time(last: u64, now: u64) -> u64 {
    if now > last {
        now
    } else {
        last
    }
}

/// The stale prefix lies within the sequence and consists of entries below
/// the cutoff.
proof fn lemma_stale_prefix_properties(s: Seq<u64>, cutoff: u64)
    ensures
        0 <= stale_prefix_len(s, cutoff) <= s.len(),
        forall|i: int| 0 <= i < stale_prefix_len(s, cutoff) ==> s[i] < cutoff,
    decreases s.len(),
{
    if s.len() == 0 {
    } else if s[0] < cutoff {
        lemma_stale_prefix_properties(s.skip(1), cutoff);
        let d = stale_prefix_len(s, cutoff);
        assert forall|i: int| 0 <= i < d implies s[i] < cutoff by {
            if i > 0 {
                assert(s.skip(1)[i - 1] == s[i]);
            }
        }
    } else {
    }
}

/// `stale_prefix_len` is the unique split point `k` such that everything
/// before `k` is below the cutoff and the entry at `k` (if any) is not.
proof fn lemma_stale_prefix_len_char(s: Seq<u64>, cutoff: u64, k: int)
    requires
        0 <= k <= s.len(),
        forall|i: int| 0 <= i < k ==> s[i] < cutoff,
        k < s.len() ==> s[k] >= cutoff,
    ensures
        stale_prefix_len(s, cutoff) == k,
    decreases s.len(),
{
    if k == 0 {
    } else {
        assert(s[0] < cutoff);
        let t = s.skip(1);
        assert forall|i: int| 0 <= i < k - 1 implies t[i] < cutoff by {
            assert(t[i] == s[i + 1]);
        }
        assert(k - 1 < t.len() ==> t[k - 1] >= cutoff);
        lemma_stale_prefix_len_char(t, cutoff, k - 1);
    }
}

/// If a sorted sequence splits at `cut` into entries below `lo` and entries at
/// or above `lo`, then exactly the suffix is counted by `count_at_least`.
proof fn lemma_count_at_least_split(s: Seq<u64>, lo: int, cut: int)
    requires
        0 <= cut <= s.len(),
        forall|i: int| 0 <= i < cut ==> (s[i] as int) < lo,
        forall|i: int| cut <= i < s.len() ==> (s[i] as int) >= lo,
    ensures
        count_at_least(s, lo) == s.len() - cut,
    decreases s.len(),
{
    if s.len() == 0 {
    } else {
        let t = s.drop_last();
        if cut == s.len() {
            lemma_count_at_least_split(t, lo, t.len() as int);
        } else {
            lemma_count_at_least_split(t, lo, cut);
        }
    }
}

/// Entries counted by `count_in_window(s, lo, hi)` are also counted by
/// `count_at_least(s, m)` whenever `m <= lo`.
proof fn lemma_window_le_count_at_least(s: Seq<u64>, lo: int, hi: int, m: int)
    requires
        m <= lo,
    ensures
        count_in_window(s, lo, hi) <= count_at_least(s, m),
    decreases s.len(),
{
    if s.len() == 0 {
    } else {
        lemma_window_le_count_at_least(s.drop_last(), lo, hi, m);
    }
}

/// A window lying strictly above every entry of `s` counts nothing.
proof fn lemma_window_above_all(s: Seq<u64>, lo: int, hi: int)
    requires
        forall|i: int| 0 <= i < s.len() ==> (s[i] as int) < lo,
    ensures
        count_in_window(s, lo, hi) == 0,
    decreases s.len(),
{
    if s.len() == 0 {
    } else {
        let t = s.drop_last();
        assert forall|i: int| 0 <= i < t.len() implies (t[i] as int) < lo by {
            assert(t[i] == s[i]);
        }
        lemma_window_above_all(t, lo, hi);
    }
}

/// From the per-admission bound (each admission sees at most `rate` admissions
/// in the window ending at itself) the bound follows for every window.
proof fn lemma_window_from_pointwise(s: Seq<u64>, rate: int, interval: int, lo: int)
    requires
        sorted_ascending(s),
        interval >= 0,
        rate >= 0,
        forall|i: int| 0 <= i < s.len() ==> count_at_least(
            #[trigger] s.take(i + 1),
            s[i] as int - interval,
        ) <= rate,
    ensures
        count_in_window(s, lo, lo + interval) <= rate,
    decreases s.len(),
{
    let hi = lo + interval;
    if s.len() == 0 {
    } else if (s.last() as int) < lo {
        // The last entry is the largest, so every entry is below the window.
        assert forall|i: int| 0 <= i < s.len() implies (s[i] as int) < lo by {
            assert(s[i] <= s.last());
        }
        lemma_window_above_all(s, lo, hi);
    } else if (s.last() as int) > hi {
        let t = s.drop_last();
        assert forall|i: int| 0 <= i < t.len() implies count_at_least(
            #[trigger] t.take(i + 1),
            t[i] as int - interval,
        ) <= rate by {
            assert(t.take(i + 1) =~= s.take(i + 1));
            assert(t[i] == s[i]);
        }
        lemma_window_from_pointwise(t, rate, interval, lo);
    } else {
        // The last entry lies in the window, so every entry in the window is
        // within `interval` of it and is counted by the per-admission bound.
        let n = s.len() as int;
        let m = s.last() as int - interval;
        assert(m <= lo);
        lemma_window_le_count_at_least(s, lo, hi, m);
        assert(count_at_least(s.take(n - 1 + 1), s[n - 1] as int - interval) <= rate);
        assert(s.take(n) =~= s);
        assert(count_at_least(s, m) <= rate);
    }
}

/// Prunes a sorted history of admission instants, removing those older than
/// `cutoff` from the front.
pub fn prune_history(history: &mut VecDeque<u64>, cutoff: u64)
    requires
        sorted_ascending(old(history)@),
    ensures
        final(history)@ == old(history)@.skip(stale_prefix_len(old(history)@, cutoff)),
        sorted_ascending(final(history)@),
        forall|i: int| 0 <= i < final(history)@.len() ==> final(history)@[i] >= cutoff,
{
    let ghost orig: Seq<u64> = history@;
    if history.len() == 0 {
        assert(history@ =~= orig.skip(0));
        return ;
    }
    while history.len() > 0 && history[0] < cutoff
        invariant
            sorted_ascending(orig),
            history@.len() <= orig.len(),
            history@ == orig.skip(orig.len() - history@.len()),
            forall|i: int| 0 <= i < orig.len() - history@.len() ==> orig[i] < cutoff,
        decreases history@.len(),
    {
        let ghost before: Seq<u64> = history@;
        let ghost k: int = orig.len() - before.len();
        history.pop_front();
        assert(history@ =~= orig.skip(k + 1)) by {
            assert(before == orig.skip(k));
            assert(before.skip(1) =~= orig.skip(k + 1));
        }
        assert forall|i: int| 0 <= i < k + 1 implies orig[i] < cutoff by {
            if i == k {
                assert(before[0] == orig[k]);
            }
        }
    }
    proof {
        let k = orig.len() - history@.len();
        if history@.len() > 0 {
            assert(orig[k] == history@[0]);
        }
        lemma_stale_prefix_len_char(orig, cutoff, k);
        assert forall|i: int| 0 <= i < history@.len() implies history@[i] >= cutoff by {
            assert(history@[0] >= cutoff);
            assert(orig[k] <= orig[k + i]);
        }
    }
}

/// A throttle limiting admissions to `rate` per sliding window of `interval`
/// nanoseconds. All timestamps are nanosecond readings of a monotone clock;
/// readings that move backwards are clamped to the latest one seen.
pub struct ThreadThrottler {
    rate: u32,
    interval: u64,
    history: VecDeque<u64>,
    last_seen: u64,
    admissions: Ghost<Seq<u64>>,
}

impl ThreadThrottler {
    pub closed spec fn rate(&self) -> u32 {
        self.rate
    }

    pub closed spec fn interval(&self) -> u64 {
        self.interval
    }

    /// Every admission instant this throttle ever granted, in order.
    pub closed spec fn admissions(&self) -> Seq<u64> {
        self.admissions@
    }

    /// The latest (clamped) clock reading the throttle has worked with.
    pub closed spec fn last_seen(&self) -> u64 {
        self.last_seen
    }

    pub closed spec fn wf(&self) -> bool {
        let adm = self.admissions@;
        let cut = adm.len() - self.history@.len();
        &&& self.rate >= 1
        &&& self.interval >= 1
        &&& sorted_ascending(adm)
        &&& forall|i: int| 0 <= i < adm.len() ==> adm[i] <= self.last_seen
        &&& self.history@.len() <= adm.len()
        &&& self.history@ == adm.skip(cut)
        &&& forall|i: int|
            0 <= i < cut ==> (adm[i] as int) + (self.interval as int) < self.last_seen as int
        &&& forall|i: int|
            0 <= i < adm.len() ==> count_at_least(
                #[trigger] adm.take(i + 1),
                adm[i] as int - self.interval as int,
            ) <= self.rate as int
    }

    /// Creates a new throttle that admits `rate` calls per `interval`
    /// nanoseconds. Rate and interval must both be positive.
    pub fn new(rate: u32, interval: u64) -> (tt: ThreadThrottler)
        requires
            rate > 0,
            interval > 0,
        ensures
            tt.wf(),
            tt.rate() == rate,
            tt.interval() == interval,
            tt.admissions() == Seq::<u64>::empty(),
            tt.last_seen() == 0,
    {
        let tt = ThreadThrottler {
            rate,
            interval,
            history: VecDeque::new(),
            last_seen: 0,
            admissions: Ghost(Seq::empty()),
        };
        proof {
            assert(tt.history@ =~= tt.admissions@.skip(0));
        }
        tt
    }

    /// One admission attempt at clock reading `now`.
    ///
    /// Returns `None` when the call is admitted immediately, recording the
    /// admission. Returns `Some(wake)` when the window is already full; the
    /// caller should wait until about `wake` and try again — waiters racing
    /// for the same freed slot are all re-checked, none is favoured.
    pub fn pass_through_or_block(&mut self, now: u64) -> (r: Option<u64>)
        requires
            old(self).wf(),
        ensures
            final(self).wf(),
            final(self).rate() == old(self).rate(),
            final(self).interval() == old(self).interval(),
            final(self).last_seen() == clamp_time(old(self).last_seen(), now),
            match r {
                None => final(self).admissions() == old(self).admissions().push(
                    final(self).last_seen(),
                ),
                Some(wake) => {
                    &&& final(self).admissions() == old(self).admissions()
                    &&& count_at_least(
                        final(self).admissions(),
                        final(self).last_seen() as int - final(self).interval() as int,
                    ) >= final(self).rate() as int
                    &&& wake >= final(self).last_seen()
                },
            },
    {
        let now_eff: u64 = if now > self.last_seen {
            now
        } else {
            self.last_seen
        };
        self.last_seen = now_eff;
        let cutoff: u64 = now_eff.saturating_sub(self.interval);
        let ghost pre: Seq<u64> = self.history@;
        let ghost adm: Seq<u64> = self.admissions@;
        prune_history(&mut self.history, cutoff);
        proof {
            // The pruned history is still a suffix of the admission log, and
            // every entry dropped so far is older than `now_eff - interval`.
            let oldcut = adm.len() - pre.len();
            let d = stale_prefix_len(pre, cutoff);
            lemma_stale_prefix_properties(pre, cutoff);
            assert(pre == adm.skip(oldcut));
            assert(self.history@ =~= adm.skip(oldcut + d)) by {
                assert forall|i: int| 0 <= i < pre.skip(d).len() implies pre.skip(d)[i] == adm.skip(
                    oldcut + d,
                )[i] by {
                    assert(pre.skip(d)[i] == pre[d + i]);
                    assert(pre[d + i] == adm.skip(oldcut)[d + i]);
                }
            }
            assert forall|i: int| 0 <= i < adm.len() - self.history@.len() implies (adm[i] as int)
                + (self.interval as int) < now_eff as int by {
                if i >= oldcut {
                    assert(adm.skip(oldcut)[i - oldcut] == adm[i]);
                    assert(pre[i - oldcut] < cutoff);
                }
            }
        }
        if self.history.len() < self.rate as usize {
            let ghost pruned: Seq<u64> = self.history@;
            self.history.push_back(now_eff);
            proof {
                let prev = self.admissions@;
                self.admissions@ = prev.push(now_eff);
                let adm2 = self.admissions@;
                let cut = adm2.len() - self.history@.len();
                assert(pruned == prev.skip(cut));
                assert(self.history@ =~= adm2.skip(cut)) by {
                    assert forall|i: int|
                        0 <= i < self.history@.len() implies self.history@[i] == adm2.skip(
                        cut,
                    )[i] by {
                        if i < self.history@.len() - 1 {
                            assert(self.history@[i] == pruned[i]);
                            assert(pruned[i] == prev.skip(cut)[i]);
                            assert(adm2[cut + i] == prev[cut + i]);
                        } else {
                            assert(self.history@[i] == now_eff);
                            assert(adm2[cut + i] == now_eff);
                        }
                    }
                }
                // The new admission's own window holds at most `rate` entries:
                // exactly the surviving history plus the admission itself.
                assert forall|i: int| 0 <= i < adm2.len() implies count_at_least(
                    #[trigger] adm2.take(i + 1),
                    adm2[i] as int - self.interval as int,
                ) <= self.rate as int by {
                    if i < prev.len() {
                        assert(adm2.take(i + 1) =~= prev.take(i + 1));
                    } else {
                        let lo = now_eff as int - self.interval as int;
                        assert(adm2.take(i + 1) =~= adm2);
                        assert forall|j: int| cut <= j < adm2.len() implies (
                        adm2[j] as int) >= lo by {
                            if j < adm2.len() - 1 {
                                assert(adm2[j] == self.history@[j - cut]);
                                assert(self.history@[j - cut] >= cutoff);
                            }
                        }
                        lemma_count_at_least_split(adm2, lo, cut);
                    }
                }
            }
            None
        } else {
            let wake: u64 = self.history[0].saturating_add(self.interval);
            proof {
                // The window ending now is already full.
                let lo = now_eff as int - self.interval as int;
                let adm2 = self.admissions@;
                let cut = adm2.len() - self.history@.len();
                assert forall|j: int| cut <= j < adm2.len() implies (adm2[j] as int) >= lo by {
                    assert(adm2[j] == self.history@[j - cut]);
                    assert(self.history@[j - cut] >= cutoff);
                }
                lemma_count_at_least_split(adm2, lo, cut);
                assert(self.history@[0] >= cutoff);
            }
            Some(wake)
        }
    }
}

/// Across any window of length `interval`, a well-formed throttle has admitted
/// at most `rate` calls: the process-wide sliding-window guarantee.
pub proof fn lemma_rate_limit_window(t: &ThreadThrottler, lo: int)
    requires
        t.wf(),
    ensures
        count_in_window(t.admissions(), lo, lo + t.interval() as int) <= t.rate() as int,
{
    lemma_window_from_pointwise(t.admissions(), t.rate() as int, t.interval() as int, lo);
}

} // verus!
