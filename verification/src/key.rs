//! A single API key together with its usage history.

use vstd::prelude::*;

use crate::policy::RateLimitPolicy;

verus! {

/// True when `s` never decreases from one position to a later one.
pub open spec fn nondecreasing(s: Seq<i64>) -> bool {
    forall|i: int, j: int| 0 <= i <= j < s.len() ==> s[i] <= s[j]
}

/// The least element of a non-empty sequence.
pub open spec fn seq_min(s: Seq<i64>) -> i64
    recommends
        s.len() >= 1,
    decreases s.len(),
{
    if s.len() <= 1 {
        s[0]
    } else if s.last() < seq_min(s.drop_last()) {
        s.last()
    } else {
        seq_min(s.drop_last())
    }
}

/// `seq_min` is an element of the sequence and a lower bound on all of them.
pub proof fn lemma_seq_min_properties(s: Seq<i64>)
    requires
        s.len() >= 1,
    ensures
        s.contains(seq_min(s)),
        forall|i: int| 0 <= i < s.len() ==> seq_min(s) <= s[i],
    decreases s.len(),
{
    if s.len() == 1 {
        assert(s[0] == seq_min(s));
    } else {
        lemma_seq_min_properties(s.drop_last());
        assert forall|i: int| 0 <= i < s.len() implies seq_min(s) <= s[i] by {
            if i < s.len() - 1 {
                assert(s.drop_last()[i] == s[i]);
            }
        }
        if s.last() < seq_min(s.drop_last()) {
            assert(s[s.len() - 1] == seq_min(s));
        } else {
            let j = choose|j: int|
                0 <= j < s.drop_last().len() && s.drop_last()[j] == seq_min(s.drop_last());
            assert(s[j] == seq_min(s));
        }
    }
}

/// Two sequences holding the same multiset of values have the same minimum.
proof fn lemma_seq_min_multiset(s1: Seq<i64>, s2: Seq<i64>)
    requires
        s1.to_multiset() == s2.to_multiset(),
        s1.len() >= 1,
    ensures
        s2.len() == s1.len(),
        seq_min(s2) == seq_min(s1),
{
    broadcast use vstd::seq_lib::group_to_multiset_ensures;

    assert(s1.len() == s1.to_multiset().len());
    assert(s2.len() == s2.to_multiset().len());
    lemma_seq_min_properties(s1);
    lemma_seq_min_properties(s2);
    assert(s1.to_multiset().count(seq_min(s1)) > 0);
    assert(s2.contains(seq_min(s1)));
    let i = choose|i: int| 0 <= i < s2.len() && s2[i] == seq_min(s1);
    assert(seq_min(s2) <= seq_min(s1));
    assert(s2.to_multiset().count(seq_min(s2)) > 0);
    assert(s1.contains(seq_min(s2)));
    let j = choose|j: int| 0 <= j < s1.len() && s1[j] == seq_min(s2);
    assert(seq_min(s1) <= seq_min(s2));
}

/// In a nondecreasing sequence the first element is the minimum.
proof fn lemma_nondecreasing_min(s: Seq<i64>)
    requires
        nondecreasing(s),
        s.len() >= 1,
    ensures
        seq_min(s) == s[0],
{
    lemma_seq_min_properties(s);
    let j = choose|j: int| 0 <= j < s.len() && s[j] == seq_min(s);
    assert(s[0] <= s[j]);
}

/// Returns an index of a least element of `v`.
fn oldest_index(v: &Vec<i64>) -> (i: usize)
    requires
        v.len() >= 1,
    ensures
        i < v.len(),
        v@[i as int] == seq_min(v@),
{
    let mut best: usize = 0;
    let mut j: usize = 1;
    proof {
        assert(v@.take(1)[0] == v@[0]);
    }
    while j < v.len()
        invariant
            1 <= j <= v.len(),
            best < j,
            v@[best as int] == seq_min(v@.take(j as int)),
        decreases v.len() - j,
    {
        if v[j] < v[best] {
            best = j;
        }
        proof {
            assert(v@.take(j as int + 1).drop_last() =~= v@.take(j as int));
            assert(v@.take(j as int + 1).last() == v@[j as int]);
        }
        j += 1;
    }
    proof {
        assert(v@.take(v.len() as int) =~= v@);
    }
    best
}

/// Admission spacing: any two entries of `h` that lie `count` positions
/// apart differ by more than `per`.
pub open spec fn spaced(h: Seq<i64>, count: int, per: int) -> bool {
    forall|i: int| count <= i < h.len() ==> h[i - count] < #[trigger] h[i] - per
}

/// One successful use of a key at time `now`: the identifier and the quota
/// are unchanged, `now` is appended to the history, and the recorded times
/// gain `now`, after the single oldest of them was evicted if the key was
/// at capacity.
pub open spec fn used_once(pre: APIKey, post: APIKey, now: i64) -> bool {
    &&& post.id() == pre.id()
    &&& post.quota() == pre.quota()
    &&& post.use_history() == pre.use_history().push(now)
    &&& (if pre.usage_times().len() < pre.quota().count {
        &&& post.usage_times().to_multiset() == pre.usage_times().to_multiset().insert(now)
        &&& post.usage_times().len() == pre.usage_times().len() + 1
    } else {
        &&& post.usage_times().to_multiset() == pre.usage_times().to_multiset().remove(
            seq_min(pre.usage_times()),
        ).insert(now)
        &&& post.usage_times().len() == pre.quota().count
    })
}

/// A single credential with its quota and the timestamps, in milliseconds,
/// of its most recent uses.
pub struct APIKey {
    /// The API key code.
    key: String,
    /// The rate limit policy that governs this API key.
    policy: RateLimitPolicy,
    /// The recorded uses that may still fall inside the rolling window,
    /// at most `policy.count` of them, in no particular order.
    times: Vec<i64>,
    /// Every successful use of this key, in the order the uses happened.
    history: Ghost<Seq<i64>>,
}

impl APIKey {
    /// The key's identifier, stored verbatim at construction.
    pub closed spec fn id(&self) -> Seq<char> {
        self.key@
    }

    /// The quota this key is governed by.
    pub closed spec fn quota(&self) -> RateLimitPolicy {
        self.policy
    }

    /// The recorded timestamps of the most recent uses, an unordered
    /// multiset bounded by `quota().count`.
    pub closed spec fn usage_times(&self) -> Seq<i64> {
        self.times@
    }

    /// The timestamps of every successful use, in call order.
    pub closed spec fn use_history(&self) -> Seq<i64> {
        self.history@
    }

    /// Well-formedness: the quota is valid and the recorded uses never
    /// exceed it.
    pub open spec fn wf(&self) -> bool {
        &&& self.quota().valid()
        &&& self.usage_times().len() <= self.quota().count
    }

    /// Readiness: the key may be used at time `now` when its quota is not
    /// yet exhausted, or when the oldest recorded use has already rolled
    /// out of the window ending at `now`.
    pub open spec fn ready_at(&self, now: i64) -> bool {
        ||| self.usage_times().len() < self.quota().count
        ||| (self.usage_times().len() >= 1 && seq_min(self.usage_times()) < now - self.quota().per)
    }

    /// Returns an API key with the given policy and code.
    pub fn new(key: &str, policy: RateLimitPolicy) -> (r: Self)
        requires
            key@.len() >= 1,
            policy.valid(),
        ensures
            r.wf(),
            r.id() == key@,
            r.quota() == policy,
            r.usage_times() == Seq::<i64>::empty(),
            r.use_history() == Seq::<i64>::empty(),
    {
        Self { key: key.to_string(), policy, times: Vec::new(), history: Ghost(Seq::empty()) }
    }

    /// Returns the code of the API key.
    pub fn get_key(&self) -> (r: String)
        ensures
            r@ == self.id(),
    {
        self.key.clone()
    }

    /// Monotone history: the uses of this key were recorded at
    /// non-decreasing times. Under this assumption the recorded
    /// `usage_times()` are exactly the most recent uses, and any
    /// `quota().count` consecutive uses span more than `quota().per`
    /// milliseconds (see `lemma_quota_window`). A clock that ran backward
    /// between two uses falls outside this predicate; the key still
    /// behaves sensibly then, but the quota law is stated only here.
    pub open spec fn monotone_history(&self) -> bool {
        let h = self.use_history();
        let t = self.usage_times();
        let c = self.quota().count;
        &&& nondecreasing(h)
        &&& t.len() == (if h.len() < c { h.len() as int } else { c as int })
        &&& t.to_multiset() == h.subrange(h.len() - t.len(), h.len() as int).to_multiset()
        &&& spaced(h, c as int, self.quota().per as int)
    }

    /// Checks whether the key is available for use at time `now`.
    pub fn is_ready(&self, now: i64) -> (r: bool)
        requires
            self.wf(),
        ensures
            r == self.ready_at(now),
    {
        if self.times.len() < self.policy.count {
            true
        } else {
            let idx = oldest_index(&self.times);
            let oldest = self.times[idx];
            (oldest as i128) < (now as i128) - (self.policy.per as i128)
        }
    }

    /// Uses the key at time `now` and returns its identifier.
    ///
    /// Readiness and recording are one step: a caller holding the key
    /// exclusively cannot observe, nor interleave with, a state between
    /// the check and the recorded use. If the key is at capacity the
    /// single oldest recorded time is evicted first.
    pub fn use_key(&mut self, now: i64) -> (r: String)
        requires
            old(self).wf(),
            old(self).ready_at(now),
        ensures
            final(self).wf(),
            r@ == old(self).id(),
            used_once(*old(self), *final(self), now),
    {
        proof {
            broadcast use vstd::seq_lib::group_to_multiset_ensures;

        }
        if self.times.len() >= self.policy.count {
            let idx = oldest_index(&self.times);
            self.times.remove(idx);
        }
        self.times.push(now);
        proof {
            self.history@ = self.history@.push(now);
        }
        self.key.clone()
    }
}

/// Monotone readiness law: a key that is ready stays ready, for as long as
/// no use is recorded against it, however far the clock advances.
pub proof fn lemma_ready_monotone(k: &APIKey, t1: i64, t2: i64)
    requires
        k.ready_at(t1),
        t1 <= t2,
    ensures
        k.ready_at(t2),
{
}

/// A fresh key has a monotone history.
pub proof fn lemma_new_monotone(k: &APIKey)
    requires
        k.usage_times() == Seq::<i64>::empty(),
        k.use_history() == Seq::<i64>::empty(),
    ensures
        k.monotone_history(),
{
    broadcast use vstd::seq_lib::group_to_multiset_ensures;

    assert(k.use_history().subrange(0, 0) =~= Seq::<i64>::empty());
}

/// A use recorded at a time not earlier than every previous use keeps the
/// history monotone.
pub proof fn lemma_use_preserves_monotone(pre: APIKey, post: APIKey, now: i64)
    requires
        pre.wf(),
        pre.ready_at(now),
        pre.monotone_history(),
        used_once(pre, post, now),
        pre.use_history().len() == 0 || now >= pre.use_history().last(),
    ensures
        post.monotone_history(),
{
    broadcast use vstd::seq_lib::group_to_multiset_ensures;

    let h = pre.use_history();
    let t = pre.usage_times();
    let c = pre.quota().count as int;
    let per = pre.quota().per as int;
    let l = h.len() as int;
    let h2 = post.use_history();
    let t2 = post.usage_times();
    assert(h2 == h.push(now));
    assert(nondecreasing(h2)) by {
        assert forall|i: int, j: int| 0 <= i <= j < h2.len() implies h2[i] <= h2[j] by {
            if j < l {
                assert(h[i] <= h[j]);
            } else if i < l {
                assert(h[i] <= h[l - 1]);
            }
        }
    }
    assert(spaced(h2, c, per)) by {
        assert forall|i: int| c <= i < h2.len() implies h2[i - c] < #[trigger] h2[i] - per by {
            if i < l {
                assert(h[i - c] < h[i] - per);
            } else {
                // the new entry: the key was ready at `now`
                assert(i == l);
                if t.len() < c {
                    // the history was shorter than the quota, so i - c < 0:
                    // impossible since i >= c and t.len() == min(c, l)
                    assert(l < c);
                } else {
                    // at capacity: readiness came from the oldest use having
                    // rolled out of the window
                    let w = h.subrange(l - c, l);
                    lemma_seq_min_multiset(t, w);
                    lemma_nondecreasing_min(w);
                    assert(w[0] == h[l - c]);
                    assert(seq_min(t) < now - per);
                }
            }
        }
    }
    if t.len() < c {
        // the recorded times were the whole history, and still are
        assert(l < c);
        assert(t.to_multiset() == h.subrange(0, l).to_multiset());
        assert(h.subrange(0, l) =~= h);
        assert(h2.subrange(0, l + 1) =~= h2);
        assert(h2.to_multiset() == h.to_multiset().insert(now));
        assert(t2.to_multiset() == h2.subrange(l + 1 - t2.len(), l + 1).to_multiset());
    } else {
        // the oldest recorded time is the earliest of the last `c` uses;
        // evicting it and inserting `now` slides the window forward by one
        let w = h.subrange(l - c, l);
        lemma_seq_min_multiset(t, w);
        lemma_nondecreasing_min(w);
        assert(seq_min(t) == w[0]);
        assert(w[0] == h[l - c]);
        assert(w.remove(0) =~= h.subrange(l - c + 1, l));
        assert(w.remove(0).to_multiset() == w.to_multiset().remove(w[0]));
        let w2 = h2.subrange(l + 1 - c, l + 1);
        assert(w2 =~= h.subrange(l - c + 1, l).push(now));
        assert(w2.to_multiset() == h.subrange(l - c + 1, l).to_multiset().insert(now));
        assert(t2.to_multiset() == w2.to_multiset());
    }
}

/// Quota law, pairwise form: under a monotone history, two uses that lie
/// `quota().count` or more positions apart happened more than `quota().per`
/// milliseconds apart.
pub proof fn lemma_quota_spacing(k: &APIKey, i: int, j: int)
    requires
        k.monotone_history(),
        0 <= i,
        i + k.quota().count <= j,
        j < k.use_history().len(),
    ensures
        k.use_history()[j] - k.use_history()[i] > k.quota().per,
{
    let h = k.use_history();
    let c = k.quota().count as int;
    assert(h[i] < h[i + c] - k.quota().per);
    assert(h[i + c] <= h[j]);
}

/// The number of entries of `h` that fall inside the closed window
/// `[lo, hi]`.
pub open spec fn uses_within(h: Seq<i64>, lo: int, hi: int) -> nat
    decreases h.len(),
{
    if h.len() == 0 {
        0
    } else {
        uses_within(h.drop_last(), lo, hi) + (if lo <= h.last() <= hi {
            1nat
        } else {
            0nat
        })
    }
}

/// In a nondecreasing sequence, `k` entries inside a window include two
/// that lie at least `k - 1` positions apart.
proof fn lemma_window_span(h: Seq<i64>, lo: int, hi: int, k: nat)
    requires
        nondecreasing(h),
        uses_within(h, lo, hi) >= k,
        k >= 1,
    ensures
        exists|a: int, b: int|
            0 <= a <= b < h.len() && b - a >= k - 1 && lo <= #[trigger] h[a] && #[trigger] h[b]
                <= hi,
    decreases h.len(),
{
    let h0 = h.drop_last();
    let l = h.len() as int;
    assert forall|x: int| 0 <= x < h0.len() implies h0[x] == h[x] by {}
    if lo <= h.last() <= hi {
        if k == 1 {
            assert(0 <= l - 1 <= l - 1 < h.len() && l - 1 - (l - 1) >= k - 1 && lo <= h[l - 1]
                && h[l - 1] <= hi);
        } else {
            lemma_window_span(h0, lo, hi, (k - 1) as nat);
            let (a0, b0) = choose|a0: int, b0: int|
                0 <= a0 <= b0 < h0.len() && b0 - a0 >= k - 2 && lo <= #[trigger] h0[a0]
                    && #[trigger] h0[b0] <= hi;
            assert(0 <= a0 <= l - 1 < h.len() && l - 1 - a0 >= k - 1 && lo <= h[a0] && h[l - 1]
                <= hi);
        }
    } else {
        lemma_window_span(h0, lo, hi, k);
        let (a0, b0) = choose|a0: int, b0: int|
            0 <= a0 <= b0 < h0.len() && b0 - a0 >= k - 1 && lo <= #[trigger] h0[a0]
                && #[trigger] h0[b0] <= hi;
        assert(0 <= a0 <= b0 < h.len() && b0 - a0 >= k - 1 && lo <= h[a0] && h[b0] <= hi);
    }
}

/// Quota law, window form: under a monotone history, no window of length
/// `quota().per` contains more than `quota().count` successful uses.
pub proof fn lemma_quota_window(k: &APIKey, lo: int)
    requires
        k.wf(),
        k.monotone_history(),
    ensures
        uses_within(k.use_history(), lo, lo + k.quota().per) <= k.quota().count,
{
    let h = k.use_history();
    let c = k.quota().count as int;
    let per = k.quota().per as int;
    let hi = lo + per;
    if uses_within(h, lo, hi) > c {
        let kk: nat = (c + 1) as nat;
        lemma_window_span(h, lo, hi, kk);
        let (a, b) = choose|a: int, b: int|
            0 <= a <= b < h.len() && b - a >= kk - 1 && lo <= #[trigger] h[a] && #[trigger] h[b]
                <= hi;
        lemma_quota_spacing(k, a, b);
        assert(false);
    }
}

} // verus!
