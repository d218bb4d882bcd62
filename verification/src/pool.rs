//! The ordered pool of API keys and its first-fit selection.

use vstd::prelude::*;

use crate::clock::now_millis;
use crate::key::{used_once, APIKey};

verus! {

/// The position of the first key ready at `now`, or -1 when none is.
pub open spec fn first_ready(s: Seq<APIKey>, now: i64) -> int
    decreases s.len(),
{
    if s.len() == 0 {
        -1
    } else if s[0].ready_at(now) {
        0
    } else if first_ready(s.drop_first(), now) < 0 {
        -1
    } else {
        1 + first_ready(s.drop_first(), now)
    }
}

/// First-fit law: `first_ready` names a ready key that no earlier key
/// precedes, and is -1 exactly when no key is ready.
pub proof fn lemma_first_ready_properties(s: Seq<APIKey>, now: i64)
    ensures
        first_ready(s, now) >= 0 ==> {
            let j = first_ready(s, now);
            &&& j < s.len()
            &&& s[j].ready_at(now)
            &&& forall|k: int| 0 <= k < j ==> !(#[trigger] s[k]).ready_at(now)
        },
        first_ready(s, now) < 0 ==> forall|k: int|
            0 <= k < s.len() ==> !(#[trigger] s[k]).ready_at(now),
    decreases s.len(),
{
    if s.len() > 0 && !s[0].ready_at(now) {
        lemma_first_ready_properties(s.drop_first(), now);
        let j0 = first_ready(s.drop_first(), now);
        if j0 >= 0 {
            assert(s[j0 + 1] == s.drop_first()[j0]);
            assert forall|k: int| 0 <= k < j0 + 1 implies !(#[trigger] s[k]).ready_at(now) by {
                if k >= 1 {
                    assert(s.drop_first()[k - 1] == s[k]);
                }
            }
        } else {
            assert forall|k: int| 0 <= k < s.len() implies !(#[trigger] s[k]).ready_at(now) by {
                if k >= 1 {
                    assert(s.drop_first()[k - 1] == s[k]);
                }
            }
        }
    }
}

/// What one poll at time `now` does to the pool: when some key is ready,
/// the first such key is used once and its identifier returned; when none
/// is, nothing changes and no key is reported.
pub open spec fn poll_outcome(pre: APIKeyPool, post: APIKeyPool, now: i64, r: Option<
    String,
>) -> bool {
    let j = first_ready(pre.keys(), now);
    &&& post.keys().len() == pre.keys().len()
    &&& (if j >= 0 {
        &&& pre.keys()[j].ready_at(now)
        &&& (forall|k: int| 0 <= k < j ==> !(#[trigger] pre.keys()[k]).ready_at(now))
        &&& (r matches Some(id) && id@ == pre.keys()[j].id())
        &&& used_once(pre.keys()[j], post.keys()[j], now)
        &&& (forall|k: int|
            0 <= k < pre.keys().len() && k != j ==> post.keys()[k] == #[trigger] pre.keys()[k])
    } else {
        &&& r is None
        &&& post == pre
    })
}

/// Under a clock that has not run backward since any recorded use, a poll
/// keeps every key's history monotone: together with the per-key quota laws,
/// no window of `per` milliseconds ever holds more than `count` uses of a
/// key, however many polls are interleaved.
pub proof fn lemma_poll_preserves_monotone(
    pre: APIKeyPool,
    post: APIKeyPool,
    now: i64,
    r: Option<String>,
)
    requires
        pre.wf(),
        poll_outcome(pre, post, now, r),
        forall|i: int| 0 <= i < pre.keys().len() ==> (#[trigger] pre.keys()[i]).monotone_history(),
        forall|i: int|
            0 <= i < pre.keys().len() ==> ((#[trigger] pre.keys()[i]).use_history().len() == 0
                || now >= pre.keys()[i].use_history().last()),
    ensures
        forall|i: int| 0 <= i < post.keys().len() ==> (#[trigger] post.keys()[i]).monotone_history(),
{
    let j = first_ready(pre.keys(), now);
    if j >= 0 {
        lemma_first_ready_properties(pre.keys(), now);
        assert(pre.keys()[j].wf());
        crate::key::lemma_use_preserves_monotone(pre.keys()[j], post.keys()[j], now);
        assert forall|i: int|
            0 <= i < post.keys().len() implies (#[trigger] post.keys()[i]).monotone_history() by {
            if i != j {
                assert(post.keys()[i] == pre.keys()[i]);
            }
        }
    }
}

/// A pool of API keys.
pub struct APIKeyPool {
    /// Collection holding the API keys, in insertion order.
    api_keys: Vec<APIKey>,
}

impl APIKeyPool {
    /// The keys of the pool, in insertion order.
    pub closed spec fn keys(&self) -> Seq<APIKey> {
        self.api_keys@
    }

    /// Well-formedness: every key in the pool is well-formed.
    pub open spec fn wf(&self) -> bool {
        forall|i: int| 0 <= i < self.keys().len() ==> (#[trigger] self.keys()[i]).wf()
    }

    /// Returns an empty API key pool.
    pub fn new() -> (r: Self)
        ensures
            r.wf(),
            r.keys() == Seq::<APIKey>::empty(),
    {
        Self { api_keys: Vec::new() }
    }

    /// Appends an API key at the end of the pool.
    pub fn add_key(&mut self, key: APIKey)
        requires
            old(self).wf(),
            key.wf(),
        ensures
            final(self).wf(),
            final(self).keys() == old(self).keys().push(key),
    {
        self.api_keys.push(key);
        proof {
            assert forall|i: int|
                0 <= i < self.keys().len() implies (#[trigger] self.keys()[i]).wf() by {
                if i < old(self).keys().len() {
                    assert(self.keys()[i] == old(self).keys()[i]);
                } else {
                    assert(self.keys()[i] == key);
                }
            }
        }
    }

    /// Scans the pool in insertion order for a key that is ready at time
    /// `now`; the first ready key is used in the same step and its
    /// identifier returned. Returns `None`, and changes nothing, when
    /// every key is currently exhausted.
    pub fn poll_for_key_at(&mut self, now: i64) -> (r: Option<String>)
        requires
            old(self).wf(),
        ensures
            final(self).wf(),
            poll_outcome(*old(self), *final(self), now, r),
    {
        let n = self.api_keys.len();
        let mut i: usize = 0;
        while i < n
            invariant
                *self == *old(self),
                old(self).wf(),
                i <= n,
                n == self.api_keys.len(),
                forall|k: int| 0 <= k < i ==> !(#[trigger] self.api_keys@[k]).ready_at(now),
            decreases n - i,
        {
            proof {
                assert(self.keys()[i as int].wf());
            }
            if self.api_keys[i].is_ready(now) {
                proof {
                    assert forall|k: int|
                        0 <= k < i implies !(#[trigger] old(self).keys()[k]).ready_at(now) by {
                        assert(!self.api_keys@[k].ready_at(now));
                    }
                    assert(old(self).keys()[i as int].ready_at(now));
                }
                let id = self.api_keys[i].use_key(now);
                proof {
                    lemma_first_ready_properties(old(self).keys(), now);
                    let j = first_ready(old(self).keys(), now);
                    if 0 <= j < i as int {
                        assert(!old(self).keys()[j].ready_at(now));
                    }
                    assert(j == i as int);
                    assert forall|k: int|
                        0 <= k < self.keys().len() implies (#[trigger] self.keys()[k]).wf() by {
                        if k != i as int {
                            assert(self.keys()[k] == old(self).keys()[k]);
                        }
                    }
                }
                return Some(id);
            }
            i += 1;
        }
        proof {
            assert forall|k: int|
                0 <= k < old(self).keys().len() implies !(#[trigger] old(self).keys()[k]).ready_at(
                now,
            ) by {
                assert(!self.api_keys@[k].ready_at(now));
            }
            lemma_first_ready_properties(old(self).keys(), now);
            let j = first_ready(old(self).keys(), now);
            if j >= 0 {
                assert(!old(self).keys()[j].ready_at(now));
            }
        }
        None
    }

    /// Polls the pool at the current wall-clock time.
    ///
    /// The clock reading is outside this library's control, so the
    /// contract holds for whatever time came back: one poll at some single
    /// instant, as `poll_outcome` describes it.
    pub fn poll_for_key(&mut self) -> (r: Option<String>)
        requires
            old(self).wf(),
        ensures
            final(self).wf(),
            exists|t: i64| poll_outcome(*old(self), *final(self), t, r),
    {
        let now = now_millis();
        let r = self.poll_for_key_at(now);
        proof {
            assert(poll_outcome(*old(self), *self, now, r));
        }
        r
    }
}

impl Default for APIKeyPool {
    /// An empty API key pool.
    fn default() -> (r: Self)
        ensures
            r.wf(),
            r.keys() == Seq::<APIKey>::empty(),
    {
        APIKeyPool::new()
    }
}

} // verus!
