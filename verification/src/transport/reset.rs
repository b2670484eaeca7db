//! Which sessions are reconstructed, so that inbound streams can be reset.

use vstd::prelude::*;

use crate::engine::model::SessionId;
use crate::table::Key;
use crate::transport::config::MAX_RECONSTRUCTED_TRACKED;

verus! {

/// Insertion-ordered bounded set of reconstructed `(channel, message_id)`
/// keys. FIFO eviction guarantees a freshly recorded key is never dropped
/// before its inbound readers observe it.
pub struct ReconstructedTracker {
    /// Oldest first.
    order: Vec<(String, String)>,
}

/// The keys after one more is recorded. One that is known stays where it is;
/// a new one makes the oldest go when there are too many.
pub open spec fn recorded(keys: Seq<SessionId>, key: SessionId) -> Seq<SessionId> {
    if keys.contains(key) {
        keys
    } else if keys.len() >= MAX_RECONSTRUCTED_TRACKED {
        keys.push(key).drop_first()
    } else {
        keys.push(key)
    }
}

impl View for ReconstructedTracker {
    type V = Seq<SessionId>;

    closed spec fn view(&self) -> Seq<SessionId> {
        self.order@.map_values(|k: (String, String)| k@)
    }
}

impl ReconstructedTracker {
    /// No session is reconstructed.
    pub fn new() -> (r: Self)
        ensures
            r@ == Seq::<SessionId>::empty(),
    {
        let r = ReconstructedTracker { order: Vec::new() };
        assert(r@ =~= Seq::<SessionId>::empty());
        r
    }

    /// Record a reconstructed session.
    pub fn record(&mut self, key: (String, String))
        ensures
            final(self)@ == recorded(old(self)@, key@),
    {
        if self.is_reconstructed(&key) {
            return;
        }
        if self.order.len() >= MAX_RECONSTRUCTED_TRACKED {
            self.order.push(key);
            let _ = self.order.remove(0);
            assert(self@ =~= old(self)@.push(key@).drop_first());
        } else {
            self.order.push(key);
            assert(self@ =~= old(self)@.push(key@));
        }
    }

    /// Whether a session is known to be reconstructed.
    pub fn is_reconstructed(&self, key: &(String, String)) -> (r: bool)
        ensures
            r == self@.contains(key@),
    {
        let mut i: usize = 0;
        while i < self.order.len()
            invariant
                i <= self.order@.len(),
                forall|j: int| 0 <= j < i ==> #[trigger] self@[j] != key@,
            decreases self.order@.len() - i,
        {
            assert(self@[i as int] == self.order@[i as int]@);
            if self.order[i].same(key) {
                return true;
            }
            i = i + 1;
        }
        false
    }
}

/// No key is tracked twice, and no more keys than the bound allows.
pub open spec fn bounded(keys: Seq<SessionId>) -> bool {
    keys.no_duplicates() && keys.len() <= MAX_RECONSTRUCTED_TRACKED
}

/// Recording keeps the keys distinct and bounded; the recorded key is always
/// found afterwards, and at most the oldest of the others is lost.
pub proof fn law_recorded_key_is_found(keys: Seq<SessionId>, key: SessionId)
    requires
        bounded(keys),
    ensures
        bounded(recorded(keys, key)),
        recorded(keys, key).contains(key),
        forall|i: int| 0 < i < keys.len() ==> recorded(keys, key).contains(#[trigger] keys[i]),
        keys.len() < MAX_RECONSTRUCTED_TRACKED && keys.len() > 0 ==> recorded(keys, key).contains(
            keys[0],
        ),
{
    let after = recorded(keys, key);
    if !keys.contains(key) {
        let all = keys.push(key);
        let n = keys.len() as int;
        assert(all[n] == key);
        if n >= MAX_RECONSTRUCTED_TRACKED {
            assert(after[n - 1] == key);
            assert forall|i: int| 0 < i < keys.len() implies after.contains(#[trigger] keys[i]) by {
                assert(after[i - 1] == keys[i]);
            }
            assert forall|i: int, j: int|
                0 <= i < after.len() && 0 <= j < after.len() && i != j implies after[i] != after[j] by {
                assert(after[i] == all[i + 1] && after[j] == all[j + 1]);
                if i + 1 < n {
                    assert(keys[i + 1] == all[i + 1]);
                }
                if j + 1 < n {
                    assert(keys[j + 1] == all[j + 1]);
                }
            }
        } else {
            assert(after[n] == key);
            assert forall|i: int| 0 <= i < keys.len() implies after.contains(#[trigger] keys[i]) by {
                assert(after[i] == keys[i]);
            }
            assert forall|i: int, j: int|
                0 <= i < after.len() && 0 <= j < after.len() && i != j implies after[i] != after[j] by {
                if i < n {
                    assert(keys[i] == after[i]);
                }
                if j < n {
                    assert(keys[j] == after[j]);
                }
            }
        }
    }
}

/// At most 8192 sessions are remembered, the latest: recording one that is
/// known changes nothing, and a new one takes the last place, ahead of it
/// those that were there, without the oldest when there is no room.
pub proof fn law_latest_sessions_are_remembered(keys: Seq<SessionId>, key: SessionId, i: int)
    requires
        keys.len() <= 8192,
    ensures
        ({
            let after = recorded(keys, key);
            &&& keys.contains(key) ==> after == keys
            &&& !keys.contains(key) ==> {
                &&& after.len() == if keys.len() < 8192 {
                    keys.len() + 1
                } else {
                    8192
                }
                &&& after.last() == key
                &&& 0 <= i < after.len() - 1 ==> after[after.len() - 2 - i] == keys[keys.len() - 1 - i]
            }
        }),
{
}

} // verus!
