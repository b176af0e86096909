//! Recording reservations: how many recording starts hold each session, so
//! a failed duplicate start releases only its own attempt and the session's
//! recording lease goes only with the last reservation.

use vstd::prelude::*;

use crate::keyed::{Keyed, as_map, get_value, insert_value, keys_unique, lemma_as_map, remove_key};
use crate::strings::to_owned_string;

verus! {

/// Reservation counts by session id; a session with no reservation is absent.
#[derive(Debug)]
pub struct RecordingReservations {
    counts: Vec<Keyed<u64>>,
}

impl RecordingReservations {
    /// The counts as a map.
    pub closed spec fn counts(&self) -> Map<Seq<char>, u64> {
        as_map(self.counts@)
    }

    pub closed spec fn wf(&self) -> bool {
        &&& keys_unique(self.counts@)
        &&& forall|k: Seq<char>| #[trigger] self.counts().dom().contains(k) ==> self.counts()[k] > 0
    }

    /// No session reserved.
    pub fn new() -> (r: Self)
        ensures
            r.wf(),
            r.counts() == Map::<Seq<char>, u64>::empty(),
    {
        RecordingReservations { counts: Vec::new() }
    }

    /// Whether a session is recording (holds a reservation).
    pub fn is_recording(&self, id: &str) -> (r: bool)
        requires
            self.wf(),
        ensures
            r == self.counts().dom().contains(id@),
    {
        match get_value(&self.counts, id) {
            Some(_) => true,
            None => false,
        }
    }

    /// Whether any session is recording.
    pub fn any_recording(&self) -> (r: bool)
        requires
            self.wf(),
        ensures
            r == exists|k: Seq<char>| #[trigger] self.counts().dom().contains(k),
    {
        proof {
            lemma_as_map(self.counts@);
            if self.counts@.len() > 0 {
                assert(self.counts().dom().contains(self.counts@[0].key@));
            }
        }
        self.counts.len() > 0
    }

    /// A recording start reserves the session once more.
    pub fn reserve(&mut self, id: &str)
        requires
            old(self).wf(),
            old(self).counts().dom().contains(id@) ==> old(self).counts()[id@] < u64::MAX,
        ensures
            final(self).wf(),
            final(self).counts() == old(self).counts().insert(id@,
                if old(self).counts().dom().contains(id@) { (old(self).counts()[id@] + 1) as u64 } else { 1 }),
    {
        let next = match get_value(&self.counts, id) {
            Some(c) => *c + 1,
            None => 1,
        };
        insert_value(&mut self.counts, to_owned_string(id), next);
    }

    /// A recording already running for a session that holds no reservation
    /// counts as one; a held reservation is left as it is.
    pub fn note_active(&mut self, id: &str)
        requires
            old(self).wf(),
        ensures
            final(self).wf(),
            old(self).counts().dom().contains(id@) ==> final(self).counts() == old(self).counts(),
            !old(self).counts().dom().contains(id@) ==> final(self).counts() == old(self).counts().insert(id@, 1),
    {
        let ghost before = self.counts();
        if get_value(&self.counts, id).is_none() {
            insert_value(&mut self.counts, to_owned_string(id), 1);
            proof {
                assert forall|k: Seq<char>| #[trigger] self.counts().dom().contains(k) implies self.counts()[k] > 0 by {
                    if k != id@ {
                        assert(before.dom().contains(k));
                    }
                }
            }
        }
    }

    /// Releases one reservation. Returns whether it was the last, so the
    /// caller drops the session's recording lease.
    pub fn release(&mut self, id: &str) -> (last: bool)
        requires
            old(self).wf(),
        ensures
            final(self).wf(),
            !old(self).counts().dom().contains(id@) ==> !last && final(self).counts() == old(self).counts(),
            old(self).counts().dom().contains(id@) && old(self).counts()[id@] > 1 ==> !last
                && final(self).counts() == old(self).counts().insert(id@, (old(self).counts()[id@] - 1) as u64),
            old(self).counts().dom().contains(id@) && old(self).counts()[id@] <= 1 ==> last
                && final(self).counts() == old(self).counts().remove(id@),
    {
        let ghost before = self.counts();
        match get_value(&self.counts, id) {
            Some(c) => {
                let c = *c;
                if c > 1 {
                    insert_value(&mut self.counts, to_owned_string(id), c - 1);
                    proof {
                        assert forall|k: Seq<char>| #[trigger] self.counts().dom().contains(k) implies self.counts()[k] > 0 by {
                            if k != id@ {
                                assert(before.dom().contains(k));
                            }
                        }
                    }
                    false
                } else {
                    remove_key(&mut self.counts, id);
                    proof {
                        assert forall|k: Seq<char>| #[trigger] self.counts().dom().contains(k) implies self.counts()[k] > 0 by {
                            assert(before.dom().contains(k));
                        }
                    }
                    true
                }
            },
            None => false,
        }
    }
}

/// A failed duplicate start releases only its own attempt: reserving and
/// then releasing leaves the counts as they were, and releases the lease
/// only when nothing else held the session.
pub proof fn lemma_reserve_release_restores(counts: Map<Seq<char>, u64>, id: Seq<char>)
    requires
        counts.dom().contains(id) ==> 0 < counts[id] < u64::MAX,
    ensures
        ({
            let reserved = counts.insert(id, if counts.dom().contains(id) { (counts[id] + 1) as u64 } else { 1 });
            let released = if reserved[id] > 1 {
                reserved.insert(id, (reserved[id] - 1) as u64)
            } else {
                reserved.remove(id)
            };
            &&& released == counts
            &&& (reserved[id] <= 1 <==> !counts.dom().contains(id))
        }),
{
    let reserved = counts.insert(id, if counts.dom().contains(id) { (counts[id] + 1) as u64 } else { 1 });
    if counts.dom().contains(id) {
        assert(reserved.insert(id, (reserved[id] - 1) as u64) =~= counts);
    } else {
        assert(reserved.remove(id) =~= counts);
    }
}


/// Whether the vault may be relocated now: never while a recording writes
/// into it through absolute paths, nor while transcript words wait in a
/// dirty buffer.
pub fn vault_move_check(recording_active: bool, any_dirty_buffer: bool) -> (r: Result<(), crate::error::StoreError>)
    ensures
        recording_active ==> (r matches Err(e) && e == crate::error::StoreError::Conflict(e->Conflict_0)
            && e->Conflict_0@ == "a recording is in progress; stop it before moving the vault"@),
        !recording_active && any_dirty_buffer ==> (r matches Err(e) && e == crate::error::StoreError::Conflict(e->Conflict_0)
            && e->Conflict_0@ == "transcript data is still being saved; try again in a moment"@),
        !recording_active && !any_dirty_buffer ==> r is Ok,
{
    if recording_active {
        Err(crate::error::StoreError::Conflict(to_owned_string("a recording is in progress; stop it before moving the vault")))
    } else if any_dirty_buffer {
        Err(crate::error::StoreError::Conflict(to_owned_string("transcript data is still being saved; try again in a moment")))
    } else {
        Ok(())
    }
}

} // verus!
