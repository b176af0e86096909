//! Sessions deleted in this process: their directories went to the trash, so
//! no late write may recreate them, until an undo restores them.

use vstd::prelude::*;

use crate::error::StoreError;
use crate::keyed::{Keyed, as_map, get_value, insert_value, keys_unique, remove_key};
use crate::strings::{concat, to_owned_string};

verus! {

/// The deleted ids, and for recent deletions the trash path an undo restores.
#[derive(Debug)]
pub struct DeletionRegistry {
    deleted: Vec<Keyed<bool>>,
    recent: Vec<Keyed<String>>,
}

/// The refusal of a write into a deleted session.
pub open spec fn deleted_message(id: Seq<char>) -> Seq<char> {
    "session "@ + id + " was deleted"@
}

impl DeletionRegistry {
    /// The ids deleted and not restored.
    pub closed spec fn deleted_ids(&self) -> Set<Seq<char>> {
        as_map(self.deleted@).dom()
    }

    /// Recent deletions: id to trash path.
    pub closed spec fn recent_map(&self) -> Map<Seq<char>, String> {
        as_map(self.recent@)
    }

    pub closed spec fn wf(&self) -> bool {
        keys_unique(self.deleted@) && keys_unique(self.recent@)
    }

    /// Nothing deleted.
    pub fn new() -> (r: Self)
        ensures
            r.wf(),
            r.deleted_ids() == Set::<Seq<char>>::empty(),
            r.recent_map() == Map::<Seq<char>, String>::empty(),
    {
        let r = DeletionRegistry { deleted: Vec::new(), recent: Vec::new() };
        proof {
            assert(as_map(r.deleted@).dom() =~= Set::<Seq<char>>::empty());
        }
        r
    }

    /// A session went to the trash at `trash_path`.
    pub fn record_deletion(&mut self, id: &str, trash_path: String)
        requires
            old(self).wf(),
        ensures
            final(self).wf(),
            final(self).deleted_ids() == old(self).deleted_ids().insert(id@),
            final(self).recent_map() == old(self).recent_map().insert(id@, trash_path),
    {
        insert_value(&mut self.deleted, to_owned_string(id), true);
        insert_value(&mut self.recent, to_owned_string(id), trash_path);
    }

    /// Writes into a deleted session are refused.
    pub fn check_writable(&self, id: &str) -> (r: Result<(), StoreError>)
        requires
            self.wf(),
        ensures
            r is Ok <==> !self.deleted_ids().contains(id@),
            r matches Err(e) ==> e == StoreError::Io(e->Io_0) && e->Io_0@ == deleted_message(id@),
    {
        match get_value(&self.deleted, id) {
            Some(_) => {
                let head = concat("session ", id);
                Err(StoreError::Io(concat(head.as_str(), " was deleted")))
            },
            None => Ok(()),
        }
    }

    /// The trash path an undo of this session's deletion restores from.
    pub fn restore_target(&self, id: &str) -> (r: Option<String>)
        requires
            self.wf(),
        ensures
            r is Some <==> self.recent_map().dom().contains(id@),
            r matches Some(p) ==> p@ == self.recent_map()[id@]@,
    {
        match get_value(&self.recent, id) {
            Some(p) => Some(p.clone()),
            None => None,
        }
    }

    /// An undo ran: its record goes; when the directory came back, the
    /// session is writable again.
    pub fn finish_restore(&mut self, id: &str, restored: bool)
        requires
            old(self).wf(),
        ensures
            final(self).wf(),
            final(self).recent_map() == old(self).recent_map().remove(id@),
            restored ==> final(self).deleted_ids() == old(self).deleted_ids().remove(id@),
            !restored ==> final(self).deleted_ids() == old(self).deleted_ids(),
    {
        remove_key(&mut self.recent, id);
        if restored {
            remove_key(&mut self.deleted, id);
        }
    }
}

/// Writes into a deleted session are refused until it is restored: after a
/// deletion (`record_deletion`) the id is refused by `check_writable`; an undo
/// (`finish_restore`) that did not bring the directory back leaves it
/// refused, and one that did makes it writable again.
pub proof fn lemma_deleted_until_restored(
    before: DeletionRegistry,
    deleted: DeletionRegistry,
    undone: DeletionRegistry,
    id: Seq<char>,
    restored: bool,
)
    requires
        deleted.deleted_ids() == before.deleted_ids().insert(id),
        restored ==> undone.deleted_ids() == deleted.deleted_ids().remove(id),
        !restored ==> undone.deleted_ids() == deleted.deleted_ids(),
    ensures
        deleted.deleted_ids().contains(id),
        undone.deleted_ids().contains(id) <==> !restored,
{
}

} // verus!
