//! The durable session store as seen by the engine.
use crate::model::{AppResult, Session};
use vstd::prelude::*;

verus! {

/// A durable store for session records.
pub trait Journal {
    /// The session records this store has durably accepted, oldest first. The default
    /// only lets stores written outside the verifier compile; a store that keeps it cannot
    /// meet the contract of `save`, so a verified one defines it.
    closed spec fn saved(&self) -> Seq<Session> {
        Seq::empty()
    }

    /// How many save requests this store has refused (default: as for `saved`).
    closed spec fn refused(&self) -> nat {
        0
    }

    /// Durably stores the record; a refusal leaves the accepted records unchanged and is
    /// counted. A store accepts only structurally valid records: it checks each one with
    /// `validate_record` before writing it, and refuses the rest.
    fn save(&mut self, session: &Session) -> (r: AppResult<()>)
        ensures
            r is Ok ==> final(self).saved() == old(self).saved().push(*session) && final(self).refused()
                == old(self).refused(),
            r is Ok ==> crate::integrity::record_valid(*session),
            r is Err ==> final(self).saved() == old(self).saved() && final(self).refused() == old(self).refused()
                + 1,
    ;
}

/// A store's accepted records and its count of refused saves.
pub open spec fn journal_log<J: Journal>(j: J) -> (Seq<Session>, nat) {
    (j.saved(), j.refused())
}

} // verus!
