//! Error types returned by the lock manager.
use vstd::prelude::*;

verus! {

/// Reasons a lock operation can fail.
///
/// The variants are deliberately coarse: a caller either got the lock or it did
/// not. Matching code outside this crate must keep a wildcard arm.
#[derive(Debug, Clone, Copy, PartialEq, Eq, Hash, Structural)]
#[non_exhaustive]
pub enum LockError {
    /// The lock could not be granted without blocking: the mode it asks for is
    /// incompatible with one another transaction already holds.
    Conflict,
    /// A release named a lock that its transaction does not hold. This usually
    /// signals a double release or a bookkeeping bug in the caller.
    NotHeld,
}

impl LockError {
    /// The message of each error.
    pub open spec fn message(self) -> Seq<char> {
        match self {
            LockError::Conflict => "lock request conflicts with an existing lock"@,
            LockError::NotHeld => "no lock held for this transaction and resource"@,
        }
    }

    /// Returns the error as a sentence for people to read.
    #[must_use]
    pub fn to_string(&self) -> (s: String)
        ensures
            s@ == self.message(),
    {
        match self {
            LockError::Conflict => "lock request conflicts with an existing lock".to_owned(),
            LockError::NotHeld => "no lock held for this transaction and resource".to_owned(),
        }
    }

    /// Law: what each error says.
    pub proof fn law_messages(self)
        ensures
            self is Conflict ==> self.message()
                == "lock request conflicts with an existing lock"@,
            self is NotHeld ==> self.message()
                == "no lock held for this transaction and resource"@,
    {
    }

    /// Law: no message is empty, and two errors have the same message only if
    /// they are the same error.
    pub proof fn law_messages_are_distinct_and_nonempty(self, other: LockError)
        ensures
            self.message().len() > 0,
            self.message() == other.message() <==> self == other,
    {
        reveal_strlit("lock request conflicts with an existing lock");
        reveal_strlit("no lock held for this transaction and resource");
        assert("lock request conflicts with an existing lock"@[0] == 'l');
        assert("no lock held for this transaction and resource"@[0] == 'n');
    }
}

} // verus!
