//! The failures that repository operations report.

use crate::strmap::texts;
use vstd::prelude::*;
use vstd::string::StringExecFns;

verus! {

/// Why an operation was refused. No operation that returns one of these
/// has changed the state it was given, unless its contract says otherwise.
#[derive(Debug, Clone, PartialEq, Eq)]
pub enum Error {
    NotARepository,
    RepositoryAlreadyExists,
    FileNotFound,
    /// A source could not be read or an object could not be encoded.
    IoError,
    ObjectNotFound,
    /// A malformed record, or a hash of the wrong length.
    CorruptObject,
    /// An object with this hash is already stored.
    HashCollision,
    /// The system clock could not be read.
    ClockUnavailable,
    NotTracked,
    AlreadyStaged,
    StagedChangesConflict,
    BranchExists,
    BranchNotFound,
    BranchCheckedOut,
    /// A branch was to be deleted and no name was given.
    BranchNameRequired,
    SelfMerge,
    UnstagedChanges,
    UncommittedChanges,
    /// The two histories share no commit.
    UnrelatedHistories,
    /// Local changes at these paths would be overwritten.
    CheckoutConflict(Vec<String>),
    NothingToCommit,
}

/// Each path on a line of its own, behind a tab and a space.
pub open spec fn indented(paths: Seq<Seq<char>>) -> Seq<char>
    decreases paths.len(),
{
    if paths.len() == 0 {
        Seq::empty()
    } else {
        indented(paths.drop_last()) + "\t "@ + paths.last() + "\n"@
    }
}

/// What is said to the user about a failure.
pub open spec fn error_text(e: Error) -> Seq<char> {
    match e {
        Error::NotARepository => "Not a valid gitlet repository"@,
        Error::RepositoryAlreadyExists => "A gitlet repository already exists in this directory"@,
        Error::FileNotFound => "Cannot stage file. File does not exist."@,
        Error::IoError => "Could not read or store the file."@,
        Error::ObjectNotFound => "The object does not exist."@,
        Error::CorruptObject => "Invalid commit"@,
        Error::HashCollision => "An object with this hash exists already."@,
        Error::ClockUnavailable => "Could not read the system clock."@,
        Error::NotTracked => "Cannot remove file. The file is not tracked."@,
        Error::AlreadyStaged => "File already staged for removal."@,
        Error::StagedChangesConflict =>
            "Cannot remove a file with staged changes. Use --cached to unstage."@,
        Error::BranchExists => "A branch with that name already exists"@,
        Error::BranchNotFound => "That branch does not exist."@,
        Error::BranchCheckedOut => "Cannot delete branch when it is checked out"@,
        Error::BranchNameRequired => "Branch name required"@,
        Error::SelfMerge => "Cannot merge a branch with itself."@,
        Error::UnstagedChanges => "There is a file with unstaged changes."@,
        Error::UncommittedChanges => "You have uncommited changes."@,
        Error::UnrelatedHistories => "The branches share no history."@,
        Error::NothingToCommit => "Nothing to commit."@,
        Error::CheckoutConflict(paths) =>
            "Your local changes to the following files would be overwritten by checkout:\n"@
                + indented(texts(paths@)),
    }
}

impl Error {
    /// The message for the user.
    pub fn message(&self) -> (r: String)
        ensures
            r@ == error_text(*self),
    {
        match self {
            Error::NotARepository => String::from_str("Not a valid gitlet repository"),
            Error::RepositoryAlreadyExists => String::from_str(
                "A gitlet repository already exists in this directory",
            ),
            Error::FileNotFound => String::from_str("Cannot stage file. File does not exist."),
            Error::IoError => String::from_str("Could not read or store the file."),
            Error::ObjectNotFound => String::from_str("The object does not exist."),
            Error::CorruptObject => String::from_str("Invalid commit"),
            Error::HashCollision => String::from_str("An object with this hash exists already."),
            Error::ClockUnavailable => String::from_str("Could not read the system clock."),
            Error::NotTracked => String::from_str("Cannot remove file. The file is not tracked."),
            Error::AlreadyStaged => String::from_str("File already staged for removal."),
            Error::StagedChangesConflict => String::from_str(
                "Cannot remove a file with staged changes. Use --cached to unstage.",
            ),
            Error::BranchExists => String::from_str("A branch with that name already exists"),
            Error::BranchNotFound => String::from_str("That branch does not exist."),
            Error::BranchCheckedOut => String::from_str(
                "Cannot delete branch when it is checked out",
            ),
            Error::BranchNameRequired => String::from_str("Branch name required"),
            Error::SelfMerge => String::from_str("Cannot merge a branch with itself."),
            Error::UnstagedChanges => String::from_str("There is a file with unstaged changes."),
            Error::UncommittedChanges => String::from_str("You have uncommited changes."),
            Error::UnrelatedHistories => String::from_str("The branches share no history."),
            Error::NothingToCommit => String::from_str("Nothing to commit."),
            Error::CheckoutConflict(paths) => {
                let mut buf = String::from_str(
                    "Your local changes to the following files would be overwritten by checkout:\n",
                );
                let ghost head = buf@;
                let mut i: usize = 0;
                proof {
                    assert(texts(paths@).subrange(0, 0) =~= Seq::<Seq<char>>::empty());
                    assert(head + indented(Seq::<Seq<char>>::empty()) =~= head);
                }
                while i < paths.len()
                    invariant
                        i <= paths@.len(),
                        buf@ == head + indented(texts(paths@).subrange(0, i as int)),
                    decreases paths@.len() - i,
                {
                    buf.append("\t ");
                    buf.append(paths[i].as_str());
                    buf.append("\n");
                    proof {
                        let all = texts(paths@);
                        assert(all[i as int] == paths@[i as int]@);
                        assert(all.subrange(0, i + 1).drop_last() =~= all.subrange(0, i as int));
                        assert(all.subrange(0, i + 1).last() == all[i as int]);
                        assert(buf@ =~= head + indented(all.subrange(0, i + 1)));
                    }
                    i = i + 1;
                }
                proof {
                    assert(texts(paths@).subrange(0, i as int) =~= texts(paths@));
                }
                buf
            },
        }
    }
}

} // verus!
