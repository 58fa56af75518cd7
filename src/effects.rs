//! What a reconciliation asks of the outside world: scheduler commands and
//! notifications, performed by the caller in the order given.
use vstd::prelude::*;

verus! {

/// A command for the batch scheduler.
pub enum Command {
    /// Take the node out of service, with a comment saying why.
    Offline { target: String, comment: String },
    /// Return the node to service, clearing its comment.
    Release { target: String },
}

/// A message for the operators' channel.
pub enum Notice {
    /// A node in a state nobody recognized was taken offline.
    UnrecognizedOffline { target: String, comment: String },
    /// An operator took a node offline.
    Offlining { operator: String, target: String, comment: String },
    /// An operator returned a node to service.
    Onlining { operator: String, target: String },
    /// A node was taken offline because of its open issues.
    NodeOffline { target: String },
    /// The open issues of a node found up were closed.
    IssuesClosed { target: String },
    /// An issue was opened.
    IssueOpened { operator: String, target: String, title: String },
}

/// One step for the caller to perform.
pub enum Action {
    Command(Command),
    Notify(Notice),
}

/// The number of notifications in `s`.
pub open spec fn notice_count(s: Seq<Action>) -> nat
    decreases s.len(),
{
    if s.len() == 0 {
        0
    } else {
        notice_count(s.drop_last()) + if s.last() is Notify {
            1nat
        } else {
            0nat
        }
    }
}

/// The number of scheduler commands in `s`.
pub open spec fn command_count(s: Seq<Action>) -> nat
    decreases s.len(),
{
    if s.len() == 0 {
        0
    } else {
        command_count(s.drop_last()) + if s.last() is Command {
            1nat
        } else {
            0nat
        }
    }
}

/// Counting notices and commands adds up over concatenation.
pub proof fn lemma_counts_concat(a: Seq<Action>, b: Seq<Action>)
    ensures
        notice_count(a + b) == notice_count(a) + notice_count(b),
        command_count(a + b) == command_count(a) + command_count(b),
    decreases b.len(),
{
    if b.len() > 0 {
        lemma_counts_concat(a, b.drop_last());
        assert((a + b).drop_last() =~= a + b.drop_last());
        assert((a + b).last() == b.last());
    } else {
        assert(a + b =~= a);
    }
}

} // verus!
