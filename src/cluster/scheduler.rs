//! Interpretation of what the batch scheduler reports of each node, and
//! the commands that take nodes out of service or return them.
use vstd::prelude::*;

use crate::effects::{command_count, lemma_counts_concat, notice_count, Action, Command, Notice};
use crate::entities::target::TargetStatus;
use crate::text::{contains, has_substring, str_eq};

verus! {

/// What the scheduler reports of one node.
pub struct NodeReport {
    pub name: String,
    /// Free-form state, such as `free`, `job-busy` or `down,offline`.
    pub state: String,
    /// The node has work running.
    pub jobs: bool,
    pub comment: String,
}

/// The interpreted status of one node, with the scheduler's comment.
pub struct NodeStatus {
    pub name: String,
    pub status: TargetStatus,
    pub comment: String,
}

/// A state string that means the node serves work.
pub open spec fn serving_state(state: Seq<char>) -> bool {
    has_substring(state, "exclusive"@) || state == "job-busy"@ || state == "free"@
}

/// A state string that some rule of interpretation names.
pub open spec fn recognized_state(state: Seq<char>) -> bool {
    has_substring(state, "offline"@) || has_substring(state, "down"@) || serving_state(state)
}

/// `Draining` when work runs, else `idle`.
pub open spec fn unless_busy(jobs: bool, idle: TargetStatus) -> TargetStatus {
    if jobs {
        TargetStatus::Draining
    } else {
        idle
    }
}

/// The status a state string stands for; the first rule that applies wins.
pub open spec fn interpreted(state: Seq<char>, jobs: bool) -> TargetStatus {
    if has_substring(state, "offline"@) {
        unless_busy(jobs, TargetStatus::Offline)
    } else if has_substring(state, "down"@) {
        unless_busy(jobs, TargetStatus::Down)
    } else if serving_state(state) {
        TargetStatus::Online
    } else {
        unless_busy(jobs, TargetStatus::Down)
    }
}

/// What interpreting `n` asks of the outside world: a node in an
/// unrecognized state is taken offline with its comment, and the operators
/// are told.
pub open spec fn report_actions(n: &NodeReport) -> Seq<Action> {
    if recognized_state(n.state@) {
        Seq::empty()
    } else {
        seq![
            Action::Command(Command::Offline { target: n.name, comment: n.comment }),
            Action::Notify(Notice::UnrecognizedOffline { target: n.name, comment: n.comment }),
        ]
    }
}

/// The status `state` stands for, and whether a rule named it.
pub fn interpret_state(state: &str, jobs: bool) -> (r: (TargetStatus, bool))
    ensures
        r.0 == interpreted(state@, jobs),
        r.1 == recognized_state(state@),
        r.0 != TargetStatus::Unknown,
{
    if contains(state, "offline") {
        (if jobs { TargetStatus::Draining } else { TargetStatus::Offline }, true)
    } else if contains(state, "down") {
        (if jobs { TargetStatus::Draining } else { TargetStatus::Down }, true)
    } else if contains(state, "exclusive") || str_eq(state, "job-busy") || str_eq(state, "free") {
        (TargetStatus::Online, true)
    } else {
        (if jobs { TargetStatus::Draining } else { TargetStatus::Down }, false)
    }
}

/// Interprets one report; for a state no rule names, appends the command
/// that takes the node offline and the notice that says so.
pub fn node_status(n: &NodeReport, actions: &mut Vec<Action>) -> (r: NodeStatus)
    ensures
        r.name == n.name,
        r.status == interpreted(n.state@, n.jobs),
        r.comment == n.comment,
        final(actions)@ == old(actions)@ + report_actions(n),
{
    let (status, known) = interpret_state(n.state.as_str(), n.jobs);
    if !known {
        actions.push(
            Action::Command(Command::Offline { target: n.name.clone(), comment: n.comment.clone() }),
        );
        actions.push(
            Action::Notify(
                Notice::UnrecognizedOffline { target: n.name.clone(), comment: n.comment.clone() },
            ),
        );
    }
    proof {
        if known {
            assert(final(actions)@ =~= old(actions)@ + report_actions(n));
        } else {
            assert(final(actions)@ =~= old(actions)@ + report_actions(n));
        }
    }
    NodeStatus { name: n.name.clone(), status, comment: n.comment.clone() }
}

/// Interprets every report, in order; the actions for each report follow
/// those of the reports before it.
pub fn nodes_status(reports: &Vec<NodeReport>, actions: &mut Vec<Action>) -> (r: Vec<NodeStatus>)
    ensures
        r@.len() == reports@.len(),
        forall|i: int|
            0 <= i < reports@.len() ==> {
                &&& (#[trigger] r@[i]).name == reports@[i].name
                &&& r@[i].status == interpreted(reports@[i].state@, reports@[i].jobs)
                &&& r@[i].comment == reports@[i].comment
            },
        final(actions)@ == old(actions)@ + reports@.fold_left(
            Seq::<Action>::empty(),
            |acc: Seq<Action>, n: NodeReport| acc + report_actions(&n),
        ),
{
    let ghost f = |acc: Seq<Action>, n: NodeReport| acc + report_actions(&n);
    let mut r: Vec<NodeStatus> = Vec::new();
    let mut i: usize = 0;
    while i < reports.len()
        invariant
            i <= reports@.len(),
            r@.len() == i,
            f == (|acc: Seq<Action>, n: NodeReport| acc + report_actions(&n)),
            forall|j: int|
                0 <= j < i ==> {
                    &&& (#[trigger] r@[j]).name == reports@[j].name
                    &&& r@[j].status == interpreted(reports@[j].state@, reports@[j].jobs)
                    &&& r@[j].comment == reports@[j].comment
                },
            actions@ == old(actions)@ + reports@.subrange(0, i as int).fold_left(
                Seq::<Action>::empty(),
                f,
            ),
        decreases reports@.len() - i,
    {
        let s = node_status(&reports[i], actions);
        proof {
            let pre = reports@.subrange(0, i as int);
            let next = reports@.subrange(0, i + 1);
            assert(next.drop_last() =~= pre);
            assert(next.last() == reports@[i as int]);
            next.lemma_fold_left_split(Seq::<Action>::empty(), f, i as int);
            assert(next.subrange(0, i as int) =~= pre);
            assert(next.subrange(i as int, i + 1) =~= seq![reports@[i as int]]);
            reveal_with_fuel(Seq::fold_left, 2);
            assert(seq![reports@[i as int]].fold_left(pre.fold_left(Seq::<Action>::empty(), f), f)
                == f(pre.fold_left(Seq::<Action>::empty(), f), reports@[i as int]));
            assert(actions@ =~= old(actions)@ + next.fold_left(Seq::<Action>::empty(), f));
        }
        r.push(s);
        i = i + 1;
    }
    assert(reports@.subrange(0, reports@.len() as int) =~= reports@);
    r
}

/// A node in a state that no rule names is taken offline and counted as
/// `Down`, or `Draining` when work runs on it, and exactly one notice is
/// sent for it.
pub proof fn lemma_unrecognized_offlined(n: &NodeReport)
    requires
        !recognized_state(n.state@),
    ensures
        interpreted(n.state@, n.jobs) == unless_busy(n.jobs, TargetStatus::Down),
        report_actions(n)[0] == Action::Command(
            Command::Offline { target: n.name, comment: n.comment },
        ),
        notice_count(report_actions(n)) == 1,
{
    let s = report_actions(n);
    assert(s.drop_last() =~= seq![s[0]]);
    assert(seq![s[0]].drop_last() =~= Seq::<Action>::empty());
    reveal_with_fuel(notice_count, 3);
}

/// The number of reports in a state that no rule names.
pub open spec fn unrecognized_count(reports: Seq<NodeReport>) -> nat
    decreases reports.len(),
{
    if reports.len() == 0 {
        0
    } else {
        unrecognized_count(reports.drop_last()) + if recognized_state(reports.last().state@) {
            0nat
        } else {
            1nat
        }
    }
}

/// Interpreting a list of reports asks for exactly one offline command and
/// sends exactly one notice for each report in a state that no rule names,
/// and for no other.
pub proof fn lemma_unrecognized_counted(reports: Seq<NodeReport>)
    ensures
        notice_count(
            reports.fold_left(
                Seq::<Action>::empty(),
                |acc: Seq<Action>, n: NodeReport| acc + report_actions(&n),
            ),
        ) == unrecognized_count(reports),
        command_count(
            reports.fold_left(
                Seq::<Action>::empty(),
                |acc: Seq<Action>, n: NodeReport| acc + report_actions(&n),
            ),
        ) == unrecognized_count(reports),
    decreases reports.len(),
{
    let f = |acc: Seq<Action>, n: NodeReport| acc + report_actions(&n);
    if reports.len() > 0 {
        let init = reports.drop_last();
        lemma_unrecognized_counted(init);
        let n = reports.last();
        lemma_counts_concat(init.fold_left(Seq::<Action>::empty(), f), report_actions(&n));
        let s = report_actions(&n);
        if recognized_state(n.state@) {
            assert(s =~= Seq::<Action>::empty());
        } else {
            assert(s.drop_last() =~= seq![s[0]]);
            assert(seq![s[0]].drop_last() =~= Seq::<Action>::empty());
            reveal_with_fuel(notice_count, 3);
            reveal_with_fuel(command_count, 3);
        }
    }
}

/// A state that mentions `offline` is `Offline`, or `Draining` when work
/// runs on the node.
pub proof fn lemma_offline_states(state: Seq<char>, jobs: bool)
    requires
        has_substring(state, "offline"@),
    ensures
        !jobs ==> interpreted(state, jobs) == TargetStatus::Offline,
        jobs ==> interpreted(state, jobs) == TargetStatus::Draining,
{
}

/// An operator takes `target` offline: the command, and the notice to send
/// once it has succeeded.
pub fn offline_node(target: &str, comment: &str, operator: &str) -> (r: (Command, Notice))
    ensures
        r.0 matches Command::Offline { target: t, comment: c } && t@ == target@ && c@ == comment@,
        r.1 matches Notice::Offlining { operator: o, target: t, comment: c } && o@ == operator@
            && t@ == target@ && c@ == comment@,
{
    (
        Command::Offline { target: String::from_str(target), comment: String::from_str(comment) },
        Notice::Offlining {
            operator: String::from_str(operator),
            target: String::from_str(target),
            comment: String::from_str(comment),
        },
    )
}

/// An operator returns `target` to service: the command, and the notice to
/// send once it has succeeded.
pub fn release_node(target: &str, operator: &str) -> (r: (Command, Notice))
    ensures
        r.0 matches Command::Release { target: t } && t@ == target@,
        r.1 matches Notice::Onlining { operator: o, target: t } && o@ == operator@ && t@
            == target@,
{
    (
        Command::Release { target: String::from_str(target) },
        Notice::Onlining { operator: String::from_str(operator), target: String::from_str(target) },
    )
}

} // verus!
