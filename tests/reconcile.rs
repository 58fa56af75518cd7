use ctt::cluster::scheduler::NodeReport;
use ctt::cluster::topology::{TopoNode, Topology};
use ctt::effects::{Action, Command, Notice};
use ctt::entities::issue::{self, IssueStatus, ToOffline};
use ctt::entities::target::{self, TargetStatus};
use ctt::store::{Store, Write};
use ctt::sync::{
    close_open_issues, desired_state, get_ctt_nodes, handle_transition, issue_open, pbs_sync, transition,
    Effect,
};

fn t(id: i32, name: &str, status: TargetStatus) -> target::Model {
    target::Model { id, name: name.to_string(), status }
}

fn iss(id: i32, target_id: i32, title: &str, open: bool, to_offline: Option<ToOffline>) -> issue::Model {
    issue::Model {
        assigned_to: None,
        created_at: 0,
        created_by: "ops".to_string(),
        description: title.to_string(),
        to_offline,
        enforce_down: false,
        id,
        issue_status: if open { IssueStatus::Open } else { IssueStatus::Closed },
        target_id,
        title: title.to_string(),
    }
}

fn cluster() -> Topology {
    let n = |name: &str, card: u32, blade: u32| TopoNode { name: name.to_string(), card, blade };
    Topology {
        nodes: vec![
            n("node01", 1, 1),
            n("node02", 1, 1),
            n("node03", 2, 1),
            n("node04", 3, 2),
            n("node07", 4, 3),
            n("node12", 5, 4),
        ],
    }
}

fn targets_all_online() -> Vec<target::Model> {
    vec![
        t(1, "node01", TargetStatus::Online),
        t(2, "node02", TargetStatus::Online),
        t(3, "node03", TargetStatus::Online),
        t(4, "node04", TargetStatus::Online),
    ]
}

fn rep(name: &str, state: &str, jobs: bool, comment: &str) -> NodeReport {
    NodeReport { name: name.to_string(), state: state.to_string(), jobs, comment: comment.to_string() }
}

#[test]
fn desired_not_real_node() {
    let db = Store::new(vec![t(1, "ghost", TargetStatus::Online)], vec![], vec![]).unwrap();
    assert_eq!(desired_state("ghost", &db, &cluster()), (TargetStatus::Offline, "not a real node".to_string()));
}

#[test]
fn desired_node_ticket_offlines() {
    let db = Store::new(
        targets_all_online(),
        vec![iss(1, 1, "plain", true, None), iss(2, 1, "psu", true, Some(ToOffline::Target))],
        vec![],
    )
    .unwrap();
    assert_eq!(desired_state("node01", &db, &cluster()), (TargetStatus::Offline, "psu".to_string()));
}

#[test]
fn desired_sibling_ticket_offlines_siblings_only() {
    let db = Store::new(targets_all_online(), vec![iss(1, 1, "card", true, Some(ToOffline::Siblings))], vec![]).unwrap();
    let c = cluster();
    assert_eq!(desired_state("node02", &db, &c), (TargetStatus::Offline, "node01 sibling".to_string()));
    assert_eq!(desired_state("node03", &db, &c), (TargetStatus::Online, String::new()));
    assert_eq!(desired_state("node04", &db, &c), (TargetStatus::Online, String::new()));
    assert_eq!(desired_state("node01", &db, &c), (TargetStatus::Offline, "card".to_string()));
}

#[test]
fn desired_cousin_ticket_offlines_cousins_only() {
    let db = Store::new(targets_all_online(), vec![iss(1, 1, "blade", true, Some(ToOffline::Cousins))], vec![]).unwrap();
    let c = cluster();
    assert_eq!(desired_state("node02", &db, &c), (TargetStatus::Offline, "node01 cousin".to_string()));
    assert_eq!(desired_state("node03", &db, &c), (TargetStatus::Offline, "node01 cousin".to_string()));
    assert_eq!(desired_state("node04", &db, &c), (TargetStatus::Online, String::new()));
}

#[test]
fn desired_closed_scoped_ticket_is_ignored() {
    let db = Store::new(targets_all_online(), vec![iss(1, 1, "old", false, Some(ToOffline::Siblings))], vec![]).unwrap();
    assert_eq!(desired_state("node02", &db, &cluster()), (TargetStatus::Online, String::new()));
}

#[test]
fn desired_unscoped_ticket_is_down() {
    let db = Store::new(targets_all_online(), vec![iss(1, 3, "ecc errors", true, None)], vec![]).unwrap();
    assert_eq!(desired_state("node03", &db, &cluster()), (TargetStatus::Down, "ecc errors".to_string()));
}

#[test]
fn desired_missing_target_record_is_online() {
    let db = Store::new(vec![], vec![], vec![]).unwrap();
    assert_eq!(desired_state("node04", &db, &cluster()), (TargetStatus::Online, String::new()));
}

#[test]
fn transition_table() {
    assert_eq!(transition(TargetStatus::Online, TargetStatus::Online), (TargetStatus::Online, Effect::Nothing));
    assert_eq!(transition(TargetStatus::Online, TargetStatus::Draining), (TargetStatus::Draining, Effect::OpenIssue));
    assert_eq!(transition(TargetStatus::Online, TargetStatus::Offline), (TargetStatus::Offline, Effect::OpenIssue));
    assert_eq!(transition(TargetStatus::Online, TargetStatus::Down), (TargetStatus::Down, Effect::OpenIssue));
    assert_eq!(transition(TargetStatus::Offline, TargetStatus::Draining), (TargetStatus::Draining, Effect::Nothing));
    assert_eq!(transition(TargetStatus::Offline, TargetStatus::Offline), (TargetStatus::Offline, Effect::Nothing));
    assert_eq!(transition(TargetStatus::Offline, TargetStatus::Down), (TargetStatus::Offline, Effect::OfflineNode));
    assert_eq!(transition(TargetStatus::Offline, TargetStatus::Online), (TargetStatus::Draining, Effect::OfflineNode));
    assert_eq!(transition(TargetStatus::Down, TargetStatus::Draining), (TargetStatus::Draining, Effect::Nothing));
    assert_eq!(transition(TargetStatus::Down, TargetStatus::Down), (TargetStatus::Down, Effect::Nothing));
    assert_eq!(transition(TargetStatus::Down, TargetStatus::Offline), (TargetStatus::Offline, Effect::Nothing));
    assert_eq!(transition(TargetStatus::Down, TargetStatus::Online), (TargetStatus::Online, Effect::CloseIssues));
}

#[test]
fn node_found_up_closes_issues() {
    let mut db = Store::new(
        vec![t(1, "node01", TargetStatus::Down)],
        vec![iss(5, 1, "bad disk", true, None), iss(6, 1, "fan", true, None), iss(7, 1, "done", false, None)],
        vec![],
    )
    .unwrap();
    let mut actions = Vec::new();
    let f = handle_transition("node01", "", TargetStatus::Down, TargetStatus::Online, 100, &mut db, &cluster(), &mut actions);
    assert_eq!(f, TargetStatus::Online);
    assert_eq!(db.targets[0].status, TargetStatus::Online);
    assert!(db.issues.iter().all(|i| i.issue_status == IssueStatus::Closed));
    assert_eq!(db.comments.len(), 2);
    assert_eq!(db.comments[0].issue_id, 5);
    assert_eq!(db.comments[1].issue_id, 6);
    assert!(db.comments.iter().all(|c| c.comment == "node found up, assuming issue is resolved" && c.created_by == "ctt" && c.created_at == 100));
    assert!(matches!(&actions[..], [Action::Notify(Notice::IssuesClosed { target })] if target == "node01"));
    assert_eq!(
        db.pending,
        vec![
            Write::CloseIssue { id: 5 },
            Write::AddComment { id: 1 },
            Write::CloseIssue { id: 6 },
            Write::AddComment { id: 2 },
            Write::SetStatus { target_id: 1, status: TargetStatus::Online },
        ]
    );
}

#[test]
fn free_node_stored_down_without_issues_comes_online() {
    let mut db = Store::new(vec![t(1, "node01", TargetStatus::Down)], vec![], vec![]).unwrap();
    let mut actions = Vec::new();
    let out = pbs_sync(&vec![rep("node01", "free", false, "")], 0, &mut db, &cluster(), &mut actions);
    assert_eq!(out.len(), 1);
    assert_eq!(out[0].final_state, Some(TargetStatus::Online));
    assert_eq!(db.targets[0].status, TargetStatus::Online);
    assert!(actions.is_empty());
}

#[test]
fn steady_state_writes_nothing() {
    let mut db = Store::new(vec![t(1, "node07", TargetStatus::Online)], vec![], vec![]).unwrap();
    let mut actions = Vec::new();
    let out = pbs_sync(&vec![rep("node07", "job-exclusive", true, "")], 0, &mut db, &cluster(), &mut actions);
    assert_eq!(out[0].final_state, Some(TargetStatus::Online));
    assert_eq!(out[0].old_state, TargetStatus::Online);
    assert!(db.pending.is_empty());
    assert!(actions.is_empty());
}

#[test]
fn weird_state_is_drained_and_ticketed() {
    let mut db = Store::new(vec![t(1, "node12", TargetStatus::Online)], vec![], vec![]).unwrap();
    let mut actions = Vec::new();
    let out = pbs_sync(&vec![rep("node12", "weird-unknown-state", true, "raw note")], 7, &mut db, &cluster(), &mut actions);
    assert_eq!(out[0].final_state, Some(TargetStatus::Draining));
    assert_eq!(db.targets[0].status, TargetStatus::Draining);
    assert_eq!(db.issues.len(), 1);
    assert_eq!(db.issues[0].title, "raw note");
    assert_eq!(db.issues[0].description, "raw note");
    assert_eq!(db.issues[0].to_offline, None);
    assert_eq!(db.issues[0].issue_status, IssueStatus::Open);
    assert_eq!(db.issues[0].created_by, "ctt");
    assert_eq!(db.issues[0].created_at, 7);
    assert!(matches!(&actions[0], Action::Command(Command::Offline { target, comment }) if target == "node12" && comment == "raw note"));
    assert!(matches!(&actions[1], Action::Notify(Notice::UnrecognizedOffline { .. })));
    assert!(matches!(&actions[2], Action::Notify(Notice::IssueOpened { operator, target, title })
        if operator == "ctt" && target == "node12" && title == "raw note"));
    assert_eq!(actions.len(), 3);
}

#[test]
fn offline_desired_node_up_is_commanded_offline() {
    let mut db = Store::new(vec![t(1, "node04", TargetStatus::Online)], vec![iss(3, 1, "psu", true, Some(ToOffline::Target))], vec![]).unwrap();
    let mut actions = Vec::new();
    let f = handle_transition("node04", "", TargetStatus::Online, TargetStatus::Online, 0, &mut db, &cluster(), &mut actions);
    assert_eq!(f, TargetStatus::Draining);
    assert_eq!(db.targets[0].status, TargetStatus::Draining);
    assert!(matches!(&actions[0], Action::Command(Command::Offline { target, comment }) if target == "node04" && comment == "psu"));
    assert!(matches!(&actions[1], Action::Notify(Notice::NodeOffline { target }) if target == "node04"));
    let mut actions = Vec::new();
    let f = handle_transition("node04", "", TargetStatus::Online, TargetStatus::Down, 0, &mut db, &cluster(), &mut actions);
    assert_eq!(f, TargetStatus::Offline);
}

#[test]
fn twice_same_observation_same_final_no_duplicate_ticket() {
    let mut db = Store::new(vec![t(1, "node03", TargetStatus::Online)], vec![], vec![]).unwrap();
    let c = cluster();
    let mut actions = Vec::new();
    let f1 = handle_transition("node03", "disk", TargetStatus::Online, TargetStatus::Down, 0, &mut db, &c, &mut actions);
    assert_eq!(db.issues.len(), 1);
    let f2 = handle_transition("node03", "disk", TargetStatus::Online, TargetStatus::Down, 0, &mut db, &c, &mut actions);
    assert_eq!(f1, TargetStatus::Down);
    assert_eq!(f2, TargetStatus::Down);
    assert_eq!(db.issues.len(), 1);
}

#[test]
fn open_then_up_closes_everything() {
    let mut db = Store::new(vec![t(1, "node02", TargetStatus::Online)], vec![iss(1, 1, "older", true, None)], vec![]).unwrap();
    let c = cluster();
    let mut actions = Vec::new();
    let k = issue_open("node02", "flaky", "flaky nic", None, "alice", 0, &mut db, &c, &mut actions).unwrap();
    assert_eq!(k, 1);
    assert_eq!(db.issues[1].id, 2);
    let f = handle_transition("node02", "", TargetStatus::Down, TargetStatus::Online, 0, &mut db, &c, &mut actions);
    assert_eq!(f, TargetStatus::Online);
    assert!(db.issues.iter().all(|i| i.issue_status == IssueStatus::Closed));
    assert_eq!(db.comments.len(), 2);
    assert_eq!(db.comments[0].issue_id, 1);
    assert_eq!(db.comments[1].issue_id, 2);
}

#[test]
fn issue_open_refuses_fake_node() {
    let mut db = Store::new(vec![], vec![], vec![]).unwrap();
    let mut actions = Vec::new();
    assert_eq!(issue_open("node99", "x", "y", None, "ctt", 0, &mut db, &cluster(), &mut actions), None);
    assert!(db.issues.is_empty());
    assert!(actions.is_empty());
}

#[test]
fn issue_open_creates_missing_target() {
    let mut db = Store::new(vec![], vec![], vec![]).unwrap();
    let mut actions = Vec::new();
    assert_eq!(issue_open("node04", "x", "y", Some(ToOffline::Cousins), "ctt", 0, &mut db, &cluster(), &mut actions), Some(0));
    assert_eq!(db.targets[0].name, "node04");
    assert_eq!(db.issues[0].target_id, db.targets[0].id);
    assert_eq!(db.issues[0].to_offline, Some(ToOffline::Cousins));
    assert_eq!(db.pending, vec![Write::CreateTarget { id: 1 }, Write::OpenIssue { id: 1 }]);
}

#[test]
fn close_open_issues_without_room_changes_nothing() {
    let mut db = Store::new(vec![t(1, "node01", TargetStatus::Down)], vec![iss(1, 1, "a", true, None)], vec![]).unwrap();
    db.next_comment_id = i32::MAX;
    assert_eq!(close_open_issues("node01", 0, &mut db), None);
    assert_eq!(db.issues[0].issue_status, IssueStatus::Open);
    db.next_comment_id = 1;
    assert_eq!(close_open_issues("node01", 0, &mut db), Some(vec![0]));
    assert_eq!(db.issues[0].issue_status, IssueStatus::Closed);
}

#[test]
fn missing_node_gets_one_ticket() {
    let mut db = Store::new(vec![t(1, "node04", TargetStatus::Online)], vec![], vec![]).unwrap();
    let c = cluster();
    let mut actions = Vec::new();
    let out = pbs_sync(&vec![], 0, &mut db, &c, &mut actions);
    assert_eq!(out[0].final_state, None);
    assert_eq!(db.issues.len(), 1);
    assert_eq!(db.issues[0].title, "Node not found in pbs");
    assert_eq!(db.targets[0].status, TargetStatus::Online);
    let out = pbs_sync(&vec![], 0, &mut db, &c, &mut actions);
    assert_eq!(out[0].final_state, None);
    assert_eq!(db.issues.len(), 1);
}

#[test]
fn new_real_nodes_are_registered_once() {
    let mut db = Store::new(vec![], vec![], vec![]).unwrap();
    let c = cluster();
    let mut actions = Vec::new();
    let reports = vec![rep("node03", "down", false, "dead"), rep("node03", "free", false, ""), rep("nodeX", "free", false, "")];
    let out = pbs_sync(&reports, 0, &mut db, &c, &mut actions);
    assert_eq!(out.len(), 1);
    assert_eq!(out[0].name, "node03");
    assert_eq!(out[0].old_state, TargetStatus::Online);
    assert_eq!(out[0].final_state, Some(TargetStatus::Down));
    assert_eq!(db.targets.len(), 1);
    assert_eq!(db.targets[0].status, TargetStatus::Down);
    assert_eq!(db.issues[0].title, "dead");
}

#[test]
fn stored_nodes_listed() {
    let db = Store::new(targets_all_online(), vec![], vec![]).unwrap();
    let r = get_ctt_nodes(&db);
    assert_eq!(r.len(), 4);
    assert_eq!(r[2], ("node03".to_string(), TargetStatus::Online));
}

#[test]
fn pass_actions_start_with_interpretation() {
    let mut db = Store::new(
        vec![t(1, "node01", TargetStatus::Online), t(2, "node04", TargetStatus::Online)],
        vec![iss(1, 2, "psu", true, Some(ToOffline::Target))],
        vec![],
    )
    .unwrap();
    let mut actions = Vec::new();
    let reports = vec![rep("node04", "free", false, ""), rep("node01", "glitch", false, "odd")];
    let out = pbs_sync(&reports, 0, &mut db, &cluster(), &mut actions);
    assert!(matches!(&actions[0], Action::Command(Command::Offline { target, .. }) if target == "node01"));
    assert!(matches!(&actions[1], Action::Notify(Notice::UnrecognizedOffline { .. })));
    assert_eq!(out[0].name, "node01");
    assert_eq!(out[0].final_state, Some(TargetStatus::Down));
    assert_eq!(out[1].name, "node04");
    assert_eq!(out[1].final_state, Some(TargetStatus::Draining));
    assert_eq!(db.targets[1].status, TargetStatus::Draining);
    assert!(matches!(&actions[2], Action::Notify(Notice::IssueOpened { target, .. }) if target == "node01"));
    assert!(matches!(&actions[3], Action::Command(Command::Offline { target, comment }) if target == "node04" && comment == "psu"));
    assert_eq!(actions.len(), 5);
}

#[test]
fn back_to_back_passes_agree() {
    let mut db = Store::new(
        vec![t(1, "node01", TargetStatus::Online), t(2, "node02", TargetStatus::Online), t(3, "node03", TargetStatus::Down)],
        vec![iss(1, 1, "card fault", true, Some(ToOffline::Siblings)), iss(2, 3, "ecc", true, None)],
        vec![],
    )
    .unwrap();
    let c = cluster();
    let reports = vec![
        rep("node01", "offline", false, ""),
        rep("node02", "free", false, ""),
        rep("node03", "free", false, ""),
        rep("node04", "down", false, "no power"),
    ];
    let mut actions = Vec::new();
    let first = pbs_sync(&reports, 0, &mut db, &c, &mut actions);
    let issues_after_first = db.issues.len();
    let mut again = Vec::new();
    let second = pbs_sync(&reports, 0, &mut db, &c, &mut again);
    let finals = |o: &Vec<ctt::sync::Outcome>| o.iter().map(|x| (x.name.clone(), x.final_state)).collect::<Vec<_>>();
    assert_eq!(
        finals(&first),
        vec![
            ("node01".to_string(), Some(TargetStatus::Offline)),
            ("node02".to_string(), Some(TargetStatus::Draining)),
            ("node03".to_string(), Some(TargetStatus::Online)),
            ("node04".to_string(), Some(TargetStatus::Down)),
        ]
    );
    assert_eq!(finals(&second), finals(&first));
    assert_eq!(db.issues.len(), issues_after_first);
    assert_eq!(db.issues[1].issue_status, IssueStatus::Closed);
    assert_eq!(db.targets[3].name, "node04");
    assert_eq!(db.targets[3].status, TargetStatus::Down);
}
