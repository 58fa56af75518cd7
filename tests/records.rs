use ctt::cluster::topology::{TopoNode, Topology};
use ctt::entities::comment;
use ctt::entities::issue::{self, IssueStatus, ToOffline};
use ctt::entities::target::{self, TargetStatus};
use ctt::store::{Store, Write};

fn rec_target(id: i32, name: &str, status: TargetStatus) -> target::Model {
    target::Model { id, name: name.to_string(), status }
}

fn rec_issue(id: i32, target_id: i32, title: &str, open: bool, to_offline: Option<ToOffline>) -> issue::Model {
    issue::Model {
        assigned_to: None,
        created_at: 0,
        created_by: "ops".to_string(),
        description: title.to_string(),
        to_offline,
        enforce_down: false,
        id,
        issue_status: if open { IssueStatus::Open } else { IssueStatus::Closed },
        target_id,
        title: title.to_string(),
    }
}

fn rec_topology() -> Topology {
    let n = |name: &str, card: u32, blade: u32| TopoNode { name: name.to_string(), card, blade };
    Topology {
        nodes: vec![n("node01", 1, 1), n("node02", 1, 1), n("node03", 2, 1), n("node04", 3, 2)],
    }
}

#[test]
fn topology_groups() {
    let t = rec_topology();
    assert!(t.real_node("node03"));
    assert!(!t.real_node("node99"));
    assert_eq!(t.siblings("node01"), vec!["node02".to_string()]);
    assert_eq!(t.cousins("node01"), vec!["node02".to_string(), "node03".to_string()]);
    assert_eq!(t.cousins("node03"), vec!["node01".to_string(), "node02".to_string()]);
    assert!(t.siblings("node03").is_empty());
    assert!(t.cousins("node04").is_empty());
    assert!(t.siblings("node99").is_empty());
}

#[test]
fn store_new_computes_next_ids() {
    let s = Store::new(
        vec![rec_target(4, "node01", TargetStatus::Online), rec_target(9, "node02", TargetStatus::Down)],
        vec![rec_issue(7, 4, "a", true, None)],
        vec![comment::Model { id: 3, issue_id: 7, created_by: "x".to_string(), comment: "y".to_string(), created_at: 0 }],
    )
    .unwrap();
    assert_eq!(s.next_target_id, 10);
    assert_eq!(s.next_issue_id, 8);
    assert_eq!(s.next_comment_id, 4);
    assert!(s.pending.is_empty());
}

#[test]
fn store_new_refuses_duplicate_names() {
    let s = Store::new(
        vec![rec_target(1, "node01", TargetStatus::Online), rec_target(2, "node01", TargetStatus::Down)],
        vec![],
        vec![],
    );
    assert!(s.is_none());
}

#[test]
fn store_new_refuses_duplicate_ids() {
    let s = Store::new(
        vec![rec_target(1, "node01", TargetStatus::Online), rec_target(1, "node02", TargetStatus::Down)],
        vec![],
        vec![],
    );
    assert!(s.is_none());
}

#[test]
fn store_new_refuses_largest_id() {
    let s = Store::new(vec![rec_target(i32::MAX, "node01", TargetStatus::Online)], vec![], vec![]);
    assert!(s.is_none());
    let s = Store::new(vec![], vec![rec_issue(i32::MAX, 1, "a", true, None)], vec![]);
    assert!(s.is_none());
}

#[test]
fn target_lookups() {
    let rows = vec![rec_target(4, "node01", TargetStatus::Online), rec_target(9, "node02", TargetStatus::Down)];
    assert_eq!(target::Entity::find_by_name(&rows, "node02"), Some(1));
    assert_eq!(target::Entity::find_by_name(&rows, "node03"), None);
    assert_eq!(target::Entity::find_by_id(&rows, 4), Some(0));
    assert_eq!(target::Entity::find_by_id(&rows, 5), None);
}

#[test]
fn issue_lookups() {
    let rows = vec![
        rec_issue(1, 4, "a", true, None),
        rec_issue(2, 9, "b", true, None),
        rec_issue(3, 4, "c", false, None),
    ];
    assert_eq!(issue::Entity::find_by_id(&rows, 3), Some(2));
    assert_eq!(issue::Entity::find_by_id(&rows, 8), None);
    assert_eq!(issue::Entity::find_by_target(&rows, 4), vec![0, 2]);
    assert!(issue::Entity::find_by_target(&rows, 5).is_empty());
}

#[test]
fn issues_by_target_name_create_the_target() {
    let mut s = Store::new(
        vec![rec_target(4, "node01", TargetStatus::Online)],
        vec![rec_issue(1, 4, "a", true, None), rec_issue(2, 4, "b", false, None)],
        vec![],
    )
    .unwrap();
    assert_eq!(issue::Entity::find_by_target_name(&mut s, "node01"), Some(vec![0, 1]));
    assert_eq!(s.targets.len(), 1);
    assert_eq!(issue::Entity::find_by_target_name(&mut s, "node02"), Some(vec![]));
    assert_eq!(s.targets.len(), 2);
    assert_eq!(s.targets[1].name, "node02");
    assert_eq!(s.targets[1].id, 5);
    assert_eq!(s.targets[1].status, TargetStatus::Online);
    assert_eq!(s.pending, vec![Write::CreateTarget { id: 5 }]);
}

#[test]
fn already_open_matches_open_title_only() {
    let mut s = Store::new(
        vec![rec_target(4, "node01", TargetStatus::Online)],
        vec![rec_issue(1, 4, "gone", false, None), rec_issue(2, 4, "gone", true, None), rec_issue(3, 4, "other", true, None)],
        vec![],
    )
    .unwrap();
    assert_eq!(issue::Entity::already_open("node01", "gone", &mut s), Some(1));
    assert_eq!(issue::Entity::already_open("node01", "missing", &mut s), None);
}

#[test]
fn topology_new_refuses_duplicate_names() {
    let n = |name: &str| TopoNode { name: name.to_string(), card: 1, blade: 1 };
    assert!(Topology::new(vec![n("a"), n("b"), n("a")]).is_none());
    let t = Topology::new(vec![n("a"), n("b")]).unwrap();
    assert_eq!(t.nodes.len(), 2);
}

#[test]
fn comment_lookup() {
    let rows = vec![
        comment::Model { id: 3, issue_id: 1, created_by: "x".to_string(), comment: "y".to_string(), created_at: 0 },
        comment::Model { id: 8, issue_id: 1, created_by: "x".to_string(), comment: "z".to_string(), created_at: 0 },
    ];
    assert_eq!(comment::Entity::find_by_id(&rows, 8), Some(1));
    assert_eq!(comment::Entity::find_by_id(&rows, 4), None);
}

#[test]
fn already_open_on_unstored_name_creates_target() {
    let mut s = Store::new(vec![rec_target(4, "node01", TargetStatus::Online)], vec![rec_issue(1, 4, "gone", true, None)], vec![]).unwrap();
    assert_eq!(issue::Entity::already_open("node02", "gone", &mut s), None);
    assert_eq!(s.targets.len(), 2);
    assert_eq!(s.targets[1].name, "node02");
    assert_eq!(s.targets[1].id, 5);
    assert_eq!(s.pending, vec![Write::CreateTarget { id: 5 }]);
}
