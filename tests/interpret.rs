use ctt::cluster::scheduler::{interpret_state, node_status, nodes_status, offline_node, release_node, NodeReport};
use ctt::effects::{Action, Command, Notice};
use ctt::entities::target::TargetStatus;
use ctt::text::{contains, str_eq};

fn report(name: &str, state: &str, jobs: bool, comment: &str) -> NodeReport {
    NodeReport {
        name: name.to_string(),
        state: state.to_string(),
        jobs,
        comment: comment.to_string(),
    }
}

#[test]
fn substring_search() {
    assert!(contains("down,offline", "offline"));
    assert!(contains("down,offline", "down"));
    assert!(contains("abc", ""));
    assert!(!contains("offlin", "offline"));
    assert!(!contains("", "a"));
    assert!(contains("job-exclusive", "exclusive"));
}

#[test]
fn exact_string_equality() {
    assert!(str_eq("free", "free"));
    assert!(!str_eq("free", "freed"));
    assert!(!str_eq("job-busy", "job-bus"));
    assert!(str_eq("", ""));
}

#[test]
fn offline_states_follow_work() {
    assert_eq!(interpret_state("offline", false), (TargetStatus::Offline, true));
    assert_eq!(interpret_state("offline", true), (TargetStatus::Draining, true));
    assert_eq!(interpret_state("down,offline", false), (TargetStatus::Offline, true));
    assert_eq!(interpret_state("job-busy,offline", true), (TargetStatus::Draining, true));
}

#[test]
fn down_states_follow_work() {
    assert_eq!(interpret_state("down", false), (TargetStatus::Down, true));
    assert_eq!(interpret_state("state-unknown,down", true), (TargetStatus::Draining, true));
}

#[test]
fn serving_states_are_online() {
    assert_eq!(interpret_state("free", false), (TargetStatus::Online, true));
    assert_eq!(interpret_state("job-busy", true), (TargetStatus::Online, true));
    assert_eq!(interpret_state("job-exclusive", true), (TargetStatus::Online, true));
    assert_eq!(interpret_state("resv-exclusive", false), (TargetStatus::Online, true));
}

#[test]
fn unknown_states_are_not_recognized() {
    assert_eq!(interpret_state("busy", false), (TargetStatus::Down, false));
    assert_eq!(interpret_state("free2", true), (TargetStatus::Draining, false));
    assert_eq!(interpret_state("", false), (TargetStatus::Down, false));
}

#[test]
fn unknown_state_offlines_and_notifies_once() {
    let mut actions = Vec::new();
    let s = node_status(&report("node12", "weird-unknown-state", true, "bad dimm"), &mut actions);
    assert_eq!(s.status, TargetStatus::Draining);
    assert_eq!(s.name, "node12");
    assert_eq!(s.comment, "bad dimm");
    assert_eq!(actions.len(), 2);
    assert!(matches!(&actions[0], Action::Command(Command::Offline { target, comment })
        if target == "node12" && comment == "bad dimm"));
    assert!(matches!(&actions[1], Action::Notify(Notice::UnrecognizedOffline { target, comment })
        if target == "node12" && comment == "bad dimm"));
    let notices = actions.iter().filter(|a| matches!(a, Action::Notify(_))).count();
    assert_eq!(notices, 1);
}

#[test]
fn unknown_state_without_work_is_down() {
    let mut actions = Vec::new();
    let s = node_status(&report("node05", "mystery", false, ""), &mut actions);
    assert_eq!(s.status, TargetStatus::Down);
    assert_eq!(actions.len(), 2);
}

#[test]
fn known_state_asks_nothing() {
    let mut actions = Vec::new();
    let s = node_status(&report("node07", "job-exclusive", true, ""), &mut actions);
    assert_eq!(s.status, TargetStatus::Online);
    assert!(actions.is_empty());
}

#[test]
fn all_reports_in_order() {
    let reports = vec![
        report("node01", "free", false, ""),
        report("node02", "odd", false, "c2"),
        report("node03", "down", true, ""),
        report("node04", "strange", true, "c4"),
    ];
    let mut actions = Vec::new();
    let r = nodes_status(&reports, &mut actions);
    assert_eq!(r.len(), 4);
    assert_eq!(r[0].status, TargetStatus::Online);
    assert_eq!(r[1].status, TargetStatus::Down);
    assert_eq!(r[2].status, TargetStatus::Draining);
    assert_eq!(r[3].status, TargetStatus::Draining);
    assert_eq!(r[3].name, "node04");
    assert_eq!(actions.len(), 4);
    assert!(matches!(&actions[0], Action::Command(Command::Offline { target, .. }) if target == "node02"));
    assert!(matches!(&actions[2], Action::Command(Command::Offline { target, comment })
        if target == "node04" && comment == "c4"));
}

#[test]
fn operator_offline_and_release() {
    let (c, n) = offline_node("node01", "fan", "alice");
    assert!(matches!(c, Command::Offline { ref target, ref comment } if target == "node01" && comment == "fan"));
    assert!(matches!(n, Notice::Offlining { ref operator, ref target, ref comment }
        if operator == "alice" && target == "node01" && comment == "fan"));
    let (c, n) = release_node("node01", "bob");
    assert!(matches!(c, Command::Release { ref target } if target == "node01"));
    assert!(matches!(n, Notice::Onlining { ref operator, ref target } if operator == "bob" && target == "node01"));
}
