use std::path::PathBuf;
use std::sync::atomic::Ordering;
use std::sync::Arc;

use portopener::counters::{clamp_connections, RuleCounters, RunningTask};
use portopener::rule::{CreateRuleRequest, ForwardRule, Protocol, RuleStats, RuleStatus, UpdateRuleRequest};
use portopener::state::ForwarderState;
use tokio_util::sync::CancellationToken;

fn state() -> ForwarderState {
    ForwarderState::with_config_path(PathBuf::from("/tmp/portopener/rules.json"))
}

fn req(name: &str, protocol: Protocol, listen: &str, target: &str) -> CreateRuleRequest {
    CreateRuleRequest {
        name: name.to_string(),
        protocol,
        listen_addr: listen.to_string(),
        target_addr: target.to_string(),
    }
}

fn task() -> (RunningTask, CancellationToken, Arc<RuleCounters>) {
    let token = CancellationToken::new();
    let counters = Arc::new(RuleCounters::new());
    (RunningTask::new(token.clone(), counters.clone()), token, counters)
}

fn is_uuid_v4(s: &str) -> bool {
    let b = s.as_bytes();
    b.len() == 36
        && b.iter().enumerate().all(|(i, c)| {
            if i == 8 || i == 13 || i == 18 || i == 23 {
                *c == b'-'
            } else {
                c.is_ascii_digit() || (b'a'..=b'f').contains(c)
            }
        })
        && b[14] == b'4'
        && matches!(b[19], b'8' | b'9' | b'a' | b'b')
}

#[test]
fn stats_default_is_zero() {
    let s = RuleStats::default();
    assert_eq!(s, RuleStats { bytes_up: 0, bytes_down: 0, connections: 0 });
}

#[test]
fn new_rule_is_stopped_with_uuid_id() {
    let r = ForwardRule::new(7, "web".to_string(), Protocol::Tcp, "0.0.0.0:9000".to_string(), "127.0.0.1:8000".to_string());
    assert!(is_uuid_v4(&r.id), "{}", r.id);
    assert_eq!(r.order, 7);
    assert_eq!(r.name, "web");
    assert_eq!(r.protocol, Protocol::Tcp);
    assert_eq!(r.listen_addr, "0.0.0.0:9000");
    assert_eq!(r.target_addr, "127.0.0.1:8000");
    assert!(!r.enabled);
    assert_eq!(r.status, RuleStatus::Stopped);
    assert_eq!(r.stats, RuleStats::default());
}

#[test]
fn new_rules_get_different_ids() {
    let a = ForwardRule::new(0, String::new(), Protocol::Udp, String::new(), String::new());
    let b = ForwardRule::new(0, String::new(), Protocol::Udp, String::new(), String::new());
    assert_ne!(a.id, b.id);
}

#[test]
fn rule_with_id_keeps_the_id() {
    let r = ForwardRule::with_id("abc".to_string(), 3, "n".to_string(), Protocol::Udp, "l".to_string(), "t".to_string());
    assert_eq!(r.id, "abc");
    assert_eq!(r.order, 3);
    assert_eq!(r.status, RuleStatus::Stopped);
}

#[test]
fn rule_status_equality() {
    assert_eq!(RuleStatus::Error("x".to_string()), RuleStatus::Error("x".to_string()));
    assert_ne!(RuleStatus::Error("x".to_string()), RuleStatus::Error("y".to_string()));
    assert_ne!(RuleStatus::Stopped, RuleStatus::Running);
    assert_ne!(RuleStatus::Running, RuleStatus::Error(String::new()));
}

#[test]
fn fresh_state_is_empty() {
    let mut s = state();
    assert_eq!(s.config_path(), &Some(PathBuf::from("/tmp/portopener/rules.json")));
    assert_eq!(s.log_path(), &Some(PathBuf::from("/tmp/portopener/portopener.log")));
    assert!(s.all_rules().is_empty());
    assert!(s.list_rules().is_empty());
    assert!(!s.is_running("x"));
    assert_eq!(s.next_order(), 0);
}

#[test]
fn config_path_without_parent_has_no_log_path() {
    let s = ForwarderState::with_config_path(PathBuf::from(""));
    assert_eq!(s.log_path(), &None);
}

#[test]
fn next_order_counts_up() {
    let mut s = state();
    assert_eq!(s.next_order(), 0);
    assert_eq!(s.next_order(), 1);
    assert_eq!(s.next_order(), 2);
}

#[test]
fn add_rule_gives_next_order_and_lists_it() {
    let mut s = state();
    let a = s.add_rule(req("a", Protocol::Tcp, "0.0.0.0:1", "h:1"));
    let b = s.add_rule(req("b", Protocol::Udp, "0.0.0.0:2", "h:2"));
    assert_eq!(a.order, 0);
    assert_eq!(b.order, 1);
    let listed = s.list_rules();
    assert_eq!(listed.len(), 2);
    assert_eq!(listed[0].id, a.id);
    assert_eq!(listed[1].id, b.id);
    assert_eq!(listed[1].protocol, Protocol::Udp);
    assert_eq!(s.next_order(), 2);
}

#[test]
fn remove_rule_undoes_add_rule() {
    let mut s = state();
    let a = s.add_rule(req("a", Protocol::Tcp, "l", "t"));
    let before: Vec<String> = s.all_rules().into_iter().map(|r| r.id).collect();
    let b = s.add_rule(req("b", Protocol::Tcp, "l", "t"));
    assert_eq!(s.remove_rule(&b.id), Ok(()));
    let after: Vec<String> = s.all_rules().into_iter().map(|r| r.id).collect();
    assert_eq!(before, after);
    assert_eq!(after, vec![a.id]);
}

#[test]
fn remove_unknown_rule_fails() {
    let mut s = state();
    assert_eq!(s.remove_rule("nope"), Err("Rule not found".to_string()));
}

#[test]
fn remove_running_rule_is_refused() {
    let mut s = state();
    let a = s.add_rule(req("a", Protocol::Tcp, "l", "t"));
    let (t, _, _) = task();
    s.record_started(&a.id, t);
    assert_eq!(s.remove_rule(&a.id), Err("Stop the rule before removing it".to_string()));
    assert_eq!(s.all_rules().len(), 1);
}

#[test]
fn update_rule_edits_fields() {
    let mut s = state();
    let a = s.add_rule(req("a", Protocol::Tcp, "l", "t"));
    let r = s.update_rule(UpdateRuleRequest {
        id: a.id.clone(),
        name: "renamed".to_string(),
        protocol: Protocol::Udp,
        listen_addr: "0.0.0.0:53".to_string(),
        target_addr: "8.8.8.8:53".to_string(),
    });
    assert_eq!(r, Ok(()));
    let all = s.all_rules();
    assert_eq!(all.len(), 1);
    assert_eq!(all[0].id, a.id);
    assert_eq!(all[0].order, a.order);
    assert_eq!(all[0].name, "renamed");
    assert_eq!(all[0].protocol, Protocol::Udp);
    assert_eq!(all[0].listen_addr, "0.0.0.0:53");
    assert_eq!(all[0].target_addr, "8.8.8.8:53");
}

#[test]
fn update_running_or_missing_rule_fails() {
    let mut s = state();
    let a = s.add_rule(req("a", Protocol::Tcp, "l", "t"));
    let missing = UpdateRuleRequest {
        id: "missing".to_string(),
        name: String::new(),
        protocol: Protocol::Tcp,
        listen_addr: String::new(),
        target_addr: String::new(),
    };
    assert_eq!(s.update_rule(missing), Err("Rule not found".to_string()));
    let (t, _, _) = task();
    s.record_started(&a.id, t);
    let edit = UpdateRuleRequest {
        id: a.id.clone(),
        name: "x".to_string(),
        protocol: Protocol::Tcp,
        listen_addr: String::new(),
        target_addr: String::new(),
    };
    assert_eq!(s.update_rule(edit), Err("Stop the rule before editing it".to_string()));
    assert_eq!(s.all_rules()[0].name, "a");
}

#[test]
fn start_and_stop_a_rule() {
    let mut s = state();
    let a = s.add_rule(req("a", Protocol::Tcp, "0.0.0.0:9000", "127.0.0.1:8000"));
    let plan = s.prepare_start(&a.id).unwrap();
    assert_eq!(plan.protocol, Protocol::Tcp);
    assert_eq!(plan.listen_addr, "0.0.0.0:9000");
    assert_eq!(plan.target_addr, "127.0.0.1:8000");
    let (t, token, counters) = task();
    s.record_started(&a.id, t);
    assert!(s.is_running(&a.id));
    let r = &s.all_rules()[0];
    assert!(r.enabled);
    assert_eq!(r.status, RuleStatus::Running);
    assert!(matches!(s.prepare_start(&a.id), Err(e) if e == "Already running"));
    let handed = s.stop(&a.id).ok().unwrap();
    assert!(Arc::ptr_eq(&handed.counters, &counters));
    assert!(!token.is_cancelled());
    handed.cancel.cancel();
    assert!(token.is_cancelled());
    assert!(!s.is_running(&a.id));
    let r = &s.all_rules()[0];
    assert!(!r.enabled);
    assert_eq!(r.status, RuleStatus::Stopped);
}

#[test]
fn start_unknown_rule_fails() {
    let s = state();
    assert!(matches!(s.prepare_start("ghost"), Err(e) if e == "Rule not found"));
}

#[test]
fn stop_rule_that_is_not_running_fails() {
    let mut s = state();
    let a = s.add_rule(req("a", Protocol::Tcp, "l", "t"));
    assert!(matches!(s.stop(&a.id), Err(e) if e == "Not running"));
    assert!(matches!(s.stop("ghost"), Err(e) if e == "Not running"));
    assert!(!s.is_running(&a.id));
    assert_eq!(s.all_rules()[0].status, RuleStatus::Stopped);
}

#[test]
fn finished_task_records_error() {
    let mut s = state();
    let a = s.add_rule(req("a", Protocol::Udp, "l", "t"));
    let (t, _, _) = task();
    let run = s.record_started(&a.id, t);
    s.record_finished(&a.id, run, Err("Bind failed: address in use".to_string()));
    assert!(!s.is_running(&a.id));
    let r = &s.all_rules()[0];
    assert!(!r.enabled);
    assert_eq!(r.status, RuleStatus::Error("Bind failed: address in use".to_string()));
}

#[test]
fn finished_task_without_error_stops_the_rule() {
    let mut s = state();
    let a = s.add_rule(req("a", Protocol::Udp, "l", "t"));
    let (t, _, _) = task();
    let run = s.record_started(&a.id, t);
    s.record_finished(&a.id, run, Ok(()));
    assert_eq!(s.all_rules()[0].status, RuleStatus::Stopped);
}

#[test]
fn stop_after_start_restores_the_rule() {
    let mut s = state();
    let a = s.add_rule(req("a", Protocol::Tcp, "l", "t"));
    let (t, _, _) = task();
    s.record_started(&a.id, t);
    assert!(s.stop(&a.id).is_ok());
    let r = &s.all_rules()[0];
    assert_eq!(r.id, a.id);
    assert_eq!(r.enabled, a.enabled);
    assert_eq!(r.status, a.status);
    assert_eq!(r.order, a.order);
    assert!(!s.is_running(&a.id));
}

#[test]
fn live_stats_of_running_rule() {
    let mut s = state();
    let a = s.add_rule(req("a", Protocol::Tcp, "l", "t"));
    assert_eq!(s.get_live_stats(&a.id), None);
    let (t, _, counters) = task();
    s.record_started(&a.id, t);
    counters.bytes_up.fetch_add(100, Ordering::Relaxed);
    counters.bytes_down.fetch_add(250, Ordering::Relaxed);
    counters.connections.fetch_sub(3, Ordering::Relaxed);
    assert_eq!(
        s.get_live_stats(&a.id),
        Some(RuleStats { bytes_up: 100, bytes_down: 250, connections: 0 })
    );
    counters.connections.fetch_add(5, Ordering::Relaxed);
    let listed = s.list_rules();
    assert_eq!(listed[0].stats, RuleStats { bytes_up: 100, bytes_down: 250, connections: 2 });
    assert_eq!(s.all_rules()[0].stats.connections, 2);
}

#[test]
fn live_counters_are_those_of_the_filed_task() {
    let mut s = state();
    let a = s.add_rule(req("a", Protocol::Tcp, "l", "t"));
    let b = s.add_rule(req("b", Protocol::Udp, "l", "t"));
    assert!(s.live_counters(&a.id).is_none());
    let (ta, _, ca) = task();
    let (tb, _, cb) = task();
    s.record_started(&a.id, ta);
    s.record_started(&b.id, tb);
    ca.bytes_up.fetch_add(7, Ordering::Relaxed);
    cb.bytes_up.fetch_add(9, Ordering::Relaxed);
    assert!(std::ptr::eq(s.live_counters(&a.id).unwrap(), &*ca));
    assert!(std::ptr::eq(s.live_counters(&b.id).unwrap(), &*cb));
    assert_eq!(s.get_live_stats(&a.id).unwrap().bytes_up, 7);
    assert_eq!(s.get_live_stats(&b.id).unwrap().bytes_up, 9);
    assert!(s.live_counters("ghost").is_none());
}

#[test]
fn every_task_belongs_to_a_running_rule() {
    let mut s = state();
    let a = s.add_rule(req("a", Protocol::Tcp, "l", "t"));
    let b = s.add_rule(req("b", Protocol::Udp, "l", "t"));
    let (ta, _, _) = task();
    let (tb, _, _) = task();
    s.record_started(&a.id, ta);
    let run_b = s.record_started(&b.id, tb);
    s.record_finished(&b.id, run_b, Ok(()));
    assert!(s.remove_rule(&b.id).is_ok());
    for r in s.list_rules() {
        assert_eq!(s.is_running(&r.id), r.enabled && r.status == RuleStatus::Running);
    }
    assert!(s.is_running(&a.id));
    assert!(!s.is_running(&b.id));
}

#[test]
fn snapshot_of_fresh_counters_is_zero() {
    let c = RuleCounters::new();
    assert_eq!(c.snapshot(), RuleStats::default());
}

#[test]
fn negative_connection_count_reads_as_zero() {
    assert_eq!(clamp_connections(-4), 0);
    assert_eq!(clamp_connections(0), 0);
    assert_eq!(clamp_connections(9), 9);
}

#[test]
fn import_assigns_fresh_ids_and_consecutive_orders() {
    let mut s = state();
    s.add_rule(req("a", Protocol::Tcp, "l", "t"));
    let mut incoming = ForwardRule::with_id("old-id".to_string(), 99, "x".to_string(), Protocol::Udp, "lx".to_string(), "tx".to_string());
    incoming.enabled = true;
    incoming.status = RuleStatus::Running;
    incoming.stats = RuleStats { bytes_up: 5, bytes_down: 6, connections: 7 };
    let second = ForwardRule::with_id("old-id".to_string(), 98, "y".to_string(), Protocol::Tcp, "ly".to_string(), "ty".to_string());
    let n = s.import_rules(vec![incoming, second]);
    assert_eq!(n, 2);
    let listed = s.list_rules();
    assert_eq!(listed.len(), 3);
    assert_eq!(listed.iter().map(|r| r.order).collect::<Vec<_>>(), vec![0, 1, 2]);
    assert_eq!(listed[1].name, "x");
    assert_eq!(listed[2].name, "y");
    for r in &listed[1..] {
        assert!(is_uuid_v4(&r.id));
        assert!(!r.enabled);
        assert_eq!(r.status, RuleStatus::Stopped);
        assert_eq!(r.stats, RuleStats::default());
    }
    assert_ne!(listed[1].id, listed[2].id);
    assert_eq!(s.next_order(), 3);
}

#[test]
fn import_nothing_changes_nothing() {
    let mut s = state();
    assert_eq!(s.import_rules(Vec::new()), 0);
    assert!(s.all_rules().is_empty());
    assert_eq!(s.next_order(), 0);
}

#[test]
fn restore_normalizes_and_sets_next_order() {
    let mut s = state();
    s.add_rule(req("gone", Protocol::Tcp, "l", "t"));
    let mut a = ForwardRule::with_id("a".to_string(), 4, "a".to_string(), Protocol::Tcp, "l".to_string(), "t".to_string());
    a.enabled = true;
    a.status = RuleStatus::Error("boom".to_string());
    a.stats = RuleStats { bytes_up: 1, bytes_down: 2, connections: 3 };
    let b = ForwardRule::with_id("b".to_string(), 10, "b".to_string(), Protocol::Udp, "l".to_string(), "t".to_string());
    let a2 = ForwardRule::with_id("a".to_string(), 2, "a2".to_string(), Protocol::Udp, "l".to_string(), "t".to_string());
    s.restore_rules(vec![a, b, a2]);
    let listed = s.list_rules();
    assert_eq!(listed.len(), 2);
    assert_eq!(listed[0].id, "a");
    assert_eq!(listed[0].name, "a2");
    assert_eq!(listed[0].order, 2);
    assert_eq!(listed[1].id, "b");
    for r in &listed {
        assert!(!r.enabled);
        assert_eq!(r.status, RuleStatus::Stopped);
        assert_eq!(r.stats, RuleStats::default());
    }
    assert_eq!(s.next_order(), 11);
}

#[test]
fn restore_nothing_resets_next_order() {
    let mut s = state();
    s.add_rule(req("a", Protocol::Tcp, "l", "t"));
    s.restore_rules(Vec::new());
    assert!(s.all_rules().is_empty());
    assert_eq!(s.next_order(), 0);
}

#[test]
fn saved_rules_have_zero_counters() {
    let mut s = state();
    let a = s.add_rule(req("a", Protocol::Tcp, "l", "t"));
    let (t, _, counters) = task();
    s.record_started(&a.id, t);
    counters.bytes_up.fetch_add(42, Ordering::Relaxed);
    s.list_rules();
    assert_eq!(s.all_rules()[0].stats.bytes_up, 42);
    let saved = s.persistent_rules();
    assert_eq!(saved.len(), 1);
    assert_eq!(saved[0].stats, RuleStats::default());
    assert_eq!(saved[0].status, RuleStatus::Running);
}

#[test]
fn load_after_save_gives_back_the_rules_stopped() {
    let mut s = state();
    let a = s.add_rule(req("a", Protocol::Tcp, "l1", "t1"));
    let b = s.add_rule(req("b", Protocol::Udp, "l2", "t2"));
    let (t, _, _) = task();
    s.record_started(&b.id, t);
    let saved = s.persistent_rules();
    let mut fresh = state();
    fresh.restore_rules(saved);
    let listed = fresh.list_rules();
    assert_eq!(listed.len(), 2);
    assert_eq!(listed[0].id, a.id);
    assert_eq!(listed[1].id, b.id);
    assert_eq!(listed[1].name, "b");
    assert_eq!(listed[1].listen_addr, "l2");
    assert_eq!(listed[1].status, RuleStatus::Stopped);
    assert!(!listed[1].enabled);
    assert_eq!(fresh.next_order(), 2);
}

#[test]
fn listing_is_sorted_by_order() {
    let mut s = state();
    let rules = vec![
        ForwardRule::with_id("x".to_string(), 5, "x".to_string(), Protocol::Tcp, String::new(), String::new()),
        ForwardRule::with_id("y".to_string(), 1, "y".to_string(), Protocol::Tcp, String::new(), String::new()),
        ForwardRule::with_id("z".to_string(), 3, "z".to_string(), Protocol::Tcp, String::new(), String::new()),
        ForwardRule::with_id("w".to_string(), 3, "w".to_string(), Protocol::Tcp, String::new(), String::new()),
    ];
    s.restore_rules(rules);
    let ids: Vec<String> = s.list_rules().into_iter().map(|r| r.id).collect();
    assert_eq!(ids, vec!["y", "z", "w", "x"]);
}

#[test]
fn every_rule_keeps_the_registry_invariant() {
    let mut s = state();
    let a = s.add_rule(req("a", Protocol::Tcp, "l", "t"));
    let b = s.add_rule(req("b", Protocol::Udp, "l", "t"));
    s.import_rules(vec![ForwardRule::with_id("i".to_string(), 0, "i".to_string(), Protocol::Tcp, String::new(), String::new())]);
    let (t1, _, _) = task();
    let (t2, _, _) = task();
    s.record_started(&a.id, t1);
    let run_b = s.record_started(&b.id, t2);
    s.record_finished(&b.id, run_b, Err("Accept error".to_string()));
    let next = s.upcoming_order();
    for r in s.list_rules() {
        assert!(r.order < next);
        assert_eq!(r.enabled, r.status == RuleStatus::Running);
        if r.status == RuleStatus::Running {
            assert!(s.is_running(&r.id));
        }
    }
    assert!(s.is_running(&a.id));
    assert!(!s.is_running(&b.id));
}

#[test]
fn log_path_as_text() {
    let s = state();
    assert_eq!(s.log_path_text(), Ok("/tmp/portopener/portopener.log".to_string()));
    let bare = ForwarderState::with_config_path(PathBuf::from(""));
    assert_eq!(bare.log_path_text(), Err("Log path not set".to_string()));
}

#[test]
fn old_run_exit_after_restart_leaves_new_run_alone() {
    let mut s = state();
    let a = s.add_rule(req("a", Protocol::Tcp, "l", "t"));
    let (t1, token1, _) = task();
    let first = s.record_started(&a.id, t1);
    s.stop(&a.id).ok().unwrap().cancel.cancel();
    assert!(token1.is_cancelled());
    s.prepare_start(&a.id).unwrap();
    let (t2, token2, _) = task();
    let second = s.record_started(&a.id, t2);
    assert_ne!(first, second);
    // The first forward ends only now.
    s.record_finished(&a.id, first, Ok(()));
    assert!(s.is_running(&a.id));
    assert_eq!(s.all_rules()[0].status, RuleStatus::Running);
    assert!(!token2.is_cancelled());
    s.stop(&a.id).ok().unwrap().cancel.cancel();
    assert!(token2.is_cancelled());
    assert!(!s.is_running(&a.id));
    assert_eq!(s.all_rules()[0].status, RuleStatus::Stopped);
}

#[test]
fn finish_of_unfiled_run_changes_nothing() {
    let mut s = state();
    let a = s.add_rule(req("a", Protocol::Udp, "l", "t"));
    s.record_finished(&a.id, 7, Err("late".to_string()));
    assert_eq!(s.all_rules()[0].status, RuleStatus::Stopped);
    assert!(!s.is_running(&a.id));
}

#[test]
fn runs_are_numbered_in_turn() {
    let mut s = state();
    assert_eq!(s.upcoming_run(), 0);
    let a = s.add_rule(req("a", Protocol::Tcp, "l", "t"));
    let b = s.add_rule(req("b", Protocol::Tcp, "l", "t"));
    let (t1, _, _) = task();
    let (t2, _, _) = task();
    assert_eq!(s.record_started(&a.id, t1), 0);
    assert_eq!(s.record_started(&b.id, t2), 1);
    assert_eq!(s.upcoming_run(), 2);
}

#[test]
fn log_path_of_bare_name_and_root() {
    let bare = ForwarderState::with_config_path(PathBuf::from("rules.json"));
    assert_eq!(bare.log_path(), &Some(PathBuf::from("portopener.log")));
    assert_eq!(bare.config_path(), &Some(PathBuf::from("rules.json")));
    let root = ForwarderState::with_config_path(PathBuf::from("/"));
    assert_eq!(root.log_path(), &None);
}

#[test]
fn a_forward_that_ends_by_itself_is_not_cancelled() {
    let mut s = state();
    let a = s.add_rule(req("a", Protocol::Tcp, "l", "t"));
    let (t, token, _) = task();
    let run = s.record_started(&a.id, t);
    s.record_finished(&a.id, run, Err("Accept error: too many files".to_string()));
    assert!(!token.is_cancelled());
    assert!(!s.is_running(&a.id));
}

#[test]
fn import_after_export_doubles_the_rules() {
    let mut s = state();
    let a = s.add_rule(req("a", Protocol::Tcp, "la", "ta"));
    let b = s.add_rule(req("b", Protocol::Udp, "lb", "tb"));
    let (t, _, _) = task();
    s.record_started(&a.id, t);
    let exported = s.all_rules();
    let n = s.import_rules(exported);
    assert_eq!(n, 2);
    let all = s.list_rules();
    assert_eq!(all.len(), 4);
    let old_a = all.iter().find(|r| r.id == a.id).unwrap();
    assert_eq!(old_a.status, RuleStatus::Running);
    let old_b = all.iter().find(|r| r.id == b.id).unwrap();
    assert_eq!(old_b.name, "b");
    let copies: Vec<_> = all.iter().filter(|r| r.id != a.id && r.id != b.id).collect();
    assert_eq!(copies.len(), 2);
    let mut endpoints: Vec<_> = copies.iter().map(|r| (r.name.clone(), r.protocol, r.listen_addr.clone(), r.target_addr.clone())).collect();
    endpoints.sort_by(|x, y| x.0.cmp(&y.0));
    assert_eq!(endpoints, vec![
        ("a".to_string(), Protocol::Tcp, "la".to_string(), "ta".to_string()),
        ("b".to_string(), Protocol::Udp, "lb".to_string(), "tb".to_string()),
    ]);
    for c in copies {
        assert!(!c.enabled);
        assert_eq!(c.status, RuleStatus::Stopped);
        assert!(c.order >= 2);
    }
}

#[test]
fn successive_orders_count_up_from_the_next_one() {
    let mut s = state();
    s.restore_rules(vec![ForwardRule::with_id("x".to_string(), 41, String::new(), Protocol::Tcp, String::new(), String::new())]);
    let got: Vec<u64> = (0..5).map(|_| s.next_order()).collect();
    assert_eq!(got, vec![42, 43, 44, 45, 46]);
}
