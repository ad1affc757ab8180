//! Membership and election behaviour of `ClusterState`.

use cluster_core::cluster::{ClusterState, InstanceInfo, Role, LEADER_TIMEOUT};

fn info(id: &str, priority: i32, last_seen: u64) -> InstanceInfo {
    InstanceInfo {
        instance_id: id.to_owned(),
        priority,
        last_seen,
        is_leader: false,
    }
}

fn state(id: &str, priority: i32) -> ClusterState {
    ClusterState::new(id.to_owned(), priority, 42)
}

#[test]
fn new_state_is_empty_follower() {
    let st = state("a", 5);
    assert_eq!(st.instances.len(), 0);
    assert_eq!(st.current_leader, None);
    assert_eq!(st.my_instance_id, "a");
    assert_eq!(st.my_priority, 5);
    assert!(!st.is_leader);
    assert_eq!(st.coordination_channel_id, 42);
    assert_eq!(st.role(), Role::Follower);
}

#[test]
fn higher_priority_wins() {
    let mut st = state("observer", 0);
    st.update_instance(info("a", 5, 100), 100);
    st.update_instance(info("b", 3, 100), 100);
    assert_eq!(st.current_leader.as_deref(), Some("a"));
}

#[test]
fn higher_priority_wins_reversed_arrival() {
    let mut st = state("observer", 0);
    st.update_instance(info("b", 3, 100), 100);
    st.update_instance(info("a", 5, 100), 100);
    assert_eq!(st.current_leader.as_deref(), Some("a"));
}

#[test]
fn equal_priority_favors_most_recent() {
    let mut st = state("observer", 0);
    st.update_instance(info("older", 4, 90), 100);
    st.update_instance(info("newer", 4, 99), 100);
    assert_eq!(st.current_leader.as_deref(), Some("newer"));

    let mut st2 = state("observer", 0);
    st2.update_instance(info("newer", 4, 99), 100);
    st2.update_instance(info("older", 4, 90), 100);
    assert_eq!(st2.current_leader.as_deref(), Some("newer"));
}

#[test]
fn exact_ties_are_deterministic() {
    // Two runs over the same arrival order elect the same instance.
    let mut st1 = state("observer", 0);
    st1.update_instance(info("x", 4, 100), 100);
    st1.update_instance(info("y", 4, 100), 100);
    let mut st2 = state("observer", 0);
    st2.update_instance(info("x", 4, 100), 100);
    st2.update_instance(info("y", 4, 100), 100);
    assert_eq!(st1.current_leader, st2.current_leader);
    assert!(st1.current_leader.is_some());
}

#[test]
fn same_heartbeat_twice_is_idempotent() {
    let mut st = state("observer", 0);
    st.update_instance(info("a", 5, 100), 100);
    let once = st.current_leader.clone();
    let n = st.instances.len();
    st.update_instance(info("a", 5, 100), 100);
    assert_eq!(st.current_leader, once);
    assert_eq!(st.instances.len(), n);
}

#[test]
fn refreshed_heartbeat_overwrites_entry() {
    let mut st = state("observer", 0);
    st.update_instance(info("a", 5, 100), 100);
    st.update_instance(info("a", 5, 110), 110);
    assert_eq!(st.instances.len(), 1);
    assert_eq!(st.instances[0].last_seen, 110);
}

#[test]
fn evaluation_purges_stale_entries() {
    let mut st = state("observer", 0);
    st.update_instance(info("a", 5, 100), 100);
    st.update_instance(info("b", 3, 100), 100);
    // Within the timeout both stay.
    st.check_leader(100 + LEADER_TIMEOUT);
    assert_eq!(st.instances.len(), 2);
    // One second past the timeout both are evicted.
    st.check_leader(101 + LEADER_TIMEOUT);
    assert_eq!(st.instances.len(), 0);
    assert_eq!(st.current_leader, None);
}

#[test]
fn stale_entry_cannot_be_elected() {
    let mut st = state("observer", 0);
    st.update_instance(info("a", 5, 100), 100);
    st.update_instance(info("b", 3, 165), 165);
    // `a` outranks `b` but has not been seen for longer than the timeout.
    st.check_leader(170);
    assert_eq!(st.instances.len(), 1);
    assert_eq!(st.current_leader.as_deref(), Some("b"));
}

#[test]
fn failover_reports_change_exactly_once() {
    let mut st = state("observer", 0);
    st.update_instance(info("a", 5, 100), 100);
    st.update_instance(info("b", 3, 100), 100);
    assert_eq!(st.current_leader.as_deref(), Some("a"));
    // `b` keeps heartbeating, `a` stops.
    st.update_instance(info("b", 3, 150), 150);
    assert_eq!(st.current_leader.as_deref(), Some("a"));
    // Past `a`'s timeout the leadership changes, exactly on that pass.
    let changed = st.check_leader(170);
    assert!(changed);
    assert_eq!(st.current_leader.as_deref(), Some("b"));
    let changed_again = st.check_leader(171);
    assert!(!changed_again);
    assert_eq!(st.current_leader.as_deref(), Some("b"));
}

#[test]
fn change_flag_false_while_leader_stays() {
    let mut st = state("observer", 0);
    st.update_instance(info("a", 5, 100), 100);
    let first = st.check_leader(100);
    assert!(!first, "leader was already elected by the upsert");
    let second = st.check_leader(101);
    assert!(!second);
}

#[test]
fn electing_self_sets_leader_flag_and_role() {
    let mut st = state("me", 7);
    st.update_instance(info("me", 7, 50), 50);
    assert_eq!(st.current_leader.as_deref(), Some("me"));
    assert!(st.is_leader);
    assert_eq!(st.role(), Role::Leader);
    // A better peer appears: back to follower.
    st.update_instance(info("peer", 9, 55), 55);
    assert_eq!(st.current_leader.as_deref(), Some("peer"));
    assert!(!st.is_leader);
    assert_eq!(st.role(), Role::Follower);
}

#[test]
fn future_stamped_entry_counts_as_live() {
    // An entry whose timestamp is ahead of the local clock is not older
    // than the timeout, so it stays and can be elected.
    let mut st = state("observer", 0);
    st.update_instance(info("early", 2, 500), 100);
    assert_eq!(st.instances.len(), 1);
    assert_eq!(st.current_leader.as_deref(), Some("early"));
}

#[test]
fn losing_the_last_entry_reports_a_change() {
    let mut st = state("observer", 0);
    st.update_instance(info("a", 5, 100), 100);
    assert_eq!(st.current_leader.as_deref(), Some("a"));
    let changed = st.check_leader(200);
    assert!(changed);
    assert_eq!(st.current_leader, None);
}

#[test]
fn empty_membership_elects_nobody() {
    let mut st = state("me", 7);
    let changed = st.check_leader(10);
    assert!(!changed);
    assert_eq!(st.current_leader, None);
    assert!(!st.is_leader);
}
