//! The inbound message dispatcher and the heartbeat scheduler tick.

use cluster_core::cluster::{ClusterState, InstanceInfo, Role};
use cluster_core::protocol::{ClusterMessage, DispatchAction};

const CHANNEL: u64 = 42;

fn info(id: &str, priority: i32, last_seen: u64) -> InstanceInfo {
    InstanceInfo {
        instance_id: id.to_owned(),
        priority,
        last_seen,
        is_leader: false,
    }
}

fn follower(id: &str) -> ClusterState {
    ClusterState::new(id.to_owned(), 1, CHANNEL)
}

/// A state that currently believes itself leader, built by letting the
/// instance receive its own heartbeat.
fn leader(id: &str) -> ClusterState {
    let mut st = follower(id);
    let action = st.handle_cluster_message(
        CHANNEL,
        Some(ClusterMessage::Heartbeat(info(id, 1, 100))),
        100,
    );
    assert_eq!(action, DispatchAction::Ignore);
    assert!(st.is_leader);
    st
}

#[test]
fn foreign_channel_is_ignored_without_inspection() {
    let mut st = leader("me");
    let action = st.handle_cluster_message(
        CHANNEL + 1,
        Some(ClusterMessage::ConfigRequest),
        100,
    );
    assert_eq!(action, DispatchAction::Ignore);
    assert!(st.is_leader);
    assert_eq!(st.instances.len(), 1);
}

#[test]
fn undecodable_body_is_dropped_silently() {
    let mut st = follower("me");
    let action = st.handle_cluster_message(CHANNEL, None, 100);
    assert_eq!(action, DispatchAction::Ignore);
    assert_eq!(st.instances.len(), 0);
}

#[test]
fn heartbeat_updates_membership_and_reelects() {
    let mut st = follower("me");
    let action = st.handle_cluster_message(
        CHANNEL,
        Some(ClusterMessage::Heartbeat(info("peer", 5, 100))),
        100,
    );
    assert_eq!(action, DispatchAction::Ignore);
    assert_eq!(st.instances.len(), 1);
    assert_eq!(st.current_leader.as_deref(), Some("peer"));
    assert!(!st.is_leader);
}

#[test]
fn announcement_is_applied_before_any_heartbeat() {
    let mut st = follower("f");
    let action = st.handle_cluster_message(
        CHANNEL,
        Some(ClusterMessage::LeaderAnnouncement("l".to_owned())),
        100,
    );
    assert_eq!(action, DispatchAction::Ignore);
    assert_eq!(st.current_leader.as_deref(), Some("l"));
    assert!(!st.is_leader);
    assert_eq!(st.instances.len(), 0);
}

#[test]
fn announcement_marks_known_entry_and_self() {
    let mut st = follower("me");
    st.update_instance(info("peer", 5, 100), 100);
    st.handle_cluster_message(
        CHANNEL,
        Some(ClusterMessage::LeaderAnnouncement("me".to_owned())),
        100,
    );
    assert_eq!(st.current_leader.as_deref(), Some("me"));
    assert!(st.is_leader);
    assert_eq!(st.role(), Role::Leader);
    assert!(!st.instances[0].is_leader, "only the named entry is marked");

    st.handle_cluster_message(
        CHANNEL,
        Some(ClusterMessage::LeaderAnnouncement("peer".to_owned())),
        100,
    );
    assert_eq!(st.current_leader.as_deref(), Some("peer"));
    assert!(!st.is_leader);
    assert!(st.instances[0].is_leader);
}

#[test]
fn leader_answers_config_request() {
    let mut st = leader("me");
    let action = st.handle_cluster_message(CHANNEL, Some(ClusterMessage::ConfigRequest), 100);
    assert_eq!(action, DispatchAction::PublishConfigSnapshot);
}

#[test]
fn non_leader_ignores_config_request() {
    let mut st = follower("me");
    let action = st.handle_cluster_message(CHANNEL, Some(ClusterMessage::ConfigRequest), 100);
    assert_eq!(action, DispatchAction::Ignore);
}

#[test]
fn leader_keeps_its_store_on_config_update() {
    let mut st = leader("me");
    let action = st.handle_cluster_message(
        CHANNEL,
        Some(ClusterMessage::ConfigUpdate("snapshot".to_owned())),
        100,
    );
    assert_eq!(action, DispatchAction::Ignore);
}

#[test]
fn follower_replaces_its_store_on_config_update() {
    let mut st = follower("me");
    let action = st.handle_cluster_message(
        CHANNEL,
        Some(ClusterMessage::ConfigUpdate("snapshot".to_owned())),
        100,
    );
    assert_eq!(action, DispatchAction::ReplaceConfigStore("snapshot".to_owned()));
}

#[test]
fn template_update_is_persisted_regardless_of_role() {
    let mut st = follower("me");
    let action = st.handle_cluster_message(
        CHANNEL,
        Some(ClusterMessage::TicketTemplateUpdate {
            guild_id: 7,
            content: "welcome".to_owned(),
        }),
        100,
    );
    assert_eq!(
        action,
        DispatchAction::WriteTicketTemplate { guild_id: 7, content: "welcome".to_owned() }
    );

    let mut ld = leader("me");
    let action = ld.handle_cluster_message(
        CHANNEL,
        Some(ClusterMessage::TicketTemplateUpdate {
            guild_id: 7,
            content: "welcome".to_owned(),
        }),
        100,
    );
    assert_eq!(
        action,
        DispatchAction::WriteTicketTemplate { guild_id: 7, content: "welcome".to_owned() }
    );
}

#[test]
fn tick_builds_heartbeat_from_own_identity() {
    let mut st = follower("me");
    let (heartbeat, announcement) = st.heartbeat_tick(123);
    match heartbeat {
        ClusterMessage::Heartbeat(hb) => {
            assert_eq!(hb.instance_id, "me");
            assert_eq!(hb.priority, 1);
            assert_eq!(hb.last_seen, 123);
            assert!(!hb.is_leader);
        }
        other => panic!("expected a heartbeat, got {other:?}"),
    }
    assert_eq!(announcement, None);
}

#[test]
fn tick_announces_exactly_on_becoming_leader() {
    let mut st = follower("me");
    // The instance has already received its own heartbeat back.
    st.handle_cluster_message(
        CHANNEL,
        Some(ClusterMessage::Heartbeat(info("me", 1, 100))),
        100,
    );
    assert!(st.is_leader);
    // Becoming leader happened in the dispatcher, not in a tick, so the
    // next tick announces nothing new.
    let (_, announcement) = st.heartbeat_tick(101);
    assert_eq!(announcement, None);

    // A fresh instance that elects itself during the tick announces.
    let mut st2 = follower("solo");
    st2.update_instance(info("solo", 1, 99), 99);
    assert!(st2.is_leader);
    let (_, none_again) = st2.heartbeat_tick(100);
    assert_eq!(none_again, None);

    // Leadership change inside the tick itself: the previous leader goes
    // stale and this instance's own record is still live.
    let mut st3 = follower("late");
    st3.update_instance(info("boss", 9, 100), 100);
    st3.update_instance(info("late", 1, 150), 150);
    assert_eq!(st3.current_leader.as_deref(), Some("boss"));
    let (_, ann) = st3.heartbeat_tick(170);
    match ann {
        Some(ClusterMessage::LeaderAnnouncement(id)) => assert_eq!(id, "late"),
        other => panic!("expected an announcement, got {other:?}"),
    }
    assert!(st3.is_leader);
}
