//! Inbound message protocol: the closed set of coordination message kinds
//! and the dispatcher that applies one received message to the local
//! cluster state.
//!
//! The dispatcher performs no I/O itself: decoding happens before it is
//! called (an undecodable body arrives as `None` and is dropped silently),
//! and every outward effect — publishing a snapshot, replacing the config
//! store, persisting a template — is returned as a [`DispatchAction`] for
//! the caller to perform.

use vstd::prelude::*;

use crate::cluster::{
    ClusterState, ClusterStateModel, InstanceInfo, InstanceInfoModel, heartbeat_applied,
    find_idx, lemma_find_idx, lemma_evaluate_idempotent, str_eq,
};

verus! {

/// Closed set of message kinds exchanged over the coordination channel.
#[derive(Debug, PartialEq)]
pub enum ClusterMessage {
    /// Periodic liveness-plus-metadata broadcast from one instance.
    Heartbeat(InstanceInfo),
    /// Full snapshot of the leader's configuration store.
    ConfigUpdate(String),
    /// Advisory claim that the named instance is the leader.
    LeaderAnnouncement(String),
    /// One ticket template, replicated to every instance regardless of role.
    TicketTemplateUpdate { guild_id: u64, content: String },
    /// Asks the current leader to publish a `ConfigUpdate`.
    ConfigRequest,
}

/// Outward side effect that the caller must perform after a dispatch; the
/// dispatcher itself only mutates the in-memory cluster state.
#[derive(Debug, PartialEq)]
pub enum DispatchAction {
    /// Nothing to do.
    Ignore,
    /// This instance is the leader and was asked for its configuration:
    /// publish a `ConfigUpdate` carrying a full snapshot of the store.
    PublishConfigSnapshot,
    /// Replace the entire local config store with this received snapshot.
    ReplaceConfigStore(String),
    /// Persist this ticket template under the given scope.
    WriteTicketTemplate { guild_id: u64, content: String },
}

/// Effect of an advisory leader announcement carrying `id`: the named
/// instance's entry, if present, is flagged as leader; the local belief
/// follows the claim unconditionally.
pub open spec fn announce_applied(st: ClusterStateModel, id: Seq<char>) -> ClusterStateModel {
    let r = find_idx(st.instances, id);
    let marked = if r >= 0 {
        st.instances.update(r, InstanceInfoModel { is_leader: true, ..st.instances[r] })
    } else {
        st.instances
    };
    ClusterStateModel {
        instances: marked,
        current_leader: Some(id),
        is_leader: id == st.my_instance_id,
        ..st
    }
}

impl ClusterState {
    /// Dispatch one received transport message against the local state.
    ///
    /// A message from any channel other than the coordination channel, or
    /// one whose body did not decode (`None`), is ignored without effect.
    /// Heartbeats update membership and re-run the election; a leader
    /// announcement is applied unconditionally as an advisory claim; the
    /// config exchange and template replication produce an action for the
    /// caller and leave the state untouched.
    pub fn handle_cluster_message(
        &mut self,
        origin_channel_id: u64,
        msg: Option<ClusterMessage>,
        now: u64,
    ) -> (action: DispatchAction)
        requires
            old(self)@.wf(),
        ensures
            final(self)@.wf(),
            origin_channel_id != old(self).coordination_channel_id || msg is None ==> *final(self)
                == *old(self) && action == DispatchAction::Ignore,
            origin_channel_id == old(self).coordination_channel_id ==> match msg {
                Some(m) => match m {
                    ClusterMessage::Heartbeat(info) => final(self)@ == heartbeat_applied(
                        old(self)@,
                        info@,
                        now as int,
                    ) && action == DispatchAction::Ignore,
                    ClusterMessage::ConfigUpdate(cfg) => *final(self) == *old(self) && action
                        == if old(self).is_leader {
                        DispatchAction::Ignore
                    } else {
                        DispatchAction::ReplaceConfigStore(cfg)
                    },
                    ClusterMessage::LeaderAnnouncement(id) => final(self)@ == announce_applied(
                        old(self)@,
                        id@,
                    ) && action == DispatchAction::Ignore,
                    ClusterMessage::TicketTemplateUpdate { guild_id, content } => *final(self)
                        == *old(self) && action == (DispatchAction::WriteTicketTemplate {
                        guild_id,
                        content,
                    }),
                    ClusterMessage::ConfigRequest => *final(self) == *old(self) && action
                        == if old(self).is_leader {
                        DispatchAction::PublishConfigSnapshot
                    } else {
                        DispatchAction::Ignore
                    },
                },
                None => true,
            },
    {
        if origin_channel_id != self.coordination_channel_id {
            return DispatchAction::Ignore;
        }
        let m = match msg {
            Some(m) => m,
            None => {
                return DispatchAction::Ignore;
            },
        };
        match m {
            ClusterMessage::ConfigRequest => {
                if self.is_leader {
                    DispatchAction::PublishConfigSnapshot
                } else {
                    DispatchAction::Ignore
                }
            },
            ClusterMessage::Heartbeat(info) => {
                self.update_instance(info, now);
                self.check_leader(now);
                proof {
                    lemma_evaluate_idempotent(
                        (ClusterStateModel {
                            instances: crate::cluster::upserted(old(self)@.instances, info@),
                            ..old(self)@
                        }),
                        now as int,
                    );
                }
                DispatchAction::Ignore
            },
            ClusterMessage::ConfigUpdate(config) => {
                if self.is_leader {
                    DispatchAction::Ignore
                } else {
                    DispatchAction::ReplaceConfigStore(config)
                }
            },
            ClusterMessage::LeaderAnnouncement(instance_id) => {
                self.apply_leader_announcement(instance_id);
                DispatchAction::Ignore
            },
            ClusterMessage::TicketTemplateUpdate { guild_id, content } => {
                DispatchAction::WriteTicketTemplate { guild_id, content }
            },
        }
    }

    /// Apply an advisory leader announcement: flag the named instance's
    /// membership entry, if any, and adopt the claim locally.
    fn apply_leader_announcement(&mut self, instance_id: String)
        requires
            old(self)@.wf(),
        ensures
            final(self)@ == announce_applied(old(self)@, instance_id@),
            final(self)@.wf(),
    {
        let ghost s0 = self.instances.deep_view();
        let mut k: usize = 0;
        while k < self.instances.len() && !str_eq(
            &self.instances[k].instance_id,
            &instance_id,
        )
            invariant
                *self == *old(self),
                s0 == self.instances.deep_view(),
                k <= s0.len(),
                forall|j: int| 0 <= j < k ==> s0[j].instance_id != instance_id@,
            decreases s0.len() - k,
        {
            k += 1;
        }
        proof {
            lemma_find_idx(s0, instance_id@);
        }
        if k < self.instances.len() {
            proof {
                let fd = find_idx(s0, instance_id@);
                assert(s0[k as int].instance_id == instance_id@);
                assert(fd >= 0);
                if fd < k as int {
                    assert(s0[fd].instance_id != instance_id@);
                }
                if fd > k as int {
                    assert(s0[k as int].instance_id != instance_id@);
                }
                assert(fd == k as int);
            }
            let marked = InstanceInfo {
                instance_id: self.instances[k].instance_id.clone(),
                priority: self.instances[k].priority,
                last_seen: self.instances[k].last_seen,
                is_leader: true,
            };
            self.instances[k] = marked;
        }
        self.is_leader = str_eq(&instance_id, &self.my_instance_id);
        self.current_leader = Some(instance_id);
        proof {
            assert(self@ =~= announce_applied(old(self)@, instance_id@));
            assert forall|i: int, j: int|
                0 <= i < j < self@.instances.len() implies self@.instances[i].instance_id
                != self@.instances[j].instance_id by {
                assert(self@.instances[i].instance_id == s0[i].instance_id);
                assert(self@.instances[j].instance_id == s0[j].instance_id);
            }
        }
    }
}

} // verus!
