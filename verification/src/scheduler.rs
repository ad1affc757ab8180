//! Per-tick decisions of the heartbeat scheduler.
//!
//! The long-running loop itself — sleeping for [`crate::cluster::HEARTBEAT_INTERVAL`]
//! between ticks and publishing on the transport — lives outside the
//! library; each tick it reads the clock once and calls [`ClusterState::heartbeat_tick`],
//! then publishes the returned messages in order.

use vstd::prelude::*;

use crate::cluster::{ClusterState, InstanceInfoModel, InstanceInfo, evaluated};
use crate::protocol::ClusterMessage;

verus! {

impl ClusterState {
    /// One scheduler tick at time `now`: run an election pass, build this
    /// instance's heartbeat, and — exactly when the pass made this
    /// instance the new leader — an advisory announcement to speed up
    /// convergence elsewhere.
    pub fn heartbeat_tick(&mut self, now: u64) -> (r: (ClusterMessage, Option<ClusterMessage>))
        requires
            old(self)@.wf(),
        ensures
            final(self)@ == evaluated(old(self)@, now as int),
            final(self)@.wf(),
            r.0 matches ClusterMessage::Heartbeat(hb) && hb@ == (InstanceInfoModel {
                instance_id: old(self)@.my_instance_id,
                priority: old(self)@.my_priority,
                last_seen: now as int,
                is_leader: evaluated(old(self)@, now as int).is_leader,
            }),
            ({
                let passed = evaluated(old(self)@, now as int);
                if passed.current_leader != old(self)@.current_leader && passed.is_leader {
                    r.1 matches Some(m) && m matches ClusterMessage::LeaderAnnouncement(id) && id@
                        == old(self)@.my_instance_id
                } else {
                    r.1 is None
                }
            }),
    {
        let changed = self.check_leader(now);
        let became_leader = changed && self.is_leader;
        let heartbeat = ClusterMessage::Heartbeat(
            InstanceInfo {
                instance_id: self.my_instance_id.clone(),
                priority: self.my_priority,
                last_seen: now,
                is_leader: self.is_leader,
            },
        );
        let announcement = if became_leader {
            Some(ClusterMessage::LeaderAnnouncement(self.my_instance_id.clone()))
        } else {
            None
        };
        (heartbeat, announcement)
    }
}

} // verus!
