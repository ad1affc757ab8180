//! Membership and election state: per-instance liveness records and the
//! election pass that computes the current leader from them.

use vstd::prelude::*;

verus! {

/// Number of time units after which an unrefreshed membership entry is
/// considered dead and is evicted by the next election pass.
pub const LEADER_TIMEOUT: u64 = 60;

/// Period, in time units, between two heartbeat ticks.
pub const HEARTBEAT_INTERVAL: u64 = 10;

/// Liveness record for one instance, as carried by a heartbeat and as kept
/// in the local membership table.
#[derive(Debug, PartialEq)]
pub struct InstanceInfo {
    /// Globally unique identifier of the instance, fixed for its lifetime.
    pub instance_id: String,
    /// Operator-assigned election weight; a higher value is preferred.
    pub priority: i32,
    /// Timestamp of the heartbeat that produced this record.
    pub last_seen: u64,
    /// Advisory snapshot of whether that instance believed itself leader.
    pub is_leader: bool,
}

/// Mathematical model of an [`InstanceInfo`].
#[verifier::ext_equal]
pub ghost struct InstanceInfoModel {
    pub instance_id: Seq<char>,
    pub priority: int,
    pub last_seen: int,
    pub is_leader: bool,
}

impl View for InstanceInfo {
    type V = InstanceInfoModel;

    open spec fn view(&self) -> InstanceInfoModel {
        InstanceInfoModel {
            instance_id: self.instance_id@,
            priority: self.priority as int,
            last_seen: self.last_seen as int,
            is_leader: self.is_leader,
        }
    }
}

impl DeepView for InstanceInfo {
    type V = InstanceInfoModel;

    open spec fn deep_view(&self) -> InstanceInfoModel {
        self.view()
    }
}

impl Clone for InstanceInfo {
    fn clone(&self) -> (r: Self)
        ensures
            r@ == self@,
    {
        InstanceInfo {
            instance_id: self.instance_id.clone(),
            priority: self.priority,
            last_seen: self.last_seen,
            is_leader: self.is_leader,
        }
    }
}

/// An entry is live at time `now` when its last heartbeat is no older than
/// the eviction timeout.  An entry stamped in the future counts as live.
pub open spec fn is_live(info: InstanceInfoModel, now: int) -> bool {
    now <= info.last_seen + LEADER_TIMEOUT
}

/// `a` strictly beats `b` in the election order: higher priority wins, and
/// among equal priorities the more recently confirmed entry wins.
pub open spec fn beats(a: InstanceInfoModel, b: InstanceInfoModel) -> bool {
    a.priority > b.priority || (a.priority == b.priority && a.last_seen > b.last_seen)
}

/// Index of the elected candidate in `s`: the first entry that no other
/// entry strictly beats.
pub open spec fn best_idx(s: Seq<InstanceInfoModel>) -> int
    recommends
        s.len() > 0,
    decreases s.len(),
{
    if s.len() <= 1 {
        0
    } else {
        let prev = best_idx(s.drop_last());
        if beats(s.last(), s[prev]) {
            s.len() - 1
        } else {
            prev
        }
    }
}

/// The live entries of `s` at time `now`, in their original order.
pub open spec fn live_entries(s: Seq<InstanceInfoModel>, now: int) -> Seq<InstanceInfoModel>
    decreases s.len(),
{
    if s.len() == 0 {
        Seq::empty()
    } else {
        let prefix = live_entries(s.drop_last(), now);
        if is_live(s.last(), now) {
            prefix.push(s.last())
        } else {
            prefix
        }
    }
}

/// First index in `s` whose entry carries `id`, or `-1` when none does.
pub open spec fn find_idx(s: Seq<InstanceInfoModel>, id: Seq<char>) -> int
    decreases s.len(),
{
    if s.len() == 0 {
        -1
    } else if s[0].instance_id == id {
        0
    } else {
        let r = find_idx(s.subrange(1, s.len() as int), id);
        if r < 0 {
            -1
        } else {
            r + 1
        }
    }
}

/// Insert-or-overwrite of `info`, keyed by its instance id.
pub open spec fn upserted(
    s: Seq<InstanceInfoModel>,
    info: InstanceInfoModel,
) -> Seq<InstanceInfoModel> {
    let r = find_idx(s, info.instance_id);
    if r < 0 {
        s.push(info)
    } else {
        s.update(r, info)
    }
}

/// No two entries share an instance id.
pub open spec fn unique_ids(s: Seq<InstanceInfoModel>) -> bool {
    forall|i: int, j: int| 0 <= i < j < s.len() ==> s[i].instance_id != s[j].instance_id
}

/// Leader chosen from a sequence of live entries: none when the sequence is
/// empty, otherwise the id of the winning entry.
pub open spec fn elected_leader(live: Seq<InstanceInfoModel>) -> Option<Seq<char>> {
    if live.len() == 0 {
        None
    } else {
        Some(live[best_idx(live)].instance_id)
    }
}

/// Extending the scanned prefix by one entry extends its live entries by
/// that entry exactly when the entry is live.
pub proof fn lemma_live_entries_take_step(s: Seq<InstanceInfoModel>, now: int, i: int)
    requires
        0 <= i < s.len(),
    ensures
        live_entries(s.take(i + 1), now) == if is_live(s[i], now) {
            live_entries(s.take(i), now).push(s[i])
        } else {
            live_entries(s.take(i), now)
        },
{
    let t = s.take(i + 1);
    assert(t.drop_last() =~= s.take(i));
    assert(t.last() == s[i]);
}

/// Every live entry is live at `now` and is one of the original entries;
/// no entries are invented and none grows stale by surviving the purge.
pub proof fn lemma_live_entries_sound(s: Seq<InstanceInfoModel>, now: int)
    ensures
        live_entries(s, now).len() <= s.len(),
        forall|k: int|
            0 <= k < live_entries(s, now).len() ==> is_live(
                #[trigger] live_entries(s, now)[k],
                now,
            ),
        forall|k: int|
            0 <= k < live_entries(s, now).len() ==> s.contains(
                #[trigger] live_entries(s, now)[k],
            ),
    decreases s.len(),
{
    if s.len() > 0 {
        lemma_live_entries_sound(s.drop_last(), now);
        assert forall|k: int| 0 <= k < live_entries(s, now).len() implies s.contains(
            #[trigger] live_entries(s, now)[k],
        ) by {
            let prefix = live_entries(s.drop_last(), now);
            if k < prefix.len() {
                let j = choose|j: int|
                    0 <= j < s.drop_last().len() && s.drop_last()[j] == prefix[k];
                assert(s[j] == prefix[k]);
            } else {
                assert(s[s.len() - 1] == live_entries(s, now)[k]);
            }
        }
    }
}

/// A live entry of the original sequence survives the purge.
pub proof fn lemma_live_entries_complete(s: Seq<InstanceInfoModel>, now: int, j: int)
    requires
        0 <= j < s.len(),
        is_live(s[j], now),
    ensures
        live_entries(s, now).contains(s[j]),
    decreases s.len(),
{
    if j == s.len() - 1 {
        assert(s.last() == s[j]);
        let live = live_entries(s, now);
        assert(live[live.len() - 1] == s[j]);
    } else {
        lemma_live_entries_complete(s.drop_last(), now, j);
        let prefix = live_entries(s.drop_last(), now);
        let k = choose|k: int| 0 <= k < prefix.len() && prefix[k] == s[j];
        assert(live_entries(s, now)[k] == s[j]);
    }
}

/// Purging keeps instance ids unique.
pub proof fn lemma_live_entries_unique(s: Seq<InstanceInfoModel>, now: int)
    requires
        unique_ids(s),
    ensures
        unique_ids(live_entries(s, now)),
    decreases s.len(),
{
    if s.len() > 0 {
        assert(unique_ids(s.drop_last()));
        lemma_live_entries_unique(s.drop_last(), now);
        if is_live(s.last(), now) {
            let prefix = live_entries(s.drop_last(), now);
            lemma_live_entries_sound(s.drop_last(), now);
            assert forall|i: int, j: int|
                0 <= i < j < live_entries(s, now).len() implies live_entries(s, now)[i].instance_id
                != live_entries(s, now)[j].instance_id by {
                if j == prefix.len() {
                    let x = prefix[i];
                    let k = choose|k: int|
                        0 <= k < s.drop_last().len() && s.drop_last()[k] == x;
                    assert(s[k] == x);
                    assert(s[k].instance_id != s[s.len() - 1].instance_id);
                }
            }
        }
    }
}

/// The elected index is in range and no entry strictly beats the winner.
pub proof fn lemma_best_idx_sound(s: Seq<InstanceInfoModel>)
    requires
        s.len() > 0,
    ensures
        0 <= best_idx(s) < s.len(),
        forall|j: int| 0 <= j < s.len() ==> !beats(s[j], s[best_idx(s)]),
    decreases s.len(),
{
    if s.len() > 1 {
        let sp = s.drop_last();
        lemma_best_idx_sound(sp);
        let prev = best_idx(sp);
        assert forall|j: int| 0 <= j < s.len() implies !beats(s[j], s[best_idx(s)]) by {
            if j < s.len() - 1 {
                assert(!beats(sp[j], sp[prev]));
                assert(sp[j] == s[j]);
                assert(sp[prev] == s[prev]);
            }
        }
    }
}

/// Extending the scanned prefix by one entry moves the elected index to it
/// exactly when the new entry strictly beats the winner so far.
pub proof fn lemma_best_idx_take_step(s: Seq<InstanceInfoModel>, j: int)
    requires
        1 <= j < s.len(),
    ensures
        0 <= best_idx(s.take(j)) < j,
        best_idx(s.take(j + 1)) == if beats(s[j], s[best_idx(s.take(j))]) {
            j
        } else {
            best_idx(s.take(j))
        },
{
    lemma_best_idx_sound(s.take(j));
    let t = s.take(j + 1);
    assert(t.drop_last() =~= s.take(j));
    assert(t.last() == s[j]);
}

/// What `find_idx` returns: either no entry carries `id`, or the returned
/// index is the first one that does.
pub proof fn lemma_find_idx(s: Seq<InstanceInfoModel>, id: Seq<char>)
    ensures
        find_idx(s, id) == -1 || 0 <= find_idx(s, id) < s.len(),
        find_idx(s, id) == -1 ==> forall|j: int| 0 <= j < s.len() ==> s[j].instance_id != id,
        find_idx(s, id) >= 0 ==> s[find_idx(s, id)].instance_id == id,
        find_idx(s, id) >= 0 ==> forall|j: int|
            0 <= j < find_idx(s, id) ==> s[j].instance_id != id,
    decreases s.len(),
{
    if s.len() > 0 && s[0].instance_id != id {
        let rest = s.subrange(1, s.len() as int);
        lemma_find_idx(rest, id);
        assert forall|j: int| 1 <= j < s.len() implies s[j].instance_id == rest[j
            - 1].instance_id by {
            assert(rest[j - 1] == s[j]);
        }
    }
}

/// Upserting keeps instance ids unique.
pub proof fn lemma_upserted_unique(s: Seq<InstanceInfoModel>, info: InstanceInfoModel)
    requires
        unique_ids(s),
    ensures
        unique_ids(upserted(s, info)),
{
    lemma_find_idx(s, info.instance_id);
    let r = find_idx(s, info.instance_id);
    if r >= 0 {
        assert forall|i: int, j: int|
            0 <= i < j < upserted(s, info).len() implies upserted(s, info)[i].instance_id
            != upserted(s, info)[j].instance_id by {
            assert(upserted(s, info)[i].instance_id == s[i].instance_id || (i == r
                && upserted(s, info)[i].instance_id == s[r].instance_id));
        }
    }
}

/// Mathematical model of a [`ClusterState`].
#[verifier::ext_equal]
pub ghost struct ClusterStateModel {
    pub instances: Seq<InstanceInfoModel>,
    pub current_leader: Option<Seq<char>>,
    pub my_instance_id: Seq<char>,
    pub my_priority: int,
    pub is_leader: bool,
    pub coordination_channel_id: int,
}

impl ClusterStateModel {
    /// Well-formedness: membership ids are unique, and the leader flag is
    /// exactly the comparison of `current_leader` with `my_instance_id`.
    pub open spec fn wf(self) -> bool {
        &&& unique_ids(self.instances)
        &&& self.is_leader <==> self.current_leader == Some(self.my_instance_id)
    }
}

/// One election pass at time `now`: evict stale entries, elect the best
/// remaining candidate, recompute the local leader flag.
pub open spec fn evaluated(st: ClusterStateModel, now: int) -> ClusterStateModel {
    let live = live_entries(st.instances, now);
    let leader = elected_leader(live);
    ClusterStateModel { instances: live, current_leader: leader, is_leader: leader == Some(st.my_instance_id), ..st }
}

/// Effect of receiving one heartbeat at time `now`: record it, then run an
/// election pass.
pub open spec fn heartbeat_applied(
    st: ClusterStateModel,
    info: InstanceInfoModel,
    now: int,
) -> ClusterStateModel {
    evaluated(ClusterStateModel { instances: upserted(st.instances, info), ..st }, now)
}

/// Local view of the cluster held by one process: the latest liveness
/// record of every known instance, and the locally believed leader.
pub struct ClusterState {
    /// Latest record per instance id; ids are unique, order carries no
    /// meaning beyond breaking exact ties deterministically.
    pub instances: Vec<InstanceInfo>,
    /// Locally believed leader, if any.
    pub current_leader: Option<String>,
    /// This process's identity, fixed at construction.
    pub my_instance_id: String,
    /// This process's election weight, fixed at construction.
    pub my_priority: i32,
    /// True exactly when `current_leader` names this process.
    pub is_leader: bool,
    /// Identifier of the broadcast channel used for coordination traffic.
    pub coordination_channel_id: u64,
}

impl View for ClusterState {
    type V = ClusterStateModel;

    open spec fn view(&self) -> ClusterStateModel {
        ClusterStateModel {
            instances: self.instances.deep_view(),
            current_leader: match self.current_leader {
                Some(id) => Some(id@),
                None => None,
            },
            my_instance_id: self.my_instance_id@,
            my_priority: self.my_priority as int,
            is_leader: self.is_leader,
            coordination_channel_id: self.coordination_channel_id as int,
        }
    }
}

impl ClusterState {
    /// Fresh state for a process that has seen no traffic yet: empty
    /// membership, no leader, follower role.
    pub fn new(instance_id: String, priority: i32, coordination_channel_id: u64) -> (st: Self)
        ensures
            st@ == (ClusterStateModel {
                instances: Seq::empty(),
                current_leader: None,
                my_instance_id: instance_id@,
                my_priority: priority as int,
                is_leader: false,
                coordination_channel_id: coordination_channel_id as int,
            }),
            st@.wf(),
    {
        let st = ClusterState {
            instances: Vec::new(),
            current_leader: None,
            my_instance_id: instance_id,
            my_priority: priority,
            is_leader: false,
            coordination_channel_id,
        };
        proof {
            assert(st@.instances =~= Seq::<InstanceInfoModel>::empty());
        }
        st
    }

    /// Runtime check of well-formedness: instance ids unique and the
    /// leader flag consistent with `current_leader`.  Every state built by
    /// [`ClusterState::new`] and mutated only through this library is
    /// well-formed; callers that reach into the public fields can use this
    /// to re-establish the fact.
    pub fn is_well_formed(&self) -> (b: bool)
        ensures
            b == self@.wf(),
    {
        let ghost vs = self.instances.deep_view();
        let n = self.instances.len();
        let mut i: usize = 0;
        while i < n
            invariant
                n == self.instances.len(),
                vs == self.instances.deep_view(),
                i <= n,
                forall|p: int, q: int|
                    0 <= p < q < n && p < i ==> vs[p].instance_id != vs[q].instance_id,
            decreases n - i,
        {
            let mut j: usize = i + 1;
            while j < n
                invariant
                    n == self.instances.len(),
                    vs == self.instances.deep_view(),
                    i < n,
                    i < j <= n,
                    forall|q: int| i < q < j ==> vs[i as int].instance_id != vs[q].instance_id,
                decreases n - j,
            {
                if str_eq(&self.instances[i].instance_id, &self.instances[j].instance_id) {
                    proof {
                        assert(vs[i as int].instance_id == vs[j as int].instance_id);
                        assert(!unique_ids(self@.instances));
                    }
                    return false;
                }
                j += 1;
            }
            i += 1;
        }
        match &self.current_leader {
            Some(id) => {
                if str_eq(id, &self.my_instance_id) {
                    self.is_leader
                } else {
                    !self.is_leader
                }
            },
            None => !self.is_leader,
        }
    }

    /// Insert-or-overwrite the liveness record of one instance, keyed by
    /// its id, then run an election pass at time `now`.
    pub fn update_instance(&mut self, info: InstanceInfo, now: u64)
        requires
            old(self)@.wf(),
        ensures
            final(self)@ == evaluated(
                (ClusterStateModel {
                    instances: upserted(old(self)@.instances, info@),
                    ..old(self)@
                }),
                now as int,
            ),
            final(self)@.wf(),
    {
        let ghost s0 = self.instances.deep_view();
        let mut idx: usize = 0;
        while idx < self.instances.len() && !str_eq(
            &self.instances[idx].instance_id,
            &info.instance_id,
        )
            invariant
                *self == *old(self),
                s0 == self.instances.deep_view(),
                idx <= s0.len(),
                forall|j: int| 0 <= j < idx ==> s0[j].instance_id != info@.instance_id,
            decreases s0.len() - idx,
        {
            idx += 1;
        }
        proof {
            lemma_find_idx(s0, info@.instance_id);
            lemma_upserted_unique(s0, info@);
        }
        if idx < self.instances.len() {
            proof {
                let id = info@.instance_id;
                let fd = find_idx(s0, id);
                assert(s0[idx as int].instance_id == id);
                assert(fd >= 0);
                if fd < idx as int {
                    assert(s0[fd].instance_id != id);
                }
                if fd > idx as int {
                    assert(s0[idx as int].instance_id != id);
                }
                assert(fd == idx as int);
            }
            self.instances[idx] = info;
            proof {
                assert(self.instances.deep_view() =~= upserted(s0, info@));
            }
        } else {
            self.instances.push(info);
            proof {
                assert(find_idx(s0, info@.instance_id) == -1);
                assert(self.instances.deep_view() =~= upserted(s0, info@));
            }
        }
        proof {
            assert(self@ =~= (ClusterStateModel {
                instances: upserted(old(self)@.instances, info@),
                ..old(self)@
            }));
        }
        self.check_leader(now);
    }

    /// One election pass at time `now`: evict every entry whose heartbeat
    /// is older than [`LEADER_TIMEOUT`], elect the best remaining candidate
    /// (highest priority, then largest `last_seen`, then earliest position),
    /// and report whether the believed leader's identity changed.
    pub fn check_leader(&mut self, now: u64) -> (changed: bool)
        requires
            old(self)@.wf(),
        ensures
            final(self)@ == evaluated(old(self)@, now as int),
            final(self)@.wf(),
            changed == (evaluated(old(self)@, now as int).current_leader
                != old(self)@.current_leader),
    {
        let ghost s0 = self.instances.deep_view();
        // Purge: keep the entries whose last heartbeat is within the timeout.
        let mut live: Vec<InstanceInfo> = Vec::new();
        let mut i: usize = 0;
        while i < self.instances.len()
            invariant
                *self == *old(self),
                s0 == self.instances.deep_view(),
                i <= self.instances.len(),
                live.deep_view() == live_entries(s0.take(i as int), now as int),
            decreases self.instances.len() - i,
        {
            proof {
                lemma_live_entries_take_step(s0, now as int, i as int);
            }
            let entry = &self.instances[i];
            if now <= entry.last_seen || now - entry.last_seen <= LEADER_TIMEOUT {
                live.push(entry.clone());
                proof {
                    assert(live.deep_view() =~= live_entries(
                        s0.take(i + 1 as int),
                        now as int,
                    ));
                }
            }
            i += 1;
        }
        proof {
            assert(s0.take(s0.len() as int) =~= s0);
        }
        let ghost lv = live_entries(s0, now as int);
        // Elect: scan for the first entry that no other entry strictly beats.
        let mut new_leader: Option<String> = None;
        if live.len() > 0 {
            let mut best: usize = 0;
            let mut j: usize = 1;
            while j < live.len()
                invariant
                    lv == live.deep_view(),
                    1 <= j <= live.len(),
                    0 <= best < j,
                    best as int == best_idx(lv.take(j as int)),
                decreases live.len() - j,
            {
                proof {
                    lemma_best_idx_take_step(lv, j as int);
                }
                let better = live[j].priority > live[best].priority || (live[j].priority
                    == live[best].priority && live[j].last_seen > live[best].last_seen);
                if better {
                    best = j;
                }
                j += 1;
            }
            proof {
                assert(lv.take(lv.len() as int) =~= lv);
            }
            new_leader = Some(live[best].instance_id.clone());
        }
        // Did the leader's identity change?
        let changed: bool = match (&new_leader, &self.current_leader) {
            (Some(a), Some(b)) => !str_eq(a, b),
            (Some(_), None) => true,
            (None, Some(_)) => true,
            (None, None) => false,
        };
        self.instances = live;
        if changed {
            self.is_leader = match &new_leader {
                Some(id) => str_eq(id, &self.my_instance_id),
                None => false,
            };
            self.current_leader = new_leader;
        }
        proof {
            assert(self@ =~= evaluated(old(self)@, now as int));
            lemma_live_entries_unique(s0, now as int);
        }
        changed
    }
}

/// Equality of two instance ids.
pub(crate) fn str_eq(a: &String, b: &String) -> (r: bool)
    ensures
        r == (a@ == b@),
{
    a.eq(b)
}

/// The two roles of the per-instance state machine.
#[derive(Clone, Copy, PartialEq, Eq, Structural, Debug)]
pub enum Role {
    Follower,
    Leader,
}

impl ClusterStateModel {
    /// Role induced by the current belief: leader exactly when
    /// `current_leader` names this instance.
    pub open spec fn role(self) -> Role {
        if self.is_leader {
            Role::Leader
        } else {
            Role::Follower
        }
    }
}

impl ClusterState {
    /// Current role of this process.
    pub fn role(&self) -> (r: Role)
        ensures
            r == self@.role(),
    {
        if self.is_leader {
            Role::Leader
        } else {
            Role::Follower
        }
    }
}

/// A sequence of entries that are all live at `now` is left untouched by
/// the purge.
pub proof fn lemma_live_entries_of_all_live(s: Seq<InstanceInfoModel>, now: int)
    requires
        forall|k: int| 0 <= k < s.len() ==> is_live(#[trigger] s[k], now),
    ensures
        live_entries(s, now) == s,
    decreases s.len(),
{
    if s.len() > 0 {
        lemma_live_entries_of_all_live(s.drop_last(), now);
        assert(live_entries(s, now) =~= s);
    } else {
        assert(live_entries(s, now) =~= s);
    }
}

/// After any election pass, no entry kept in `instances` has a `last_seen`
/// older than the timeout relative to the evaluation time.
pub proof fn lemma_election_pass_purges(st: ClusterStateModel, now: int)
    ensures
        forall|k: int|
            0 <= k < evaluated(st, now).instances.len() ==> is_live(
                #[trigger] evaluated(st, now).instances[k],
                now,
            ),
{
    lemma_live_entries_sound(st.instances, now);
}

/// For live entries with different priorities the higher one wins: the
/// election pass names an entry of maximal priority among the live entries,
/// and never an entry of strictly lower priority — independent of the
/// order in which the heartbeats were received.
pub proof fn lemma_higher_priority_wins(st: ClusterStateModel, now: int)
    requires
        st.wf(),
    ensures
        ({
            let live = live_entries(st.instances, now);
            live.len() > 0 ==> {
                let w = live[best_idx(live)];
                &&& evaluated(st, now).current_leader == Some(w.instance_id)
                &&& forall|k: int| 0 <= k < live.len() ==> (#[trigger] live[k]).priority
                    <= w.priority
                &&& forall|k: int|
                    0 <= k < live.len() && (#[trigger] live[k]).priority < w.priority
                        ==> evaluated(st, now).current_leader != Some(live[k].instance_id)
            }
        }),
{
    let live = live_entries(st.instances, now);
    if live.len() > 0 {
        lemma_best_idx_sound(live);
        lemma_live_entries_unique(st.instances, now);
        let b = best_idx(live);
        let w = live[b];
        assert forall|k: int| 0 <= k < live.len() implies (#[trigger] live[k]).priority
            <= w.priority by {
            assert(!beats(live[k], w));
        }
        assert forall|k: int|
            0 <= k < live.len() && (#[trigger] live[k]).priority < w.priority implies Some(
            w.instance_id,
        ) != Some(live[k].instance_id) by {
            assert(k != b);
            if b < k {
                assert(live[b].instance_id != live[k].instance_id);
            } else {
                assert(live[k].instance_id != live[b].instance_id);
            }
        }
    }
}

/// For live entries of equal priority the one confirmed alive most recently
/// wins: no live entry of the leader's priority has a larger `last_seen`.
/// Exact ties are broken by position, so the outcome is deterministic for
/// a given order of the membership table.
pub proof fn lemma_equal_priority_tiebreak(st: ClusterStateModel, now: int)
    requires
        st.wf(),
    ensures
        ({
            let live = live_entries(st.instances, now);
            live.len() > 0 ==> {
                let w = live[best_idx(live)];
                forall|k: int|
                    0 <= k < live.len() && (#[trigger] live[k]).priority == w.priority
                        ==> live[k].last_seen <= w.last_seen
            }
        }),
{
    let live = live_entries(st.instances, now);
    if live.len() > 0 {
        lemma_best_idx_sound(live);
        let w = live[best_idx(live)];
        assert forall|k: int|
            0 <= k < live.len() && (#[trigger] live[k]).priority == w.priority implies live[k].last_seen
            <= w.last_seen by {
            assert(!beats(live[k], w));
        }
    }
}

/// An election pass is idempotent: evaluating an already evaluated state at
/// the same time changes nothing.
pub proof fn lemma_evaluate_idempotent(st: ClusterStateModel, now: int)
    ensures
        evaluated(evaluated(st, now), now) == evaluated(st, now),
{
    lemma_live_entries_sound(st.instances, now);
    lemma_live_entries_of_all_live(live_entries(st.instances, now), now);
    assert(evaluated(evaluated(st, now), now) =~= evaluated(st, now));
}

/// Idempotence: applying the same heartbeat twice in a row leaves the same
/// state — in particular the same `current_leader` — as applying it once.
pub proof fn lemma_heartbeat_idempotent(st: ClusterStateModel, info: InstanceInfoModel, now: int)
    requires
        st.wf(),
    ensures
        heartbeat_applied(heartbeat_applied(st, info, now), info, now) == heartbeat_applied(
            st,
            info,
            now,
        ),
{
    let id = info.instance_id;
    let s1 = upserted(st.instances, info);
    lemma_find_idx(st.instances, id);
    lemma_upserted_unique(st.instances, info);
    let st1 = heartbeat_applied(st, info, now);
    let live1 = live_entries(s1, now);
    lemma_live_entries_sound(s1, now);
    lemma_live_entries_unique(s1, now);
    lemma_find_idx(live1, id);
    lemma_live_entries_of_all_live(live1, now);
    // `info` sits at exactly one position of the upserted table, and no
    // other entry carries its id.
    let r = find_idx(st.instances, id);
    let p: int = if r < 0 {
        st.instances.len() as int
    } else {
        r
    };
    assert(s1[p] == info);
    assert forall|j: int| 0 <= j < s1.len() && j != p implies (#[trigger] s1[j]).instance_id
        != id by {
        if r >= 0 {
            assert(s1[j] == st.instances[j]);
            assert(st.instances[r].instance_id == id);
        }
    }
    let fd = find_idx(live1, id);
    if is_live(info, now) {
        lemma_live_entries_complete(s1, now, p);
        let q = choose|q: int| 0 <= q < live1.len() && live1[q] == info;
        assert(live1[q].instance_id == id);
        assert(fd >= 0);
        assert(s1.contains(live1[fd]));
        let j = choose|j: int| 0 <= j < s1.len() && s1[j] == live1[fd];
        assert(j == p);
        assert(live1[fd] == info);
        assert(upserted(live1, info) =~= live1);
    } else {
        if fd >= 0 {
            assert(s1.contains(live1[fd]));
            let j = choose|j: int| 0 <= j < s1.len() && s1[j] == live1[fd];
            assert(j == p);
            assert(is_live(live1[fd], now));
            assert(false);
        }
        assert(upserted(live1, info) == live1.push(info));
        assert(live1.push(info).drop_last() =~= live1);
        assert(live1.push(info).last() == info);
        assert(live_entries(live1.push(info), now) == live_entries(live1, now));
    }
    assert(live_entries(upserted(live1, info), now) == live1);
    assert(heartbeat_applied(st1, info, now) =~= st1);
}

/// Eviction: an entry unrefreshed for longer than the timeout is removed by
/// the election pass and cannot be elected by it.
pub proof fn lemma_stale_entry_evicted(st: ClusterStateModel, now: int, k: int)
    requires
        st.wf(),
        0 <= k < st.instances.len(),
        !is_live(st.instances[k], now),
    ensures
        !evaluated(st, now).instances.contains(st.instances[k]),
        evaluated(st, now).current_leader != Some(st.instances[k].instance_id),
{
    let live = live_entries(st.instances, now);
    lemma_live_entries_sound(st.instances, now);
    if live.contains(st.instances[k]) {
        let q = choose|q: int| 0 <= q < live.len() && live[q] == st.instances[k];
        assert(is_live(live[q], now));
    }
    if live.len() > 0 {
        lemma_best_idx_sound(live);
        let w = live[best_idx(live)];
        let j = choose|j: int| 0 <= j < st.instances.len() && st.instances[j] == w;
        assert(st.instances.contains(w));
        assert(j != k);
        assert(st.instances[j].instance_id != st.instances[k].instance_id);
    }
}

} // verus!
