//! The connection registry: the single owner of every live connection's
//! record, pairing set and outbound queue.
use vstd::prelude::*;
use vstd::string::StringExecFns;
use crate::message::{copy_users, user_name_of, user_of, users_view, Frame, FrameView, Message, User};
use crate::model::{
    disconnect_notice, disconnected_state, lemma_broadcast_wf, lemma_close_wf, lemma_connect_wf,
    lemma_pair_wf, lemma_register_wf, lemma_same_shape, lemma_unpair_wf, roster_frame, RecordView,
    RegistryView,
};

verus! {

/// The record of one live connection.
struct Record {
    id: u64,
    last_activity: u64,
    paired: Vec<u64>,
    queue: Vec<Frame>,
}

impl View for Record {
    type V = RecordView;

    closed spec fn view(&self) -> RecordView {
        RecordView {
            last_activity: self.last_activity,
            paired: self.paired@.to_set(),
            queue: frames_view(self.queue@),
        }
    }
}

pub open spec fn frames_view(frames: Seq<Frame>) -> Seq<FrameView> {
    frames.map_values(|f: Frame| f@)
}

spec fn ids_of(records: Seq<Record>) -> Seq<u64> {
    records.map_values(|r: Record| r.id)
}

spec fn records_of(records: Seq<Record>) -> Map<u64, RecordView> {
    Map::new(
        |id: u64| ids_of(records).contains(id),
        |id: u64| records[ids_of(records).index_of(id)]@,
    )
}

/// The registry of live connections, with the allocator of their identities.
pub struct Registry {
    next_id: u64,
    records: Vec<Record>,
}

impl View for Registry {
    type V = RegistryView;

    closed spec fn view(&self) -> RegistryView {
        RegistryView {
            next_id: self.next_id,
            roster: ids_of(self.records@),
            records: records_of(self.records@),
        }
    }
}

proof fn lemma_index_of_unique(s: Seq<u64>, i: int)
    requires
        s.no_duplicates(),
        0 <= i < s.len(),
    ensures
        s.index_of(s[i]) == i,
        s.contains(s[i]),
{
    assert(s.contains(s[i]));
}

/// In a sequence of records with distinct ids, the view of the id at `i` is
/// the record at `i`.
proof fn lemma_record_at(records: Seq<Record>, i: int)
    requires
        ids_of(records).no_duplicates(),
        0 <= i < records.len(),
    ensures
        records_of(records).contains_key(records[i].id),
        records_of(records)[records[i].id] == records[i]@,
{
    lemma_index_of_unique(ids_of(records), i);
}

/// Replacing the record at `i` by one with the same id updates the view at that id.
proof fn lemma_update_at(records: Seq<Record>, i: int, r: Record)
    requires
        ids_of(records).no_duplicates(),
        0 <= i < records.len(),
        r.id == records[i].id,
    ensures
        ids_of(records.update(i, r)) == ids_of(records),
        records_of(records.update(i, r)) == records_of(records).insert(r.id, r@),
{
    let new = records.update(i, r);
    assert(ids_of(new) =~= ids_of(records));
    let m1 = records_of(new);
    let m2 = records_of(records).insert(r.id, r@);
    assert forall|id: u64| #[trigger] m1.contains_key(id) == m2.contains_key(id) by {
        if id == r.id {
            lemma_index_of_unique(ids_of(records), i);
        }
    }
    assert forall|id: u64| m1.contains_key(id) implies #[trigger] m1[id] == m2[id] by {
        let j = ids_of(records).index_of(id);
        lemma_index_of_unique(ids_of(records), j);
        if id == r.id {
            lemma_index_of_unique(ids_of(records), i);
        }
    }
    assert(m1 =~= m2);
}

/// Appending a record with a new id extends the roster and the view.
proof fn lemma_push_record(records: Seq<Record>, r: Record)
    requires
        ids_of(records).no_duplicates(),
        !ids_of(records).contains(r.id),
    ensures
        ids_of(records.push(r)) == ids_of(records).push(r.id),
        records_of(records.push(r)) == records_of(records).insert(r.id, r@),
{
    let new = records.push(r);
    assert(ids_of(new) =~= ids_of(records).push(r.id));
    let m1 = records_of(new);
    let m2 = records_of(records).insert(r.id, r@);
    let n = records.len() as int;
    assert forall|a: int, b: int| 0 <= a < b < ids_of(new).len() implies ids_of(new)[a] != ids_of(new)[b] by {
        if b == n {
            assert(ids_of(records).contains(ids_of(records)[a]));
        }
    }
    assert forall|id: u64| #[trigger] m1.contains_key(id) == m2.contains_key(id) by {
        if ids_of(records).contains(id) {
            let k = choose|k: int| 0 <= k < n && ids_of(records)[k] == id;
            assert(ids_of(new)[k] == id);
        }
        if id == r.id {
            assert(ids_of(new)[n] == id);
        }
        if ids_of(new).contains(id) && id != r.id {
            let k = choose|k: int| 0 <= k < ids_of(new).len() && ids_of(new)[k] == id;
            assert(ids_of(records)[k] == id);
        }
    }
    assert forall|id: u64| m1.contains_key(id) implies #[trigger] m1[id] == m2[id] by {
        let j = ids_of(new).index_of(id);
        lemma_index_of_unique(ids_of(new), j);
        if id != r.id {
            lemma_index_of_unique(ids_of(records), j);
        }
    }
    assert(m1 =~= m2);
}

/// Removing the record at `i` removes its id from the roster and the view.
proof fn lemma_remove_record(records: Seq<Record>, i: int)
    requires
        ids_of(records).no_duplicates(),
        0 <= i < records.len(),
    ensures
        ids_of(records.remove(i)) == ids_of(records).remove(ids_of(records).index_of(records[i].id)),
        records_of(records.remove(i)) == records_of(records).remove(records[i].id),
{
    let ids = ids_of(records);
    let new = records.remove(i);
    lemma_index_of_unique(ids, i);
    assert(ids_of(new) =~= ids.remove(i));
    let m1 = records_of(new);
    let m2 = records_of(records).remove(records[i].id);
    assert forall|x: int| 0 <= x < new.len() implies #[trigger] new[x] == (if x < i { records[x] } else { records[x + 1] }) by {
    }
    assert forall|id: u64| #[trigger] m1.contains_key(id) == m2.contains_key(id) by {
        if ids_of(new).contains(id) {
            let j = choose|j: int| 0 <= j < new.len() && ids_of(new)[j] == id;
            let j2 = if j < i { j } else { j + 1 };
            assert(ids[j2] == id);
            assert(ids[i] == records[i].id);
            assert(j2 != i);
        }
        if m2.contains_key(id) {
            let j = choose|j: int| 0 <= j < ids.len() && ids[j] == id;
            assert(j != i);
            let j1 = if j < i { j } else { j - 1 };
            assert(ids_of(new)[j1] == id);
        }
    }
    assert forall|a: int, b: int| 0 <= a < b < ids_of(new).len() implies ids_of(new)[a] != ids_of(new)[b] by {
        let a2 = if a < i { a } else { a + 1 };
        let b2 = if b < i { b } else { b + 1 };
        assert(ids_of(new)[a] == ids[a2] && ids_of(new)[b] == ids[b2]);
    }
    assert forall|id: u64| m1.contains_key(id) implies #[trigger] m1[id] == m2[id] by {
        let j = ids_of(new).index_of(id);
        lemma_index_of_unique(ids_of(new), j);
        let j2 = if j < i { j } else { j + 1 };
        assert(ids[j2] == id);
        lemma_index_of_unique(ids, j2);
    }
    assert(m1 =~= m2);
}

impl Registry {
    /// The invariant of the registry: that of its view, and pairing lists
    /// without repeats.
    pub open spec fn wf(&self) -> bool {
        &&& self@.wf()
        &&& self.lists_wf()
    }

    /// The invariant but for pairing symmetry, which holds between operations.
    pub open spec fn sound(&self) -> bool {
        &&& self@.shape()
        &&& self.lists_wf()
    }

    /// Pairing lists hold no repeats.
    pub closed spec fn lists_wf(&self) -> bool {
        forall|i: int| 0 <= i < self.records@.len() ==> (#[trigger] self.records@[i]).paired@.no_duplicates()
    }

    /// An empty registry; the first connection receives identity 1.
    pub fn new() -> (r: Registry)
        ensures
            r.wf(),
            r@.next_id == 1,
            r@.roster.len() == 0,
            r@.records.is_empty(),
    {
        let r = Registry { next_id: 1, records: Vec::new() };
        assert(r@.records =~= Map::empty());
        r
    }

    /// The position of live `id` in the record list.
    fn find(&self, id: u64) -> (r: Option<usize>)
        requires
            self.sound(),
        ensures
            r matches Some(i) ==> i < self.records@.len() && self.records@[i as int].id == id,
            r is None ==> !self@.live(id),
    {
        let mut i: usize = 0;
        while i < self.records.len()
            invariant
                i <= self.records@.len(),
                forall|j: int| 0 <= j < i ==> self.records@[j].id != id,
            decreases self.records@.len() - i,
        {
            if self.records[i].id == id {
                return Some(i);
            }
            i += 1;
        }
        proof {
            if self@.live(id) {
                let j = ids_of(self.records@).index_of(id);
                assert(ids_of(self.records@)[j] == id);
            }
        }
        None
    }

    /// Whether `id` is a live connection.
    pub fn contains(&self, id: u64) -> (r: bool)
        requires
            self.wf(),
        ensures
            r == self@.live(id),
    {
        match self.find(id) {
            Some(i) => {
                proof { lemma_record_at(self.records@, i as int); }
                true
            },
            None => false,
        }
    }

    fn enqueue_at(&mut self, i: usize, f: Frame)
        requires
            old(self).sound(),
            i < old(self).records@.len(),
        ensures
            final(self).sound(),
            old(self)@.symmetric() ==> final(self)@.symmetric(),
            final(self)@ == old(self)@.enqueue(old(self).records@[i as int].id, f@),
            final(self).records@.len() == old(self).records@.len(),
            forall|j: int| 0 <= j < old(self).records@.len() ==>
                (#[trigger] final(self).records@[j]).id == old(self).records@[j].id
                && final(self).records@[j].paired == old(self).records@[j].paired,
    {
        let ghost fv = f@;
        let ghost old_records = self.records@;
        self.records[i].queue.push(f);
        proof {
            let r = self.records@[i as int];
            assert(self.records@ == old_records.update(i as int, r));
            lemma_update_at(old_records, i as int, r);
            lemma_record_at(old_records, i as int);
            assert(frames_view(r.queue@) =~= frames_view(old_records[i as int].queue@).push(fv));
            assert(self@.records =~= old(self)@.enqueue(r.id, fv).records);
            assert(self.lists_wf());
            assert(self@.records.dom() =~= old(self)@.records.dom());
            lemma_same_shape(old(self)@, self@);
        }
    }

    /// Appends `f` to the outbound queue of `id`; nothing happens if `id` is not live.
    pub fn enqueue(&mut self, id: u64, f: Frame)
        requires
            old(self).wf(),
        ensures
            final(self).wf(),
            final(self)@ == old(self)@.enqueue(id, f@),
    {
        match self.find(id) {
            Some(i) => self.enqueue_at(i, f),
            None => {},
        }
    }

    /// Records inbound activity of `id` at time `now`; nothing happens if `id` is not live.
    pub fn touch(&mut self, id: u64, now: u64)
        requires
            old(self).wf(),
        ensures
            final(self).wf(),
            final(self)@ == old(self)@.touch(id, now),
    {
        match self.find(id) {
            Some(i) => {
                let ghost old_records = self.records@;
                self.records[i].last_activity = now;
                proof {
                    let r = self.records@[i as int];
                    assert(self.records@ == old_records.update(i as int, r));
                    lemma_update_at(old_records, i as int, r);
                    lemma_record_at(old_records, i as int);
                    assert(self@.records =~= old(self)@.touch(id, now).records);
                    assert(self.lists_wf());
                    assert(self@.records.dom() =~= old(self)@.records.dom());
                    lemma_same_shape(old(self)@, self@);
                }
            },
            None => {},
        }
    }

    fn add_peer_at(&mut self, i: usize, peer: u64)
        requires
            old(self).sound(),
            i < old(self).records@.len(),
            peer < old(self)@.next_id,
        ensures
            final(self).sound(),
            final(self)@ == old(self)@.add_peer(old(self).records@[i as int].id, peer),
    {
        let ghost old_records = self.records@;
        if !contains_value(&self.records[i].paired, peer) {
            proof { lemma_push_to_set(self.records@[i as int].paired@, peer); }
            self.records[i].paired.push(peer);
        }
        proof {
            let r = self.records@[i as int];
            assert(self.records@ == old_records.update(i as int, r));
            lemma_update_at(old_records, i as int, r);
            lemma_record_at(old_records, i as int);
            assert(r.paired@.to_set() =~= old_records[i as int].paired@.to_set().insert(peer));
            assert(self@.records =~= old(self)@.add_peer(r.id, peer).records);
            assert forall|j: int| 0 <= j < self.records@.len()
                implies (#[trigger] self.records@[j]).paired@.no_duplicates() by {
                if j == i as int {
                    assert(old_records[j].paired@.no_duplicates());
                }
                else {
                    assert(old_records[j] == self.records@[j]);
                }
            }
        }
    }

    fn drop_peer_at(&mut self, i: usize, peer: u64)
        requires
            old(self).sound(),
            i < old(self).records@.len(),
        ensures
            final(self).sound(),
            final(self)@ == old(self)@.drop_peer(old(self).records@[i as int].id, peer),
    {
        let ghost old_records = self.records@;
        remove_value(&mut self.records[i].paired, peer);
        proof {
            let r = self.records@[i as int];
            assert(self.records@ == old_records.update(i as int, r));
            lemma_update_at(old_records, i as int, r);
            lemma_record_at(old_records, i as int);
            assert(self@.records =~= old(self)@.drop_peer(r.id, peer).records);
            assert forall|j: int| 0 <= j < self.records@.len()
                implies (#[trigger] self.records@[j]).paired@.no_duplicates() by {
                if j != i as int {
                    assert(old_records[j] == self.records@[j]);
                }
            }
        }
    }

    fn add_peer(&mut self, id: u64, peer: u64)
        requires
            old(self).sound(),
        ensures
            final(self).sound(),
            final(self)@ == old(self)@.add_peer(id, peer),
    {
        if peer < self.next_id {
            match self.find(id) {
                Some(i) => self.add_peer_at(i, peer),
                None => {},
            }
        }
    }

    fn drop_peer(&mut self, id: u64, peer: u64)
        requires
            old(self).sound(),
        ensures
            final(self).sound(),
            final(self)@ == old(self)@.drop_peer(id, peer),
    {
        match self.find(id) {
            Some(i) => self.drop_peer_at(i, peer),
            None => {},
        }
    }

    /// Pairs `a` and `b` in one step, on each side that is live. An identity
    /// that was never issued names no connection and is not recorded.
    pub fn pair(&mut self, a: u64, b: u64)
        requires
            old(self).wf(),
        ensures
            final(self).wf(),
            final(self)@ == old(self)@.pair(a, b),
    {
        self.add_peer(a, b);
        self.add_peer(b, a);
        proof { lemma_pair_wf(old(self)@, a, b); }
    }

    /// Unpairs `a` and `b` in one step, on each side that is live.
    pub fn unpair(&mut self, a: u64, b: u64)
        requires
            old(self).wf(),
        ensures
            final(self).wf(),
            final(self)@ == old(self)@.unpair(a, b),
    {
        self.drop_peer(a, b);
        self.drop_peer(b, a);
        proof { lemma_unpair_wf(old(self)@, a, b); }
    }

    /// The roster as a user list, in registration order.
    pub fn roster_users(&self) -> (r: Vec<User>)
        requires
            self.sound(),
        ensures
            users_view(r@) == self@.roster.map_values(|id: u64| user_of(id)),
    {
        let mut r: Vec<User> = Vec::new();
        let mut i: usize = 0;
        while i < self.records.len()
            invariant
                i <= self.records@.len(),
                r@.len() == i,
                forall|j: int| 0 <= j < i ==> (#[trigger] r@[j])@ == user_of(self.records@[j].id),
            decreases self.records@.len() - i,
        {
            let id = self.records[i].id;
            r.push(User { id, name: user_name_of(id) });
            i += 1;
        }
        assert(users_view(r@) =~= self@.roster.map_values(|id: u64| user_of(id)));
        r
    }

    /// Enqueues the roster to every live connection.
    fn broadcast_roster(&mut self)
        requires
            old(self).sound(),
        ensures
            final(self).sound(),
            old(self)@.symmetric() ==> final(self)@.symmetric(),
            final(self)@ == old(self)@.broadcast_roster(),
    {
        let users = self.roster_users();
        let ghost fv = roster_frame(self@.roster);
        let ghost old_records = self.records@;
        let n = self.records.len();
        let mut i: usize = 0;
        while i < n
            invariant
                n == old_records.len(),
                i <= n,
                self.records@.len() == n,
                self.next_id == old(self).next_id,
                old_records == old(self).records@,
                users_view(users@) == old(self)@.roster.map_values(|id: u64| user_of(id)),
                fv == roster_frame(old(self)@.roster),
                forall|j: int| 0 <= j < n ==> (#[trigger] self.records@[j]).id == old_records[j].id,
                forall|j: int| 0 <= j < n ==> (#[trigger] self.records@[j]).paired == old_records[j].paired,
                forall|j: int| 0 <= j < n ==> (#[trigger] self.records@[j]).last_activity == old_records[j].last_activity,
                forall|j: int| 0 <= j < i ==> frames_view((#[trigger] self.records@[j]).queue@) == frames_view(old_records[j].queue@).push(fv),
                forall|j: int| i <= j < n ==> (#[trigger] self.records@[j]).queue == old_records[j].queue,
            decreases n - i,
        {
            let f = Frame::Message(Message::UserList { users: copy_users(&users) });
            let ghost before = self.records@[i as int].queue@;
            self.records[i].queue.push(f);
            proof {
                assert(frames_view(self.records@[i as int].queue@) =~= frames_view(before).push(fv));
            }
            i += 1;
        }
        proof {
            assert(ids_of(self.records@) =~= ids_of(old_records));
            let m1 = self@.records;
            let m2 = old(self)@.broadcast_roster().records;
            assert forall|id: u64| m1.contains_key(id) implies #[trigger] m1[id] == m2[id] by {
                let j = ids_of(old_records).index_of(id);
                lemma_index_of_unique(ids_of(old_records), j);
                assert(m1[id].queue =~= m2[id].queue);
            }
            assert(m1 =~= m2);
            assert(self.lists_wf());
            lemma_same_shape(old(self)@, self@);
        }
    }

    /// Registers a new connection at time `now` under the next identity, with
    /// a welcome message in its queue, and broadcasts the roster. Returns the
    /// identity, or `None` when identities are exhausted.
    pub fn connect(&mut self, now: u64) -> (r: Option<u64>)
        requires
            old(self).wf(),
        ensures
            final(self).wf(),
            old(self)@.next_id < u64::MAX ==> r == Some(old(self)@.next_id) && final(self)@ == old(self)@.connect(now),
            old(self)@.next_id == u64::MAX ==> r is None && final(self)@ == old(self)@,
    {
        if self.next_id == u64::MAX {
            return None;
        }
        let id = self.next_id;
        let mut queue: Vec<Frame> = Vec::new();
        queue.push(Frame::Message(Message::Welcome { user_id: id }));
        let rec = Record { id, last_activity: now, paired: Vec::new(), queue };
        proof {
            assert(!ids_of(self.records@).contains(id));
            lemma_push_record(self.records@, rec);
            assert(rec@.queue =~= RecordView::fresh(now, id).queue);
            assert(rec@.paired =~= Set::empty());
            lemma_register_wf(self@, now);
        }
        let ghost old_records = self.records@;
        self.records.push(rec);
        self.next_id = id + 1;
        proof {
            assert forall|j: int| 0 <= j < self.records@.len()
                implies (#[trigger] self.records@[j]).paired@.no_duplicates() by {
                if j < old_records.len() {
                    assert(self.records@[j] == old_records[j]);
                }
            }
            assert(self.sound());
        }
        self.broadcast_roster();
        proof { lemma_connect_wf(old(self)@, now); }
        Some(id)
    }

    /// Enqueues a disconnect notice from the connection at `i` to each live
    /// peer it is paired with.
    fn notify_peers(&mut self, i: usize)
        requires
            old(self).sound(),
            i < old(self).records@.len(),
        ensures
            final(self).sound(),
            old(self)@.symmetric() ==> final(self)@.symmetric(),
            final(self).records@.len() == old(self).records@.len(),
            final(self).records@[i as int].id == old(self).records@[i as int].id,
            final(self)@ == old(self)@.notify_peers(old(self).records@[i as int].id),
    {
        let id = self.records[i].id;
        let ghost v0 = self@;
        proof { lemma_record_at(self.records@, i as int); }
        let ghost peers = self.records@[i as int].paired@;
        let n = self.records[i].paired.len();
        let mut k: usize = 0;
        while k < n
            invariant
                v0 == old(self)@,
                v0.shape(),
                self.sound(),
                v0.symmetric() ==> self@.symmetric(),
                k <= n,
                n == peers.len(),
                peers.no_duplicates(),
                peers.to_set() == v0.records[id].paired,
                i < self.records@.len(),
                self.records@.len() == old(self).records@.len(),
                self.records@[i as int].id == id,
                self.records@[i as int].paired@ == peers,
                self@.next_id == v0.next_id,
                self@.roster == v0.roster,
                self@.records.dom() == v0.records.dom(),
                forall|q: u64| #[trigger] self@.records.contains_key(q) ==>
                    self@.records[q] == (if peers.subrange(0, k as int).contains(q) {
                        RecordView { queue: v0.records[q].queue.push(disconnect_notice(id, q)), ..v0.records[q] }
                    } else {
                        v0.records[q]
                    }),
            decreases n - k,
        {
            let p = self.records[i].paired[k];
            let state = String::from_str("disconnected");
            proof {
                reveal_strlit("disconnected");
                assert(state@ =~= disconnected_state());
            }
            let f = Frame::Message(Message::PeerStateChange { from_id: id, to_id: p, state });
            match self.find(p) {
                Some(j) => {
                    self.enqueue_at(j, f);
                },
                None => {},
            }
            proof {
                assert(self.records@[i as int].id == id);
                assert forall|q: u64| #[trigger] self@.records.contains_key(q) implies
                    self@.records[q] == (if peers.subrange(0, k + 1).contains(q) {
                        RecordView { queue: v0.records[q].queue.push(disconnect_notice(id, q)), ..v0.records[q] }
                    } else {
                        v0.records[q]
                    }) by {
                    let s0 = peers.subrange(0, k as int);
                    let s1 = peers.subrange(0, k + 1);
                    assert(s1 =~= s0.push(p));
                    if q == p {
                        assert(s1[k as int] == q);
                        assert(!s0.contains(q)) by {
                            if s0.contains(q) {
                                let x = choose|x: int| 0 <= x < s0.len() && #[trigger] s0[x] == q;
                                assert(peers[x] == peers[k as int]);
                            }
                        }
                    } else {
                        if s1.contains(q) {
                            let x = choose|x: int| 0 <= x < s1.len() && #[trigger] s1[x] == q;
                            assert(s0[x] == q);
                        }
                        if s0.contains(q) {
                            let x = choose|x: int| 0 <= x < s0.len() && #[trigger] s0[x] == q;
                            assert(s1[x] == q);
                        }
                    }
                }
            }
            k += 1;
        }
        proof {
            assert(peers.subrange(0, n as int) =~= peers);
            assert(self@.records =~= v0.notify_peers(id).records);
        }
    }

    /// Closes connection `id`: each live peer paired with it receives a
    /// disconnect notice, its record is removed, and the roster is broadcast
    /// to the connections that remain. Returns the frames still queued for
    /// `id`, for its writer to flush, or `None` if `id` was not live.
    pub fn close(&mut self, id: u64) -> (r: Option<Vec<Frame>>)
        requires
            old(self).wf(),
        ensures
            final(self).wf(),
            final(self)@ == old(self)@.close(id),
            r is Some <==> old(self)@.live(id),
            r matches Some(frames) ==> frames_view(frames@) == old(self)@.closing_record(id).queue,
    {
        match self.find(id) {
            None => None,
            Some(i) => {
                self.notify_peers(i);
                let ghost v1 = self@;
                let ghost records1 = self.records@;
                proof {
                    lemma_record_at(records1, i as int);
                    lemma_remove_record(records1, i as int);
                    lemma_close_wf(old(self)@, id);
                }
                let rec = self.records.remove(i);
                proof {
                    assert(self@.roster == v1.remove(id).roster);
                    assert(self@.records == v1.remove(id).records);
                    assert(self.lists_wf()) by {
                        assert forall|j: int| 0 <= j < self.records@.len()
                            implies (#[trigger] self.records@[j]).paired@.no_duplicates() by {
                            if j < i {
                                assert(self.records@[j] == records1[j]);
                            } else {
                                assert(self.records@[j] == records1[j + 1]);
                            }
                        }
                    }
                    lemma_same_shape(v1.remove(id), self@);
                }
                self.broadcast_roster();
                Some(rec.queue)
            },
        }
    }

    /// Hands the writer of `id` every frame queued for it, in the order they
    /// were enqueued, and empties the queue. Empty if `id` is not live.
    pub fn take_frames(&mut self, id: u64) -> (r: Vec<Frame>)
        requires
            old(self).wf(),
        ensures
            final(self).wf(),
            final(self)@ == old(self)@.take(id),
            old(self)@.live(id) ==> frames_view(r@) == old(self)@.records[id].queue,
            !old(self)@.live(id) ==> r@.len() == 0,
    {
        let mut r: Vec<Frame> = Vec::new();
        match self.find(id) {
            None => {},
            Some(i) => {
                let ghost old_records = self.records@;
                proof { lemma_record_at(old_records, i as int); }
                std::mem::swap(&mut self.records[i].queue, &mut r);
                proof {
                    let rec = self.records@[i as int];
                    assert(self.records@ == old_records.update(i as int, rec));
                    lemma_update_at(old_records, i as int, rec);
                    assert(frames_view(rec.queue@) =~= Seq::empty());
                    assert(self@.records =~= old(self)@.take(id).records);
                    assert forall|j: int| 0 <= j < self.records@.len()
                        implies (#[trigger] self.records@[j]).paired@.no_duplicates() by {
                        if j != i as int {
                            assert(old_records[j] == self.records@[j]);
                        }
                    }
                    assert(self@.records.dom() =~= old(self)@.records.dom());
                    lemma_same_shape(old(self)@, self@);
                }
            },
        }
        r
    }

    /// The time of the last inbound activity of `id`, if `id` is live.
    pub fn last_activity(&self, id: u64) -> (r: Option<u64>)
        requires
            self.wf(),
        ensures
            r is Some <==> self@.live(id),
            r matches Some(t) ==> t == self@.records[id].last_activity,
    {
        match self.find(id) {
            None => None,
            Some(i) => {
                proof { lemma_record_at(self.records@, i as int); }
                Some(self.records[i].last_activity)
            },
        }
    }

    /// The peers `id` is paired with, if `id` is live.
    pub fn peers_of(&self, id: u64) -> (r: Option<Vec<u64>>)
        requires
            self.wf(),
        ensures
            r is Some <==> self@.live(id),
            r matches Some(ps) ==> ps@.to_set() == self@.records[id].paired && ps@.no_duplicates(),
    {
        match self.find(id) {
            None => None,
            Some(i) => {
                proof { lemma_record_at(self.records@, i as int); }
                let ps = &self.records[i].paired;
                let mut out: Vec<u64> = Vec::new();
                let mut k: usize = 0;
                while k < ps.len()
                    invariant
                        k <= ps@.len(),
                        out@ == ps@.subrange(0, k as int),
                    decreases ps@.len() - k,
                {
                    out.push(ps[k]);
                    k += 1;
                    assert(out@ =~= ps@.subrange(0, k as int));
                }
                assert(out@ =~= ps@);
                Some(out)
            },
        }
    }

    /// The live identities, in the order in which they registered.
    pub fn roster(&self) -> (r: Vec<u64>)
        requires
            self.wf(),
        ensures
            r@ == self@.roster,
    {
        let mut out: Vec<u64> = Vec::new();
        let mut k: usize = 0;
        while k < self.records.len()
            invariant
                k <= self.records@.len(),
                out@ == ids_of(self.records@).subrange(0, k as int),
            decreases self.records@.len() - k,
        {
            out.push(self.records[k].id);
            k += 1;
            assert(out@ =~= ids_of(self.records@).subrange(0, k as int));
        }
        assert(out@ =~= ids_of(self.records@));
        out
    }

    /// The identity that the next connection will receive.
    pub fn next_id(&self) -> (r: u64)
        ensures
            r == self@.next_id,
    {
        self.next_id
    }
}

proof fn lemma_push_to_set(s: Seq<u64>, x: u64)
    requires
        s.no_duplicates(),
        !s.contains(x),
    ensures
        s.push(x).to_set() == s.to_set().insert(x),
        s.push(x).no_duplicates(),
{
    assert forall|y: u64| #[trigger] s.push(x).to_set().contains(y) == s.to_set().insert(x).contains(y) by {
        if s.contains(y) {
            let k = choose|k: int| 0 <= k < s.len() && s[k] == y;
            assert(s.push(x)[k] == y);
        }
        if y == x {
            assert(s.push(x)[s.len() as int] == y);
        }
        if s.push(x).contains(y) && y != x {
            let k = choose|k: int| 0 <= k < s.push(x).len() && s.push(x)[k] == y;
            assert(s[k] == y);
        }
    }
    assert(s.push(x).to_set() =~= s.to_set().insert(x));
    assert forall|a: int, b: int| 0 <= a < b < s.push(x).len() implies s.push(x)[a] != s.push(x)[b] by {
        if b == s.len() {
            assert(s[a] == s.push(x)[a]);
        }
    }
}

/// Whether `v` holds `x`.
fn contains_value(v: &Vec<u64>, x: u64) -> (r: bool)
    ensures
        r == v@.contains(x),
{
    let mut i: usize = 0;
    while i < v.len()
        invariant
            i <= v@.len(),
            forall|j: int| 0 <= j < i ==> v@[j] != x,
        decreases v@.len() - i,
    {
        if v[i] == x {
            return true;
        }
        i += 1;
    }
    false
}

/// Removes `x` from a list without repeats.
fn remove_value(v: &mut Vec<u64>, x: u64)
    requires
        old(v)@.no_duplicates(),
    ensures
        final(v)@.no_duplicates(),
        final(v)@.to_set() == old(v)@.to_set().remove(x),
{
    let mut i: usize = 0;
    while i < v.len()
        invariant
            i <= v@.len(),
            v@ == old(v)@,
            old(v)@.no_duplicates(),
            forall|j: int| 0 <= j < i ==> v@[j] != x,
        decreases v@.len() - i,
    {
        if v[i] == x {
            let ghost before = v@;
            v.remove(i);
            proof {
                assert(before[i as int] == x);
                assert(before.no_duplicates());
                assert forall|k: int| 0 <= k < v@.len() implies #[trigger] v@[k] == (if k < i { before[k] } else { before[k + 1] }) by {
                    assert(v@ == before.remove(i as int));
                }
                assert forall|a: int, b: int| 0 <= a < b < v@.len() implies v@[a] != v@[b] by {
                    let a2 = if a < i { a } else { a + 1 };
                    let b2 = if b < i { b } else { b + 1 };
                    assert(v@[a] == before[a2] && v@[b] == before[b2]);
                }
                assert forall|y: u64| #[trigger] v@.to_set().contains(y) == before.to_set().remove(x).contains(y) by {
                    if y != x && before.contains(y) {
                        let k = choose|k: int| 0 <= k < before.len() && before[k] == y;
                        if k < i {
                            assert(v@[k] == y);
                        } else {
                            assert(v@[k - 1] == y);
                        }
                    }
                    if v@.contains(y) {
                        let k = choose|k: int| 0 <= k < v@.len() && v@[k] == y;
                        if k < i {
                            assert(before[k] == y);
                        } else {
                            assert(before[k + 1] == y);
                            assert(k + 1 != i);
                        }
                    }
                }
                assert(v@.to_set() =~= before.to_set().remove(x));
            }
            return;
        }
        i += 1;
    }
    assert(v@.to_set() =~= old(v)@.to_set().remove(x));
}

} // verus!
