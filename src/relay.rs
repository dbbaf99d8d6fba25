//! The room registry of the signaling relay.
//!
//! Peers enter named rooms, learn of each other, and address messages to one
//! another by peer id. The registry decides who is told what; sending is left
//! to the connections, so no operation here waits on the network.
use vstd::prelude::*;

use crate::message::{
    deliveries_view, notice, notices, notify_all, texts, Delivery, DeliveryView, Envelope,
    EnvelopeView,
};

verus! {

/// A room: its name and the ids of its peers, in the order they joined.
pub struct Room {
    id: String,
    peers: Vec<String>,
}

/// All rooms of the relay. A room exists while it has at least one peer.
pub struct Registry {
    rooms: Vec<Room>,
}

/// The answer to a peer that joined a room.
pub struct JoinResponse {
    pub peer_id: String,
    pub other_peers: Vec<String>,
}

/// Why a join was refused.
#[derive(PartialEq, Eq, Structural, Clone, Copy, Debug)]
pub enum JoinError {
    /// The room already has a peer with the id that the newcomer was given.
    DuplicatePeer,
}

/// The peers of `room`, none if there is no such room.
pub open spec fn members(m: Map<Seq<char>, Seq<Seq<char>>>, room: Seq<char>) -> Seq<Seq<char>> {
    if m.contains_key(room) {
        m[room]
    } else {
        Seq::empty()
    }
}

/// Every room has a peer, and no peer id twice.
pub open spec fn rooms_ok(m: Map<Seq<char>, Seq<Seq<char>>>) -> bool {
    forall|r: Seq<char>| #[trigger] m.contains_key(r) ==> m[r].len() > 0 && m[r].no_duplicates()
}

/// The rooms after `peer` left `room`: the room loses the peer, and goes when
/// it is left empty.
pub open spec fn after_leave(m: Map<Seq<char>, Seq<Seq<char>>>, room: Seq<char>, peer: Seq<char>) -> Map<Seq<char>, Seq<Seq<char>>> {
    let ms = members(m, room);
    if !ms.contains(peer) {
        m
    } else if ms.remove(ms.index_of(peer)).len() == 0 {
        m.remove(room)
    } else {
        m.insert(room, ms.remove(ms.index_of(peer)))
    }
}

/// What is sent when `peer` leaves `room`: a `peer-left` notice to each peer
/// that stays.
pub open spec fn leave_notices(m: Map<Seq<char>, Seq<Seq<char>>>, room: Seq<char>, peer: Seq<char>) -> Seq<DeliveryView> {
    let ms = members(m, room);
    if !ms.contains(peer) {
        Seq::empty()
    } else {
        notices(ms.remove(ms.index_of(peer)), "peer-left"@, peer, room)
    }
}

/// What is sent when `sender` in `room` sends `msg`: the message goes to its
/// target alone, naming the sender as its target, or nowhere if the target is
/// not in the room.
pub open spec fn relayed(m: Map<Seq<char>, Seq<Seq<char>>>, room: Seq<char>, sender: Seq<char>, msg: EnvelopeView) -> Seq<DeliveryView> {
    match msg.target {
        Some(t) => if members(m, room).contains(t) {
            seq![DeliveryView {
                to: t,
                envelope: EnvelopeView {
                    kind: msg.kind,
                    data: msg.data,
                    target: Some(sender),
                    room_id: Some(room),
                },
            }]
        } else {
            Seq::empty()
        },
        None => Seq::empty(),
    }
}

/// The roster of a join: a newcomer `c` of room `r` is told exactly the peers
/// already there, each of them gets one `new-peer` notice naming `c`, and once
/// the join is done (but not before) a message addressed to `c` in `r` reaches
/// `c`.
pub proof fn lemma_join_roster(m: Map<Seq<char>, Seq<Seq<char>>>, r: Seq<char>, c: Seq<char>, sender: Seq<char>, msg: EnvelopeView)
    requires
        rooms_ok(m),
        !members(m, r).contains(c),
        msg.target == Some(c),
    ensures
        members(m.insert(r, members(m, r).push(c)), r).to_set() == members(m, r).to_set().insert(c),
        notices(members(m, r), "new-peer"@, c, r).len() == members(m, r).len(),
        forall|i: int| 0 <= i < members(m, r).len() ==> #[trigger] notices(members(m, r), "new-peer"@, c, r)[i] == (DeliveryView {
            to: members(m, r)[i],
            envelope: notice("new-peer"@, c, r),
        }),
        relayed(m, r, sender, msg).len() == 0,
        relayed(m.insert(r, members(m, r).push(c)), r, sender, msg).len() == 1,
        relayed(m.insert(r, members(m, r).push(c)), r, sender, msg)[0].to == c,
{
    let ms = members(m, r);
    let m2 = m.insert(r, ms.push(c));
    assert(members(m2, r) == ms.push(c));
    assert(ms.push(c)[ms.len() as int] == c);
    assert(members(m2, r).to_set() =~= ms.to_set().insert(c)) by {
        assert forall|x: Seq<char>| ms.push(c).contains(x) <==> ms.contains(x) || x == c by {
            if ms.push(c).contains(x) {
                let i = choose|i: int| 0 <= i < ms.push(c).len() && ms.push(c)[i] == x;
                if i < ms.len() {
                    assert(ms[i] == x);
                }
            }
            if ms.contains(x) {
                let i = choose|i: int| 0 <= i < ms.len() && ms[i] == x;
                assert(ms.push(c)[i] == x);
            }
        }
    }
}

/// When the last peer of a room leaves, the room is gone, and whoever joins
/// that name next finds it empty and is alone in it.
pub proof fn lemma_last_leave_removes_room(m: Map<Seq<char>, Seq<Seq<char>>>, r: Seq<char>, p: Seq<char>, next: Seq<char>)
    requires
        rooms_ok(m),
        members(m, r) == seq![p],
    ensures
        !after_leave(m, r, p).contains_key(r),
        members(after_leave(m, r, p), r).len() == 0,
        members(after_leave(m, r, p).insert(r, members(after_leave(m, r, p), r).push(next)), r) == seq![next],
{
    let ms = members(m, r);
    assert(ms[0] == p);
    assert(ms.contains(p));
    let k = ms.index_of(p);
    assert(k == 0);
    assert(ms.remove(k).len() == 0);
    assert(seq![p].remove(0) =~= Seq::<Seq<char>>::empty());
    assert(Seq::<Seq<char>>::empty().push(next) =~= seq![next]);
}

/// A message addressed to a peer `b` of the room reaches `b` alone, with the
/// same kind and data, naming the sender `a` as its target.
pub proof fn lemma_relay_reaches_target_only(m: Map<Seq<char>, Seq<Seq<char>>>, r: Seq<char>, a: Seq<char>, b: Seq<char>, msg: EnvelopeView)
    requires
        msg.target == Some(b),
        members(m, r).contains(b),
    ensures
        relayed(m, r, a, msg).len() == 1,
        relayed(m, r, a, msg)[0].to == b,
        relayed(m, r, a, msg)[0].envelope.data == msg.data,
        relayed(m, r, a, msg)[0].envelope.kind == msg.kind,
        relayed(m, r, a, msg)[0].envelope.target == Some(a),
        forall|i: int| 0 <= i < relayed(m, r, a, msg).len() ==> #[trigger] relayed(m, r, a, msg)[i].to == b,
{
}

/// A message addressed to a peer that is not in the room, or to nobody, is
/// dropped: nothing is sent.
pub proof fn lemma_unknown_target_dropped(m: Map<Seq<char>, Seq<Seq<char>>>, r: Seq<char>, a: Seq<char>, msg: EnvelopeView)
    requires
        match msg.target {
            Some(t) => !members(m, r).contains(t),
            None => true,
        },
    ensures
        relayed(m, r, a, msg).len() == 0,
{
}

spec fn ids_unique(rs: Seq<Room>) -> bool {
    forall|i: int, j: int| 0 <= i < rs.len() && 0 <= j < rs.len() && i != j ==> rs[i].id@ != rs[j].id@
}

spec fn has_room(rs: Seq<Room>, k: Seq<char>) -> bool {
    exists|i: int| 0 <= i < rs.len() && (#[trigger] rs[i].id@) == k
}

spec fn rooms_view(rs: Seq<Room>) -> Map<Seq<char>, Seq<Seq<char>>> {
    Map::new(
        |k: Seq<char>| has_room(rs, k),
        |k: Seq<char>| texts(rs[choose|i: int| 0 <= i < rs.len() && (#[trigger] rs[i].id@) == k].peers@),
    )
}

proof fn lemma_view_at(rs: Seq<Room>, i: int)
    requires
        ids_unique(rs),
        0 <= i < rs.len(),
    ensures
        rooms_view(rs).contains_key(rs[i].id@),
        rooms_view(rs)[rs[i].id@] == texts(rs[i].peers@),
{
    let k = rs[i].id@;
    assert(has_room(rs, k));
    let j = choose|j: int| 0 <= j < rs.len() && (#[trigger] rs[j].id@) == k;
    assert(j == i);
}

proof fn lemma_view_absent(rs: Seq<Room>, k: Seq<char>)
    requires
        forall|i: int| 0 <= i < rs.len() ==> rs[i].id@ != k,
    ensures
        !rooms_view(rs).contains_key(k),
{
}

proof fn lemma_view_update(rs: Seq<Room>, i: int, r: Room)
    requires
        ids_unique(rs),
        0 <= i < rs.len(),
        rs[i].id@ == r.id@,
    ensures
        ids_unique(rs.update(i, r)),
        rooms_view(rs.update(i, r)) == rooms_view(rs).insert(r.id@, texts(r.peers@)),
{
    let ns = rs.update(i, r);
    assert forall|k: Seq<char>| has_room(ns, k) == has_room(rs, k) by {
        if has_room(ns, k) {
            let j = choose|j: int| 0 <= j < ns.len() && (#[trigger] ns[j].id@) == k;
            assert(rs[j].id@ == k);
        }
        if has_room(rs, k) {
            let j = choose|j: int| 0 <= j < rs.len() && (#[trigger] rs[j].id@) == k;
            assert(ns[j].id@ == k);
        }
    }
    assert forall|k: Seq<char>| #[trigger] rooms_view(ns).contains_key(k) && k != r.id@ implies rooms_view(ns)[k]
        == rooms_view(rs)[k] by {
        let j = choose|j: int| 0 <= j < ns.len() && (#[trigger] ns[j].id@) == k;
        lemma_view_at(ns, j);
        lemma_view_at(rs, j);
    }
    lemma_view_at(ns, i);
    assert(rooms_view(ns) =~= rooms_view(rs).insert(r.id@, texts(r.peers@)));
}

proof fn lemma_view_push(rs: Seq<Room>, r: Room)
    requires
        ids_unique(rs),
        !has_room(rs, r.id@),
    ensures
        ids_unique(rs.push(r)),
        rooms_view(rs.push(r)) == rooms_view(rs).insert(r.id@, texts(r.peers@)),
{
    let ns = rs.push(r);
    assert forall|k: Seq<char>| has_room(ns, k) == (has_room(rs, k) || k == r.id@) by {
        if has_room(ns, k) {
            let j = choose|j: int| 0 <= j < ns.len() && (#[trigger] ns[j].id@) == k;
            if j < rs.len() {
                assert(rs[j].id@ == k);
            }
        }
        if has_room(rs, k) {
            let j = choose|j: int| 0 <= j < rs.len() && (#[trigger] rs[j].id@) == k;
            assert(ns[j].id@ == k);
        }
        assert(ns[rs.len() as int].id@ == r.id@);
    }
    assert forall|k: Seq<char>| #[trigger] rooms_view(ns).contains_key(k) && k != r.id@ implies rooms_view(ns)[k]
        == rooms_view(rs)[k] by {
        let j = choose|j: int| 0 <= j < ns.len() && (#[trigger] ns[j].id@) == k;
        lemma_view_at(ns, j);
        lemma_view_at(rs, j);
    }
    lemma_view_at(ns, rs.len() as int);
    assert(rooms_view(ns) =~= rooms_view(rs).insert(r.id@, texts(r.peers@)));
}

proof fn lemma_view_remove(rs: Seq<Room>, i: int)
    requires
        ids_unique(rs),
        0 <= i < rs.len(),
    ensures
        ids_unique(rs.remove(i)),
        rooms_view(rs.remove(i)) == rooms_view(rs).remove(rs[i].id@),
{
    let ns = rs.remove(i);
    let gone = rs[i].id@;
    assert forall|k: Seq<char>| has_room(ns, k) == (has_room(rs, k) && k != gone) by {
        if has_room(ns, k) {
            let j = choose|j: int| 0 <= j < ns.len() && (#[trigger] ns[j].id@) == k;
            if j < i {
                assert(rs[j].id@ == k);
            } else {
                assert(rs[j + 1].id@ == k);
            }
        }
        if has_room(rs, k) && k != gone {
            let j = choose|j: int| 0 <= j < rs.len() && (#[trigger] rs[j].id@) == k;
            if j < i {
                assert(ns[j].id@ == k);
            } else {
                assert(ns[j - 1].id@ == k);
            }
        }
    }
    assert forall|k: Seq<char>| #[trigger] rooms_view(ns).contains_key(k) implies rooms_view(ns)[k]
        == rooms_view(rs)[k] by {
        let j = choose|j: int| 0 <= j < ns.len() && (#[trigger] ns[j].id@) == k;
        lemma_view_at(ns, j);
        if j < i {
            lemma_view_at(rs, j);
        } else {
            lemma_view_at(rs, j + 1);
        }
    }
    assert(rooms_view(ns) =~= rooms_view(rs).remove(gone));
}

fn contains_text(v: &Vec<String>, s: &String) -> (r: Option<usize>)
    ensures
        match r {
            Some(i) => i < v@.len() && v@[i as int]@ == s@,
            None => !texts(v@).contains(s@),
        },
{
    let mut i: usize = 0;
    while i < v.len()
        invariant
            i <= v@.len(),
            forall|j: int| 0 <= j < i ==> v@[j]@ != s@,
        decreases v@.len() - i,
    {
        if v[i] == *s {
            return Some(i);
        }
        i = i + 1;
    }
    proof {
        if texts(v@).contains(s@) {
            let j = choose|j: int| 0 <= j < texts(v@).len() && texts(v@)[j] == s@;
            assert(v@[j]@ == s@);
        }
    }
    None
}

impl Registry {
    /// The rooms: each room's name mapped to its peers in the order they joined.
    pub closed spec fn view(&self) -> Map<Seq<char>, Seq<Seq<char>>> {
        rooms_view(self.rooms@)
    }

    /// The registry's internal invariant.
    pub closed spec fn wf(&self) -> bool {
        &&& ids_unique(self.rooms@)
        &&& forall|i: int| 0 <= i < self.rooms@.len() ==> (#[trigger] self.rooms@[i]).peers@.len() > 0
            && texts(self.rooms@[i].peers@).no_duplicates()
    }

    /// A well-formed registry has only non-empty rooms without repeated peers.
    pub proof fn lemma_wf_rooms_ok(&self)
        requires
            self.wf(),
        ensures
            rooms_ok(self.view()),
    {
        assert forall|r: Seq<char>| #[trigger] self.view().contains_key(r) implies self.view()[r].len() > 0
            && self.view()[r].no_duplicates() by {
            let i = choose|i: int| 0 <= i < self.rooms@.len() && (#[trigger] self.rooms@[i].id@) == r;
            lemma_view_at(self.rooms@, i);
        }
    }

    /// A relay with no rooms.
    pub fn new() -> (r: Registry)
        ensures
            r.wf(),
            r.view() == Map::<Seq<char>, Seq<Seq<char>>>::empty(),
    {
        let r = Registry { rooms: Vec::new() };
        assert(r.view() =~= Map::<Seq<char>, Seq<Seq<char>>>::empty());
        r
    }

    fn find_room(&self, id: &String) -> (r: Option<usize>)
        requires
            self.wf(),
        ensures
            match r {
                Some(i) => i < self.rooms@.len() && self.rooms@[i as int].id@ == id@,
                None => forall|i: int| 0 <= i < self.rooms@.len() ==> self.rooms@[i].id@ != id@,
            },
    {
        let mut i: usize = 0;
        while i < self.rooms.len()
            invariant
                i <= self.rooms@.len(),
                forall|j: int| 0 <= j < i ==> self.rooms@[j].id@ != id@,
            decreases self.rooms@.len() - i,
        {
            if self.rooms[i].id == *id {
                return Some(i);
            }
            i = i + 1;
        }
        None
    }

    /// The peers of room `room`, in the order they joined; none if there is
    /// no such room.
    pub fn peers_of(&self, room: &String) -> (r: Vec<String>)
        requires
            self.wf(),
        ensures
            texts(r@) == members(self.view(), room@),
    {
        match self.find_room(room) {
            Some(i) => {
                proof {
                    lemma_view_at(self.rooms@, i as int);
                }
                self.rooms[i].peers.clone()
            },
            None => {
                proof {
                    lemma_view_absent(self.rooms@, room@);
                }
                let v: Vec<String> = Vec::new();
                assert(texts(v@) =~= Seq::<Seq<char>>::empty());
                v
            },
        }
    }

    /// Adds peer `peer` to room `room`, which is made if it does not exist.
    ///
    /// Answers the newcomer with its id and the peers that were there before
    /// it, and sends each of those a `new-peer` notice naming it. Refused, with
    /// nothing changed, if the room already has a peer with that id.
    pub fn join(&mut self, room: &String, peer: String) -> (r: Result<(JoinResponse, Vec<Delivery>), JoinError>)
        requires
            old(self).wf(),
        ensures
            final(self).wf(),
            r is Err <==> members(old(self).view(), room@).contains(peer@),
            r is Err ==> final(self).view() == old(self).view(),
            match r {
                Ok((resp, ds)) => {
                    &&& resp.peer_id@ == peer@
                    &&& texts(resp.other_peers@) == members(old(self).view(), room@)
                    &&& deliveries_view(ds@) == notices(members(old(self).view(), room@), "new-peer"@, peer@, room@)
                    &&& final(self).view() == old(self).view().insert(room@, members(old(self).view(), room@).push(peer@))
                },
                Err(_) => true,
            },
    {
        let kind = "new-peer".to_owned();
        let others = self.peers_of(room);
        if let Some(j) = contains_text(&others, &peer) {
            assert(texts(others@)[j as int] == peer@);
            return Err(JoinError::DuplicatePeer);
        }
        let ds = notify_all(&others, &kind, &peer, room);
        let mut all = others.clone();
        all.push(peer.clone());
        assert(texts(all@) =~= texts(others@).push(peer@));
        let new_room = Room { id: room.clone(), peers: all };
        match self.find_room(room) {
            Some(i) => {
                proof {
                    lemma_view_update(self.rooms@, i as int, new_room);
                }
                self.rooms.set(i, new_room);
            },
            None => {
                proof {
                    assert(!has_room(self.rooms@, room@));
                    lemma_view_push(self.rooms@, new_room);
                }
                self.rooms.push(new_room);
            },
        }
        proof {
            let ns = self.rooms@;
            assert forall|i: int| 0 <= i < ns.len() implies (#[trigger] ns[i]).peers@.len() > 0
                && texts(ns[i].peers@).no_duplicates() by {
                if ns[i].id@ != room@ {
                    assert(old(self).rooms@.contains(ns[i]) || ns[i] == new_room);
                }
            }
        }
        let resp = JoinResponse { peer_id: peer, other_peers: others };
        Ok((resp, ds))
    }
    /// Takes peer `peer` out of room `room`.
    ///
    /// Each peer that stays is sent a `peer-left` notice naming it, and a room
    /// left empty is removed. Leaving a room or a peer that does not exist
    /// changes nothing and sends nothing.
    pub fn leave(&mut self, room: &String, peer: &String) -> (ds: Vec<Delivery>)
        requires
            old(self).wf(),
        ensures
            final(self).wf(),
            final(self).view() == after_leave(old(self).view(), room@, peer@),
            deliveries_view(ds@) == leave_notices(old(self).view(), room@, peer@),
    {
        let none: Vec<Delivery> = Vec::new();
        assert(deliveries_view(none@) =~= Seq::<DeliveryView>::empty());
        let i = match self.find_room(room) {
            Some(i) => i,
            None => {
                proof {
                    lemma_view_absent(self.rooms@, room@);
                }
                return none;
            },
        };
        proof {
            lemma_view_at(self.rooms@, i as int);
        }
        let peers = self.rooms[i].peers.clone();
        let ghost ms = texts(peers@);
        let j = match contains_text(&peers, peer) {
            Some(j) => j,
            None => {
                return none;
            },
        };
        proof {
            assert(ms[j as int] == peer@);
            let k = ms.index_of(peer@);
            assert(ms[k] == peer@);
        }
        let mut rest = peers;
        let _gone = rest.remove(j);
        assert(texts(rest@) =~= ms.remove(j as int));
        let kind = "peer-left".to_owned();
        let ds = notify_all(&rest, &kind, peer, room);
        if rest.len() == 0 {
            proof {
                lemma_view_remove(self.rooms@, i as int);
            }
            self.rooms.remove(i);
            proof {
                let ns = self.rooms@;
                assert forall|x: int| 0 <= x < ns.len() implies (#[trigger] ns[x]).peers@.len() > 0
                    && texts(ns[x].peers@).no_duplicates() by {
                    if x < i {
                        assert(ns[x] == old(self).rooms@[x]);
                    } else {
                        assert(ns[x] == old(self).rooms@[x + 1]);
                    }
                }
            }
        } else {
            let new_room = Room { id: room.clone(), peers: rest };
            proof {
                lemma_view_update(self.rooms@, i as int, new_room);
                assert forall|a: int, b: int| 0 <= a < b < texts(new_room.peers@).len() implies texts(
                    new_room.peers@,
                )[a] != texts(new_room.peers@)[b] by {
                    if b < j {
                    } else if a < j {
                        assert(texts(new_room.peers@)[b] == ms[b + 1]);
                    } else {
                        assert(texts(new_room.peers@)[a] == ms[a + 1]);
                        assert(texts(new_room.peers@)[b] == ms[b + 1]);
                    }
                }
            }
            self.rooms.set(i, new_room);
            proof {
                let ns = self.rooms@;
                assert forall|x: int| 0 <= x < ns.len() implies (#[trigger] ns[x]).peers@.len() > 0
                    && texts(ns[x].peers@).no_duplicates() by {
                    if x != i {
                        assert(ns[x] == old(self).rooms@[x]);
                    }
                }
            }
        }
        ds
    }

    /// Passes `msg`, sent by peer `sender` of room `room`, on to its target.
    ///
    /// The target gets a copy whose `target` names the sender and whose
    /// `room_id` names the room. Nothing is sent when the message has no
    /// target or the target is not in the room.
    pub fn signal(&self, room: &String, sender: &String, msg: Envelope) -> (ds: Vec<Delivery>)
        requires
            self.wf(),
        ensures
            deliveries_view(ds@) == relayed(self.view(), room@, sender@, msg@),
    {
        let mut ds: Vec<Delivery> = Vec::new();
        let target = match msg.target {
            Some(t) => t,
            None => {
                assert(deliveries_view(ds@) =~= Seq::<DeliveryView>::empty());
                return ds;
            },
        };
        let peers = self.peers_of(room);
        match contains_text(&peers, &target) {
            Some(j) => {
                assert(texts(peers@)[j as int] == target@);
                let forwarded = Envelope {
                    kind: msg.kind,
                    data: msg.data,
                    target: Some(sender.clone()),
                    room_id: Some(room.clone()),
                };
                ds.push(Delivery { to: target, envelope: forwarded });
            },
            None => {},
        }
        assert(deliveries_view(ds@) =~= relayed(self.view(), room@, sender@, msg@));
        ds
    }
    /// Whether a room named `room` exists.
    pub fn has_room(&self, room: &String) -> (r: bool)
        requires
            self.wf(),
        ensures
            r == self.view().contains_key(room@),
    {
        match self.find_room(room) {
            Some(i) => {
                proof {
                    lemma_view_at(self.rooms@, i as int);
                }
                true
            },
            None => {
                proof {
                    lemma_view_absent(self.rooms@, room@);
                }
                false
            },
        }
    }
}

} // verus!
