//! The decisions of one relay connection.
//!
//! The connection's owner reads a message, hands it to [`Connection::handle`],
//! sends what the returned [`Step`] says, and closes the connection when it
//! says so or when the transport fails; then it calls
//! [`Connection::on_close`], which makes the peer leave its room.
use vstd::prelude::*;

use crate::message::{
    command_of, command_spec, deliveries_view, notices, texts, Command, Delivery, DeliveryView, Envelope,
    EnvelopeView,
};
use crate::relay::{after_leave, leave_notices, members, relayed, JoinResponse, Registry};

verus! {

/// A lowercase hexadecimal digit.
pub open spec fn lower_hex(c: char) -> bool {
    ('0' <= c && c <= '9') || ('a' <= c && c <= 'f')
}

/// The shape of a version-4 uuid in its lowercase hyphenated form: groups of
/// 8, 4, 4, 4 and 12 hex digits, version digit `4`, variant digit `8` to `b`.
pub open spec fn is_uuid_v4_text(t: Seq<char>) -> bool {
    &&& t.len() == 36
    &&& t[8] == '-' && t[13] == '-' && t[18] == '-' && t[23] == '-'
    &&& forall|i: int| 0 <= i < 36 && i != 8 && i != 13 && i != 18 && i != 23 ==> lower_hex(#[trigger] t[i])
    &&& t[14] == '4'
    &&& (t[19] == '8' || t[19] == '9' || t[19] == 'a' || t[19] == 'b')
}

/// Relies on uuid's `Uuid::new_v4` and its `Display`: a random version-4 id
/// (version and variant bits fixed by a mask), written through `LowerHex` in
/// the hyphenated form.
#[verifier::external_body]
fn generate_peer_id() -> (r: String)
    ensures
        r@.len() == 36,
        r@[8] == '-' && r@[13] == '-' && r@[18] == '-' && r@[23] == '-',
        forall|i: int| 0 <= i < 36 && i != 8 && i != 13 && i != 18 && i != 23 ==> lower_hex(#[trigger] r@[i]),
        r@[14] == '4',
        r@[19] == '8' || r@[19] == '9' || r@[19] == 'a' || r@[19] == 'b',
{
    uuid::Uuid::new_v4().to_string()
}

/// What the owner of a connection does after one message.
pub struct Step {
    /// The answer to a join, sent back on this connection.
    pub reply: Option<JoinResponse>,
    /// Messages for the connections of other peers.
    pub deliveries: Vec<Delivery>,
    /// Whether this connection is to be closed.
    pub close: bool,
}

/// The room and peer id that a connection joined last, if any.
pub struct Connection {
    joined: Option<(String, String)>,
}

/// The content of a connection's membership.
pub open spec fn membership(j: Option<(String, String)>) -> Option<(Seq<char>, Seq<char>)> {
    match j {
        Some((r, p)) => Some((r@, p@)),
        None => None,
    }
}

/// A step that sends nothing and keeps the connection open.
pub open spec fn quiet(s: Step) -> bool {
    s.reply is None && s.deliveries@.len() == 0 && !s.close
}

/// The rooms once the peer of membership `before` has left its room.
pub open spec fn departed(before: Option<(Seq<char>, Seq<char>)>, m: Map<Seq<char>, Seq<Seq<char>>>) -> Map<Seq<char>, Seq<Seq<char>>> {
    match before {
        Some((r, p)) => after_leave(m, r, p),
        None => m,
    }
}

/// What is sent when the peer of membership `before` leaves its room.
pub open spec fn departure_notices(before: Option<(Seq<char>, Seq<char>)>, m: Map<Seq<char>, Seq<Seq<char>>>) -> Seq<DeliveryView> {
    match before {
        Some((r, p)) => leave_notices(m, r, p),
        None => Seq::empty(),
    }
}

/// How a connection that had joined `before` and a relay whose rooms were `m0`
/// handle `msg`, when a join gives the newcomer the id `id`: the connection
/// is then at `after`, the rooms are `m1`, and `s` is what is sent.
pub open spec fn handled(
    before: Option<(Seq<char>, Seq<char>)>,
    after: Option<(Seq<char>, Seq<char>)>,
    m0: Map<Seq<char>, Seq<Seq<char>>>,
    m1: Map<Seq<char>, Seq<Seq<char>>>,
    msg: EnvelopeView,
    id: Seq<char>,
    s: Step,
) -> bool {
    match command_spec(msg.kind) {
        Command::Join => match msg.room_id {
            Some(r) => {
                let mid = departed(before, m0);
                if members(mid, r).contains(id) {
                    &&& after is None
                    &&& m1 == mid
                    &&& s.reply is None
                    &&& deliveries_view(s.deliveries@) == departure_notices(before, m0)
                    &&& !s.close
                } else {
                    &&& after == Some((r, id))
                    &&& m1 == mid.insert(r, members(mid, r).push(id))
                    &&& s.reply is Some
                    &&& s.reply.unwrap().peer_id@ == id
                    &&& texts(s.reply.unwrap().other_peers@) == members(mid, r)
                    &&& deliveries_view(s.deliveries@) == departure_notices(before, m0) + notices(
                        members(mid, r),
                        "new-peer"@,
                        id,
                        r,
                    )
                    &&& !s.close
                }
            },
            None => after == before && m1 == m0 && quiet(s),
        },
        Command::Leave => match before {
            Some((r, p)) => {
                &&& after is None
                &&& m1 == after_leave(m0, r, p)
                &&& s.reply is None
                &&& deliveries_view(s.deliveries@) == leave_notices(m0, r, p)
                &&& s.close
            },
            None => after == before && m1 == m0 && quiet(s),
        },
        Command::Relay => match before {
            Some((r, p)) => {
                &&& after == before
                &&& m1 == m0
                &&& s.reply is None
                &&& deliveries_view(s.deliveries@) == relayed(m0, r, p, msg)
                &&& !s.close
            },
            None => after == before && m1 == m0 && quiet(s),
        },
    }
}

impl Connection {
    /// The room and peer id that this connection joined last, if any.
    pub closed spec fn view(&self) -> Option<(Seq<char>, Seq<char>)> {
        membership(self.joined)
    }

    /// A connection that has joined no room.
    pub fn new() -> (r: Connection)
        ensures
            r.view() is None,
    {
        Connection { joined: None }
    }

    /// Handles `msg`, giving `fresh_id` to the peer if the message is a join.
    ///
    /// A join enters the room named by `room_id` (and is ignored without
    /// one), after the peer left the room it was in, if any; a leave takes the peer out of its room and closes the
    /// connection; any other message is passed on to its target. A leave or
    /// a relayed message before any join is ignored.
    pub fn handle_with_id(&mut self, reg: &mut Registry, msg: Envelope, fresh_id: String) -> (s: Step)
        requires
            old(reg).wf(),
        ensures
            final(reg).wf(),
            handled(old(self).view(), final(self).view(), old(reg).view(), final(reg).view(), msg@, fresh_id@, s),
    {
        let nothing = Step { reply: None, deliveries: Vec::new(), close: false };
        match command_of(&msg.kind) {
            Command::Join => {
                let room = match msg.room_id {
                    Some(r) => r,
                    None => {
                        return nothing;
                    },
                };
                let mut ds = self.on_close(reg);
                assert(reg.view() == departed(old(self).view(), old(reg).view()));
                assert(deliveries_view(ds@) =~= departure_notices(old(self).view(), old(reg).view()));
                match reg.join(&room, fresh_id.clone()) {
                    Ok((resp, mut more)) => {
                        let ghost first = ds@;
                        let ghost second = more@;
                        ds.append(&mut more);
                        assert(deliveries_view(ds@) =~= deliveries_view(first) + deliveries_view(second));
                        self.joined = Some((room, fresh_id));
                        Step { reply: Some(resp), deliveries: ds, close: false }
                    },
                    Err(_) => Step { reply: None, deliveries: ds, close: false },
                }
            },
            Command::Leave => {
                match &self.joined {
                    Some((r, p)) => {
                        let ds = reg.leave(r, p);
                        self.joined = None;
                        Step { reply: None, deliveries: ds, close: true }
                    },
                    None => nothing,
                }
            },
            Command::Relay => {
                match &self.joined {
                    Some((r, p)) => {
                        let ds = reg.signal(r, p, msg);
                        Step { reply: None, deliveries: ds, close: false }
                    },
                    None => nothing,
                }
            },
        }
    }

    /// Handles `msg` as [`Connection::handle_with_id`] does, with a freshly
    /// drawn random version-4 uuid as the id for a join.
    pub fn handle(&mut self, reg: &mut Registry, msg: Envelope) -> (s: Step)
        requires
            old(reg).wf(),
        ensures
            final(reg).wf(),
            exists|id: Seq<char>|
                is_uuid_v4_text(id) && handled(old(self).view(), final(self).view(), old(reg).view(), final(reg).view(), msg@, id, s),
    {
        let id = generate_peer_id();
        assert(is_uuid_v4_text(id@));
        self.handle_with_id(reg, msg, id)
    }

    /// Cleans up after the connection closed: the peer leaves the room it
    /// joined last, as with an explicit leave. Called again, it does nothing.
    pub fn on_close(&mut self, reg: &mut Registry) -> (ds: Vec<Delivery>)
        requires
            old(reg).wf(),
        ensures
            final(reg).wf(),
            final(self).view() is None,
            match old(self).view() {
                Some((r, p)) => final(reg).view() == after_leave(old(reg).view(), r, p)
                    && deliveries_view(ds@) == leave_notices(old(reg).view(), r, p),
                None => final(reg).view() == old(reg).view() && ds@.len() == 0,
            },
    {
        match &self.joined {
            Some((r, p)) => {
                let ds = reg.leave(r, p);
                self.joined = None;
                ds
            },
            None => Vec::new(),
        }
    }
    /// The room and peer id that this connection joined last, if any.
    pub fn joined(&self) -> (r: Option<(String, String)>)
        ensures
            membership(r) == self.view(),
    {
        match &self.joined {
            Some((r, p)) => Some((r.clone(), p.clone())),
            None => None,
        }
    }
}

} // verus!
