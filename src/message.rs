//! The messages that the signaling relay reads and writes.
use vstd::prelude::*;

verus! {

/// One message on a relay connection.
///
/// `kind` is `join`, `leave`, `new-peer`, `peer-left` or a kind of the
/// application's own (an offer, a candidate), whose `data` the relay passes on
/// untouched.
pub struct Envelope {
    pub kind: String,
    pub data: String,
    pub target: Option<String>,
    pub room_id: Option<String>,
}

/// The abstract content of an [`Envelope`].
pub ghost struct EnvelopeView {
    pub kind: Seq<char>,
    pub data: Seq<char>,
    pub target: Option<Seq<char>>,
    pub room_id: Option<Seq<char>>,
}

/// The content of an optional text.
pub open spec fn opt_text(o: Option<String>) -> Option<Seq<char>> {
    match o {
        Some(s) => Some(s@),
        None => None,
    }
}

/// The contents of a list of texts.
pub open spec fn texts(v: Seq<String>) -> Seq<Seq<char>> {
    v.map_values(|s: String| s@)
}

impl View for Envelope {
    type V = EnvelopeView;

    open spec fn view(&self) -> EnvelopeView {
        EnvelopeView {
            kind: self.kind@,
            data: self.data@,
            target: opt_text(self.target),
            room_id: opt_text(self.room_id),
        }
    }
}

/// What a message from a peer asks the relay to do.
#[derive(PartialEq, Eq, Structural, Clone, Copy, Debug)]
pub enum Command {
    /// Enter the room named by `room_id` under a fresh peer id.
    Join,
    /// Leave the room entered last and close the connection.
    Leave,
    /// Pass the message on to the peer named by `target`.
    Relay,
}

/// The command that a message kind stands for.
pub open spec fn command_spec(kind: Seq<char>) -> Command {
    if kind == "join"@ {
        Command::Join
    } else if kind == "leave"@ {
        Command::Leave
    } else {
        Command::Relay
    }
}

/// Classifies a message by its kind.
pub fn command_of(kind: &String) -> (r: Command)
    ensures
        r == command_spec(kind@),
{
    let join = "join".to_owned();
    let leave = "leave".to_owned();
    if *kind == join {
        Command::Join
    } else if *kind == leave {
        Command::Leave
    } else {
        Command::Relay
    }
}

/// A message the relay hands to the connection of peer `to`.
pub struct Delivery {
    pub to: String,
    pub envelope: Envelope,
}

/// The abstract content of a [`Delivery`].
pub ghost struct DeliveryView {
    pub to: Seq<char>,
    pub envelope: EnvelopeView,
}

impl View for Delivery {
    type V = DeliveryView;

    open spec fn view(&self) -> DeliveryView {
        DeliveryView { to: self.to@, envelope: self.envelope@ }
    }
}

/// The contents of a list of deliveries.
pub open spec fn deliveries_view(v: Seq<Delivery>) -> Seq<DeliveryView> {
    v.map_values(|d: Delivery| d@)
}

/// The notice of kind `kind` about peer `subject` in room `room`.
pub open spec fn notice(kind: Seq<char>, subject: Seq<char>, room: Seq<char>) -> EnvelopeView {
    EnvelopeView { kind, data: subject, target: None, room_id: Some(room) }
}

/// One notice, the same for each peer of `to`, in that order.
pub open spec fn notices(to: Seq<Seq<char>>, kind: Seq<char>, subject: Seq<char>, room: Seq<char>) -> Seq<DeliveryView> {
    to.map_values(|p: Seq<char>| DeliveryView { to: p, envelope: notice(kind, subject, room) })
}

/// Builds one notice for each peer of `peers`.
pub fn notify_all(peers: &Vec<String>, kind: &String, subject: &String, room: &String) -> (r: Vec<Delivery>)
    ensures
        deliveries_view(r@) == notices(texts(peers@), kind@, subject@, room@),
{
    let mut out: Vec<Delivery> = Vec::new();
    let mut i: usize = 0;
    while i < peers.len()
        invariant
            i <= peers.len(),
            out.len() == i,
            forall|j: int| 0 <= j < i ==> (#[trigger] out@[j])@ == (DeliveryView {
                to: peers@[j]@,
                envelope: notice(kind@, subject@, room@),
            }),
        decreases peers.len() - i,
    {
        let d = Delivery {
            to: peers[i].clone(),
            envelope: Envelope {
                kind: kind.clone(),
                data: subject.clone(),
                target: None,
                room_id: Some(room.clone()),
            },
        };
        out.push(d);
        i = i + 1;
    }
    assert(deliveries_view(out@) =~= notices(texts(peers@), kind@, subject@, room@));
    out
}

} // verus!
