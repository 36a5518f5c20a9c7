//! The subscribe driver's decisions: what one gossip event does to the
//! membership registry, and what the caller must log, save or broadcast in
//! response. The loop that awaits the stream and the cancellation signal
//! lives outside this crate and only performs what is decided here.

use vstd::prelude::*;

use crate::MAX_FILESIZE;
use crate::structs::{
    MemDB, Msg, MsgV, FrameError, frame_check, frame_id, frame_payload, decoded_payload,
    enc_payload, parse_raw_message, lemma_payload_enc_injective, payload_wf,
};

verus! {

/// One event from the gossip stream, as plain values.
pub enum ChatEvent {
    /// The stream fell behind; nothing was decoded.
    Lagged,
    /// The swarm reported the initial neighbour set.
    Joined(Vec<Vec<u8>>),
    /// A transport neighbour appeared.
    NeighborUp(Vec<u8>),
    /// A transport neighbour disappeared.
    NeighborDown(Vec<u8>),
    /// A raw frame was delivered.
    Received(Vec<u8>),
}

/// What the driver decided for one event. The caller logs it; for
/// `NewPeer` it also broadcasts the local identity announcement, and for
/// `SaveFile` it writes the bytes under the downloads directory.
pub enum SubscribeOutcome {
    /// Stream hiccup or topology note: log only, registry untouched.
    Noted,
    /// A peer left, by a `Bye` frame (`voluntary`) or by neighbour loss;
    /// its display name if it was on record.
    PeerLeft { id: Vec<u8>, name: Option<String>, voluntary: bool },
    /// The frame failed verification and was dropped.
    InvalidFrame { error: FrameError },
    /// A first announcement: the peer went on record, and the caller
    /// replies with our own announcement. `at` is the sender's clock
    /// reading in milliseconds; rendering it is the caller's display work.
    NewPeer { id: Vec<u8>, name: String, at: i64 },
    /// A repeat announcement: no log line, no reply.
    KnownPeer,
    /// A chat line, with the sender's recorded name if any.
    Chat { id: Vec<u8>, name: Option<String>, text: String },
    /// An inline file within the size cap: write it out.
    SaveFile { id: Vec<u8>, filename: String, content: Vec<u8> },
    /// An inline file over the size cap: dropped, log only.
    OversizeFile { id: Vec<u8>, filename: String },
    /// A blob advertisement; never fetched automatically.
    ShareAdvert { id: Vec<u8>, name: Option<String>, filename: String, size: u64, ticket: String },
}

/// The registry after an announcement, and whether the peer was new.
pub open spec fn about_me_step(m: Map<Seq<u8>, Seq<char>>, id: Seq<u8>, name: Seq<char>) -> (
    bool,
    Map<Seq<u8>, Seq<char>>,
) {
    if m.contains_key(id) {
        (false, m)
    } else {
        (true, m.insert(id, name))
    }
}

/// A second announcement from the same peer is a no-op: it is not new, and
/// the registry does not change. One `NewPeer` note and one reply, ever.
pub proof fn lemma_about_me_idempotent(m: Map<Seq<u8>, Seq<char>>, id: Seq<u8>, name: Seq<char>)
    ensures
        ({
            let (new1, m1) = about_me_step(m, id, name);
            let (new2, m2) = about_me_step(m1, id, name);
            &&& !new2
            &&& m2 == m1
            &&& !m.contains_key(id) ==> new1
        }),
{
}

/// After a departure, whether by `Bye` or by neighbour loss, the peer is
/// absent from the registry.
pub proof fn lemma_departure_absent(m: Map<Seq<u8>, Seq<char>>, id: Seq<u8>)
    ensures
        !m.remove(id).contains_key(id),
{
}

/// What the registry looks like after the event, as a function of the
/// decoded frame.
pub open spec fn members_after(
    m: Map<Seq<u8>, Seq<char>>,
    ev: ChatEvent,
) -> Map<Seq<u8>, Seq<char>> {
    match ev {
        ChatEvent::NeighborDown(id) => m.remove(id@),
        ChatEvent::Received(raw) => {
            if frame_check(raw@) is None {
                let sender = frame_id(raw@);
                match decoded_payload(frame_payload(raw@)).msg {
                    MsgV::AboutMe { name } => about_me_step(m, sender, name).1,
                    MsgV::Bye => m.remove(sender),
                    _ => m,
                }
            } else {
                m
            }
        },
        _ => m,
    }
}

/// The outcome owed for a verified frame from `sender` carrying `msg`,
/// given the registry `m` it met.
pub open spec fn received_outcome_ok(
    m: Map<Seq<u8>, Seq<char>>,
    sender: Seq<u8>,
    sent_at: i64,
    msg: MsgV,
    r: SubscribeOutcome,
) -> bool {
    match msg {
        MsgV::AboutMe { name } => {
            if m.contains_key(sender) {
                r is KnownPeer
            } else {
                &&& r matches SubscribeOutcome::NewPeer { id, name: n, at }
                &&& id@ == sender
                &&& n@ == name
                &&& at == sent_at
            }
        },
        MsgV::Bye => {
            &&& r matches SubscribeOutcome::PeerLeft { id, name, voluntary }
            &&& id@ == sender
            &&& voluntary
            &&& (name is Some <==> m.contains_key(sender))
            &&& (name matches Some(n) ==> n@ == m[sender])
        },
        MsgV::Message { text } => {
            &&& r matches SubscribeOutcome::Chat { id, name, text: t }
            &&& id@ == sender
            &&& t@ == text
            &&& (name is Some <==> m.contains_key(sender))
            &&& (name matches Some(n) ==> n@ == m[sender])
        },
        MsgV::SendFile { filename, content } => {
            if content.len() <= MAX_FILESIZE {
                r matches SubscribeOutcome::SaveFile { id, filename: f, content: c } && id@
                    == sender && f@ == filename && c@ == content
            } else {
                r matches SubscribeOutcome::OversizeFile { id, filename: f } && id@ == sender && f@
                    == filename
            }
        },
        MsgV::ShareFile { filename, size, ticket } => {
            &&& r matches SubscribeOutcome::ShareAdvert {
                id,
                name,
                filename: f,
                size: sz,
                ticket: tk,
            }
            &&& id@ == sender
            &&& f@ == filename
            &&& sz == size
            &&& tk@ == ticket
            &&& (name is Some <==> m.contains_key(sender))
            &&& (name matches Some(n) ==> n@ == m[sender])
        },
    }
}

/// The outcome owed for any event.
pub open spec fn subscribe_outcome(
    m: Map<Seq<u8>, Seq<char>>,
    ev: ChatEvent,
    r: SubscribeOutcome,
) -> bool {
    match ev {
        ChatEvent::Lagged => r is Noted,
        ChatEvent::Joined(_) => r is Noted,
        ChatEvent::NeighborUp(_) => r is Noted,
        ChatEvent::NeighborDown(id) => {
            &&& r matches SubscribeOutcome::PeerLeft { id: rid, name, voluntary }
            &&& rid@ == id@
            &&& !voluntary
            &&& (name is Some <==> m.contains_key(id@))
            &&& (name matches Some(n) ==> n@ == m[id@])
        },
        ChatEvent::Received(raw) => {
            match frame_check(raw@) {
                Some(e) => r matches SubscribeOutcome::InvalidFrame { error } && error == e,
                None => received_outcome_ok(
                    m,
                    frame_id(raw@),
                    decoded_payload(frame_payload(raw@)).at,
                    decoded_payload(frame_payload(raw@)).msg,
                    r,
                ),
            }
        },
    }
}

/// Handles one gossip event: verifies and dispatches a received frame,
/// updates the registry exactly as the event demands, and reports the
/// reaction owed. Only an unknown peer's announcement asks for a reply.
pub fn handle_event(db: &mut MemDB, ev: ChatEvent) -> (r: SubscribeOutcome)
    requires
        old(db).wf(),
    ensures
        final(db).wf(),
        final(db).spec_secret_key() == old(db).spec_secret_key(),
        final(db).spec_node_id() == old(db).spec_node_id(),
        final(db).spec_name() == old(db).spec_name(),
        final(db).members@ == members_after(old(db).members@, ev),
        subscribe_outcome(old(db).members@, ev, r),
{
    match ev {
        ChatEvent::Lagged => SubscribeOutcome::Noted,
        ChatEvent::Joined(_) => SubscribeOutcome::Noted,
        ChatEvent::NeighborUp(_) => SubscribeOutcome::Noted,
        ChatEvent::NeighborDown(id) => {
            let name = db.members.remove(&id);
            SubscribeOutcome::PeerLeft { id, name, voluntary: false }
        },
        ChatEvent::Received(raw) => {
            let raw_len = raw.len();
            let parsed = parse_raw_message(&raw);
            match parsed {
                Err(error) => SubscribeOutcome::InvalidFrame { error },
                Ok((from, at, message)) => {
                    proof {
                        let got = message@;
                        let pv = decoded_payload(frame_payload(raw@));
                        assert(payload_wf(pv) && frame_payload(raw@) == enc_payload(pv));
                        assert(raw@.len() == raw_len);
                        lemma_payload_enc_injective(pv, got);
                    }
                    let msg = message.into_msg();
                    match msg {
                        Msg::AboutMe { name } => {
                            let fresh = db.members.insert_if_absent(from.clone(), name.clone());
                            if fresh {
                                SubscribeOutcome::NewPeer { id: from, name, at }
                            } else {
                                SubscribeOutcome::KnownPeer
                            }
                        },
                        Msg::Bye => {
                            let name = db.members.remove(&from);
                            SubscribeOutcome::PeerLeft { id: from, name, voluntary: true }
                        },
                        Msg::Message { text } => {
                            let name = db.members.get(&from);
                            SubscribeOutcome::Chat { id: from, name, text }
                        },
                        Msg::SendFile { filename, content } => {
                            if content.len() as u64 <= MAX_FILESIZE {
                                SubscribeOutcome::SaveFile { id: from, filename, content }
                            } else {
                                SubscribeOutcome::OversizeFile { id: from, filename }
                            }
                        },
                        Msg::ShareFile { filename, size, ticket } => {
                            let name = db.members.get(&from);
                            SubscribeOutcome::ShareAdvert { id: from, name, filename, size, ticket }
                        },
                    }
                },
            }
        },
    }
}

} // verus!
