//! The chat wire objects: the `Msg` variants, the signed-payload `Message`,
//! and their self-delimiting byte encoding.
//!
//! Every encoder states the exact bytes it produces; every parser accepts a
//! byte string if and only if it is such an encoding, and then returns the
//! encoded value.

use vstd::prelude::*;

use crate::wire::{
    enc_bytes, enc_str, u64_le, twos_of, lemma_split_concat,
    lemma_le_u64_round_trip, lemma_u64_le_round_trip, lemma_twos_round_trip,
    lemma_twos_round_trip_rev, push_u64_le,
    push_len_bytes, push_str_run, push_raw, read_u64_le, read_len_bytes, read_str_run, copy_range,
    i64_to_twos, twos_to_i64,
};

verus! {

/// A chat event as carried inside a signed frame.
pub enum Msg {
    /// Identity announcement: the sender's display name.
    AboutMe { name: String },
    /// Voluntary departure.
    Bye,
    /// Free-text chat line.
    Message { text: String },
    /// A small file embedded inline.
    SendFile { filename: String, content: Vec<u8> },
    /// A pointer to a content-addressed blob: the provider's blob ticket in
    /// its textual form.
    ShareFile { filename: String, size: u64, ticket: String },
}

/// Mathematical image of a `Msg`.
pub enum MsgV {
    AboutMe { name: Seq<char> },
    Bye,
    Message { text: Seq<char> },
    SendFile { filename: Seq<char>, content: Seq<u8> },
    ShareFile { filename: Seq<char>, size: u64, ticket: Seq<char> },
}

impl View for Msg {
    type V = MsgV;

    open spec fn view(&self) -> MsgV {
        match self {
            Msg::AboutMe { name } => MsgV::AboutMe { name: name@ },
            Msg::Bye => MsgV::Bye,
            Msg::Message { text } => MsgV::Message { text: text@ },
            Msg::SendFile { filename, content } => MsgV::SendFile {
                filename: filename@,
                content: content@,
            },
            Msg::ShareFile { filename, size, ticket } => MsgV::ShareFile {
                filename: filename@,
                size: *size,
                ticket: ticket@,
            },
        }
    }
}

/// The leading byte that names each variant on the wire.
pub open spec fn tag_of(m: MsgV) -> u8 {
    match m {
        MsgV::AboutMe { .. } => 1,
        MsgV::Bye => 2,
        MsgV::Message { .. } => 3,
        MsgV::SendFile { .. } => 4,
        MsgV::ShareFile { .. } => 5,
    }
}

/// The byte encoding of a chat event: a tag byte, then the variant's fields
/// as length-prefixed runs (sizes as raw little-endian words).
pub open spec fn enc_msg(m: MsgV) -> Seq<u8> {
    seq![tag_of(m)] + match m {
        MsgV::AboutMe { name } => enc_str(name),
        MsgV::Bye => Seq::<u8>::empty(),
        MsgV::Message { text } => enc_str(text),
        MsgV::SendFile { filename, content } => enc_str(filename) + enc_bytes(content),
        MsgV::ShareFile { filename, size, ticket } => enc_str(filename) + u64_le(size) + enc_str(
            ticket,
        ),
    }
}

impl Msg {
    /// Appends this event's encoding to `out`.
    pub fn encode_onto(&self, out: &mut Vec<u8>)
        ensures
            final(out)@ == old(out)@ + enc_msg(self@),
    {
        match self {
            Msg::AboutMe { name } => {
                out.push(1u8);
                push_str_run(out, name.as_str());
                assert(out@ =~= old(out)@ + enc_msg(self@));
            },
            Msg::Bye => {
                out.push(2u8);
                assert(out@ =~= old(out)@ + enc_msg(self@));
            },
            Msg::Message { text } => {
                out.push(3u8);
                push_str_run(out, text.as_str());
                assert(out@ =~= old(out)@ + enc_msg(self@));
            },
            Msg::SendFile { filename, content } => {
                out.push(4u8);
                push_str_run(out, filename.as_str());
                push_len_bytes(out, content);
                assert(out@ =~= old(out)@ + enc_msg(self@));
            },
            Msg::ShareFile { filename, size, ticket } => {
                out.push(5u8);
                push_str_run(out, filename.as_str());
                push_u64_le(out, *size);
                push_str_run(out, ticket.as_str());
                assert(out@ =~= old(out)@ + enc_msg(self@));
            },
        }
    }
}

/// What it means for the parse of `b` from `off` onward to be right: it
/// accepts exactly the encodings, and hands back what was encoded.
pub open spec fn msg_parse_post(b: Seq<u8>, off: int, r: Option<Msg>) -> bool {
    &&& (r matches Some(m) ==> b.subrange(off, b.len() as int) == enc_msg(m@))
    &&& forall|mv: MsgV|
        b.subrange(off, b.len() as int) == #[trigger] enc_msg(mv) ==> {
            &&& r matches Some(m)
            &&& m@ == mv
        }
}

/// Parses the chat event that occupies `b` from `off` to the very end.
pub fn parse_msg(b: &Vec<u8>, off: usize) -> (r: Option<Msg>)
    requires
        off <= b@.len(),
    ensures
        msg_parse_post(b@, off as int, r),
{
    let len = b.len();
    let ghost tail = b@.subrange(off as int, b@.len() as int);
    proof {
        assert forall|mv: MsgV| tail == #[trigger] enc_msg(mv) implies tail.len() >= 1 && tail[0]
            == tag_of(mv) by {}
    }
    if off >= len {
        return None;
    }
    let tag = b[off];
    assert(tail[0] == tag);
    if tag == 1u8 {
        parse_about_me(b, off)
    } else if tag == 2u8 {
        if off + 1 == len {
            proof {
                assert(tail =~= enc_msg(MsgV::Bye));
                assert forall|mv: MsgV| tail == #[trigger] enc_msg(mv) implies MsgV::Bye == mv by {}
            }
            Some(Msg::Bye)
        } else {
            proof {
                assert forall|mv: MsgV| tail == #[trigger] enc_msg(mv) implies false by {}
            }
            None
        }
    } else if tag == 3u8 {
        parse_message(b, off)
    } else if tag == 4u8 {
        parse_send_file(b, off)
    } else if tag == 5u8 {
        parse_share_file(b, off)
    } else {
        proof {
            assert forall|mv: MsgV| tail == #[trigger] enc_msg(mv) implies false by {}
        }
        None
    }
}

fn parse_about_me(b: &Vec<u8>, off: usize) -> (r: Option<Msg>)
    requires
        off < b@.len(),
        b@[off as int] == 1u8,
    ensures
        msg_parse_post(b@, off as int, r),
{
    let len = b.len();
    let ghost tail = b@.subrange(off as int, b@.len() as int);
    proof {
        assert forall|mv: MsgV| tail == #[trigger] enc_msg(mv) implies about_me_split(
            b@,
            off as int,
            mv,
        ) by {
            assert(tail[0] == tag_of(mv));
            if let MsgV::AboutMe { name: nv } = mv {
                assert(seq![tag_of(mv)] =~= seq![1u8]);
                assert(enc_msg(mv) == seq![1u8] + enc_str(nv));
                assert(tail.len() == b@.len() - off);
                assert(enc_msg(mv).len() == 1 + enc_str(nv).len());
                assert(off + 1 + enc_str(nv).len() == b@.len());
                lemma_split_concat(b@, off as int, seq![1u8], enc_str(nv));
            }
        }
    }
    match read_str_run(b, off + 1) {
        Some((name, end)) => {
            if end == len {
                proof {
                    assert(tail =~= seq![1u8] + b@.subrange(off + 1, len as int));
                    assert(tail == enc_msg(MsgV::AboutMe { name: name@ }));
                    assert forall|mv: MsgV|
                        tail == #[trigger] enc_msg(mv) implies (MsgV::AboutMe { name: name@ })
                        == mv by {
                        assert(about_me_split(b@, off as int, mv));
                    }
                }
                Some(Msg::AboutMe { name })
            } else {
                proof {
                    assert forall|mv: MsgV| tail == #[trigger] enc_msg(mv) implies false by {
                        assert(about_me_split(b@, off as int, mv));
                    }
                }
                None
            }
        },
        None => {
            proof {
                assert forall|mv: MsgV| tail == #[trigger] enc_msg(mv) implies false by {
                    assert(about_me_split(b@, off as int, mv));
                }
            }
            None
        },
    }
}

fn parse_message(b: &Vec<u8>, off: usize) -> (r: Option<Msg>)
    requires
        off < b@.len(),
        b@[off as int] == 3u8,
    ensures
        msg_parse_post(b@, off as int, r),
{
    let len = b.len();
    let ghost tail = b@.subrange(off as int, b@.len() as int);
    proof {
        assert forall|mv: MsgV| tail == #[trigger] enc_msg(mv) implies message_split(
            b@,
            off as int,
            mv,
        ) by {
            assert(tail[0] == tag_of(mv));
            if let MsgV::Message { text: tv } = mv {
                assert(seq![tag_of(mv)] =~= seq![3u8]);
                assert(enc_msg(mv) == seq![3u8] + enc_str(tv));
                assert(tail.len() == b@.len() - off);
                assert(enc_msg(mv).len() == 1 + enc_str(tv).len());
                assert(off + 1 + enc_str(tv).len() == b@.len());
                lemma_split_concat(b@, off as int, seq![3u8], enc_str(tv));
            }
        }
    }
    match read_str_run(b, off + 1) {
        Some((text, end)) => {
            if end == len {
                proof {
                    assert(tail =~= seq![3u8] + b@.subrange(off + 1, len as int));
                    assert(tail == enc_msg(MsgV::Message { text: text@ }));
                    assert forall|mv: MsgV|
                        tail == #[trigger] enc_msg(mv) implies (MsgV::Message { text: text@ })
                        == mv by {
                        assert(message_split(b@, off as int, mv));
                    }
                }
                Some(Msg::Message { text })
            } else {
                proof {
                    assert forall|mv: MsgV| tail == #[trigger] enc_msg(mv) implies false by {
                        assert(message_split(b@, off as int, mv));
                    }
                }
                None
            }
        },
        None => {
            proof {
                assert forall|mv: MsgV| tail == #[trigger] enc_msg(mv) implies false by {
                    assert(message_split(b@, off as int, mv));
                }
            }
            None
        },
    }
}

#[verifier::rlimit(30)]
fn parse_send_file(b: &Vec<u8>, off: usize) -> (r: Option<Msg>)
    requires
        off < b@.len(),
        b@[off as int] == 4u8,
    ensures
        msg_parse_post(b@, off as int, r),
{
    let len = b.len();
    let ghost tail = b@.subrange(off as int, b@.len() as int);
    proof {
        assert forall|mv: MsgV| tail == #[trigger] enc_msg(mv) implies send_file_split(
            b@,
            off as int,
            mv,
        ) by {
            assert(tail[0] == tag_of(mv));
            if let MsgV::SendFile { filename: fv, content: cv } = mv {
                assert(seq![tag_of(mv)] =~= seq![4u8]);
                assert(enc_msg(mv) == seq![4u8] + (enc_str(fv) + enc_bytes(cv)));
                assert(tail.len() == b@.len() - off);
                assert(enc_msg(mv).len() == 1 + enc_str(fv).len() + enc_bytes(cv).len());
                assert(off + 1 + enc_str(fv).len() + enc_bytes(cv).len() == b@.len());
                lemma_split_concat(b@, off as int, seq![4u8], enc_str(fv) + enc_bytes(cv));
                lemma_split_concat(b@, off as int + 1, enc_str(fv), enc_bytes(cv));
            }
        }
    }
    match read_str_run(b, off + 1) {
        Some((filename, mid)) => {
            match read_len_bytes(b, mid) {
                Some((content, end)) => {
                    if end == len {
                        proof {
                            assert(tail =~= seq![4u8] + b@.subrange(off + 1, mid as int)
                                + b@.subrange(mid as int, len as int));
                            assert(tail == enc_msg(
                                MsgV::SendFile { filename: filename@, content: content@ },
                            ));
                            assert forall|mv: MsgV|
                                tail == #[trigger] enc_msg(mv) implies (MsgV::SendFile {
                                filename: filename@,
                                content: content@,
                            }) == mv by {
                                assert(send_file_split(b@, off as int, mv));
                            }
                        }
                        Some(Msg::SendFile { filename, content })
                    } else {
                        proof {
                            assert forall|mv: MsgV| tail == #[trigger] enc_msg(mv) implies false by {
                                assert(send_file_split(b@, off as int, mv));
                            }
                        }
                        None
                    }
                },
                None => {
                    proof {
                        assert forall|mv: MsgV| tail == #[trigger] enc_msg(mv) implies false by {
                            assert(send_file_split(b@, off as int, mv));
                        }
                    }
                    None
                },
            }
        },
        None => {
            proof {
                assert forall|mv: MsgV| tail == #[trigger] enc_msg(mv) implies false by {
                    assert(send_file_split(b@, off as int, mv));
                }
            }
            None
        },
    }
}

#[verifier::rlimit(30)]
fn parse_share_file(b: &Vec<u8>, off: usize) -> (r: Option<Msg>)
    requires
        off < b@.len(),
        b@[off as int] == 5u8,
    ensures
        msg_parse_post(b@, off as int, r),
{
    let len = b.len();
    let ghost tail = b@.subrange(off as int, b@.len() as int);
    proof {
        assert forall|mv: MsgV| tail == #[trigger] enc_msg(mv) implies share_file_split(
            b@,
            off as int,
            mv,
        ) by {
            assert(tail[0] == tag_of(mv));
            if let MsgV::ShareFile { filename: fv, size: sv, ticket: tv } = mv {
                assert(seq![tag_of(mv)] =~= seq![5u8]);
                lemma_u64_le_round_trip(sv);
                assert(enc_msg(mv) == seq![5u8] + (enc_str(fv) + u64_le(sv) + enc_str(tv)));
                assert(tail.len() == b@.len() - off);
                assert(enc_msg(mv).len() == 1 + enc_str(fv).len() + 8 + enc_str(tv).len());
                assert(off + 1 + enc_str(fv).len() + 8 + enc_str(tv).len() == b@.len());
                assert(tail =~= seq![5u8] + (enc_str(fv) + (u64_le(sv) + enc_str(tv))));
                lemma_split_concat(
                    b@,
                    off as int,
                    seq![5u8],
                    enc_str(fv) + (u64_le(sv) + enc_str(tv)),
                );
                lemma_split_concat(b@, off as int + 1, enc_str(fv), u64_le(sv) + enc_str(tv));
                lemma_split_concat(
                    b@,
                    off as int + 1 + enc_str(fv).len(),
                    u64_le(sv),
                    enc_str(tv),
                );
            }
        }
    }
    match read_str_run(b, off + 1) {
        Some((filename, mid)) => {
            if len - mid < 8 {
                proof {
                    assert forall|mv: MsgV| tail == #[trigger] enc_msg(mv) implies false by {
                        assert(share_file_split(b@, off as int, mv));
                    }
                }
                return None;
            }
            let size = read_u64_le(b, mid);
            proof {
                lemma_le_u64_round_trip(b@.subrange(mid as int, mid + 8));
                assert forall|mv: MsgV|
                    tail == #[trigger] enc_msg(mv) implies size_matches(mv, size) by {
                    assert(share_file_split(b@, off as int, mv));
                    if let MsgV::ShareFile { filename: fv, size: sv, ticket: tv } = mv {
                        lemma_u64_le_round_trip(sv);
                    }
                }
            }
            match read_str_run(b, mid + 8) {
                Some((ticket, end)) => {
                    if end == len {
                        proof {
                            assert(tail =~= seq![5u8] + b@.subrange(off + 1, mid as int) + u64_le(
                                size,
                            ) + b@.subrange(mid + 8, len as int));
                            assert(tail == enc_msg(
                                MsgV::ShareFile {
                                    filename: filename@,
                                    size: size,
                                    ticket: ticket@,
                                },
                            ));
                            assert forall|mv: MsgV|
                                tail == #[trigger] enc_msg(mv) implies (MsgV::ShareFile {
                                filename: filename@,
                                size: size,
                                ticket: ticket@,
                            }) == mv by {
                                assert(share_file_split(b@, off as int, mv));
                                assert(size_matches(mv, size));
                            }
                        }
                        Some(Msg::ShareFile { filename, size, ticket })
                    } else {
                        proof {
                            assert forall|mv: MsgV| tail == #[trigger] enc_msg(mv) implies false by {
                                assert(share_file_split(b@, off as int, mv));
                            }
                        }
                        None
                    }
                },
                None => {
                    proof {
                        assert forall|mv: MsgV| tail == #[trigger] enc_msg(mv) implies false by {
                            assert(share_file_split(b@, off as int, mv));
                        }
                    }
                    None
                },
            }
        },
        None => {
            proof {
                assert forall|mv: MsgV| tail == #[trigger] enc_msg(mv) implies false by {
                    assert(share_file_split(b@, off as int, mv));
                }
            }
            None
        },
    }
}

/// The shape an `AboutMe` encoding forces on the buffer.
spec fn about_me_split(b: Seq<u8>, off: int, mv: MsgV) -> bool {
    match mv {
        MsgV::AboutMe { name } => {
            &&& b.subrange(off + 1, off + 1 + enc_str(name).len()) == enc_str(name)
            &&& off + 1 + enc_str(name).len() == b.len()
        },
        _ => false,
    }
}

/// The shape a `Message` encoding forces on the buffer.
spec fn message_split(b: Seq<u8>, off: int, mv: MsgV) -> bool {
    match mv {
        MsgV::Message { text } => {
            &&& b.subrange(off + 1, off + 1 + enc_str(text).len()) == enc_str(text)
            &&& off + 1 + enc_str(text).len() == b.len()
        },
        _ => false,
    }
}

/// The shape a `SendFile` encoding forces on the buffer: both runs sit where
/// the parser will look for them.
spec fn send_file_split(b: Seq<u8>, off: int, mv: MsgV) -> bool {
    match mv {
        MsgV::SendFile { filename, content } => {
            &&& b.subrange(off + 1, off + 1 + enc_str(filename).len()) == enc_str(filename)
            &&& b.subrange(
                off + 1 + enc_str(filename).len(),
                off + 1 + enc_str(filename).len() + enc_bytes(content).len(),
            ) == enc_bytes(content)
            &&& off + 1 + enc_str(filename).len() + enc_bytes(content).len() == b.len()
        },
        _ => false,
    }
}

/// The shape a `ShareFile` encoding forces on the buffer.
spec fn share_file_split(b: Seq<u8>, off: int, mv: MsgV) -> bool {
    match mv {
        MsgV::ShareFile { filename, size, ticket } => {
            &&& b.subrange(off + 1, off + 1 + enc_str(filename).len()) == enc_str(filename)
            &&& b.subrange(
                off + 1 + enc_str(filename).len(),
                off + 1 + enc_str(filename).len() + 8,
            ) == u64_le(size)
            &&& b.subrange(
                off + 1 + enc_str(filename).len() + 8,
                off + 1 + enc_str(filename).len() + 8 + enc_str(ticket).len(),
            ) == enc_str(ticket)
            &&& off + 1 + enc_str(filename).len() + 8 + enc_str(ticket).len() == b.len()
        },
        _ => false,
    }
}

spec fn size_matches(mv: MsgV, size: u64) -> bool {
    match mv {
        MsgV::ShareFile { size: sv, .. } => sv == size,
        _ => true,
    }
}

/// The payload of a signed frame: a fresh nonce, the sender's clock reading
/// in milliseconds since the Unix epoch, and the chat event.
pub struct Message {
    nonce: Vec<u8>,
    pub at: i64,
    pub msg: Msg,
}

/// Mathematical image of a `Message`.
pub struct MessageV {
    pub nonce: Seq<u8>,
    pub at: i64,
    pub msg: MsgV,
}

impl View for Message {
    type V = MessageV;

    closed spec fn view(&self) -> MessageV {
        MessageV { nonce: self.nonce@, at: self.at, msg: self.msg@ }
    }
}

/// A payload is well formed when its nonce has the fixed 16-byte width.
pub open spec fn payload_wf(p: MessageV) -> bool {
    p.nonce.len() == 16
}

/// The payload bytes: 16 raw nonce bytes, the timestamp as a little-endian
/// two's-complement word, then the encoded chat event.
pub open spec fn enc_payload(p: MessageV) -> Seq<u8> {
    p.nonce + u64_le(twos_of(p.at)) + enc_msg(p.msg)
}

impl Message {
    pub open spec fn wf(&self) -> bool {
        payload_wf(self@)
    }

    /// Wraps a chat event with a fresh random nonce and the clock's reading.
    pub fn new(msg: Msg) -> (r: Self)
        ensures
            r.wf(),
            r@.msg == msg@,
            crate::crypto::millis_in_range(r@.at),
    {
        Message { nonce: crate::crypto::fresh_nonce(), at: crate::crypto::now_millis(), msg }
    }

    /// Hands the chat event out of the payload.
    pub fn into_msg(self) -> (r: Msg)
        ensures
            r@ == self@.msg,
    {
        self.msg
    }

    /// Serializes the payload.
    pub fn to_bytes(&self) -> (r: Vec<u8>)
        requires
            self.wf(),
        ensures
            r@ == enc_payload(self@),
    {
        let mut out: Vec<u8> = Vec::new();
        push_raw(&mut out, &self.nonce);
        push_u64_le(&mut out, i64_to_twos(self.at));
        self.msg.encode_onto(&mut out);
        assert(out@ =~= enc_payload(self@));
        out
    }
}

/// What it means for a payload parse to be right: it accepts exactly the
/// encodings of well-formed payloads, and hands back what was encoded.
pub open spec fn payload_parse_post(b: Seq<u8>, r: Option<Message>) -> bool {
    &&& (r matches Some(m) ==> payload_wf(m@) && b == enc_payload(m@))
    &&& forall|pv: MessageV|
        payload_wf(pv) && b == #[trigger] enc_payload(pv) ==> {
            &&& r matches Some(m)
            &&& m@ == pv
        }
}

/// Parses a whole buffer as a signed-frame payload.
pub fn parse_payload(b: &Vec<u8>) -> (r: Option<Message>)
    ensures
        payload_parse_post(b@, r),
{
    proof {
        assert forall|pv: MessageV|
            payload_wf(pv) && b@ == #[trigger] enc_payload(pv) implies payload_split(b@, pv) by {
            assert(b@ =~= pv.nonce + (u64_le(twos_of(pv.at)) + enc_msg(pv.msg)));
            assert(b@.subrange(0, b@.len() as int) =~= b@);
            assert(b@.len() == 16 + 8 + enc_msg(pv.msg).len());
            lemma_split_concat(b@, 0, pv.nonce, u64_le(twos_of(pv.at)) + enc_msg(pv.msg));
            lemma_split_concat(b@, 16, u64_le(twos_of(pv.at)), enc_msg(pv.msg));
        }
    }
    if b.len() < 25 {
        proof {
            assert forall|pv: MessageV|
                payload_wf(pv) && b@ == #[trigger] enc_payload(pv) implies false by {
                assert(enc_msg(pv.msg).len() >= 1);
            }
        }
        return None;
    }
    let nonce = copy_range(b, 0, 16);
    let at_u = read_u64_le(b, 16);
    let at = twos_to_i64(at_u);
    proof {
        lemma_le_u64_round_trip(b@.subrange(16, 24));
        lemma_twos_round_trip_rev(at_u);
        assert forall|pv: MessageV|
            payload_wf(pv) && b@ == #[trigger] enc_payload(pv) implies at == pv.at by {
            assert(payload_split(b@, pv));
            lemma_u64_le_round_trip(twos_of(pv.at));
            lemma_twos_round_trip(pv.at);
        }
    }
    match parse_msg(b, 24) {
        None => {
            proof {
                assert forall|pv: MessageV|
                    payload_wf(pv) && b@ == #[trigger] enc_payload(pv) implies false by {
                    assert(payload_split(b@, pv));
                }
            }
            None
        },
        Some(m) => {
            proof {
                assert(b@.subrange(24, b@.len() as int) == enc_msg(m@));
                assert(b@.subrange(16, 24) == u64_le(at_u));
                assert(b@ =~= b@.subrange(0, 16) + b@.subrange(16, 24) + b@.subrange(
                    24,
                    b@.len() as int,
                ));
                lemma_twos_round_trip_rev(at_u);
                assert(b@ == enc_payload(MessageV { nonce: nonce@, at: at, msg: m@ }));
                assert forall|pv: MessageV|
                    payload_wf(pv) && b@ == #[trigger] enc_payload(pv) implies (MessageV {
                    nonce: nonce@,
                    at: at,
                    msg: m@,
                }) == pv by {
                    assert(payload_split(b@, pv));
                }
            }
            Some(Message { nonce, at, msg: m })
        },
    }
}

/// The shape a payload encoding forces on the buffer.
spec fn payload_split(b: Seq<u8>, pv: MessageV) -> bool {
    &&& b.subrange(0, 16) == pv.nonce
    &&& b.subrange(16, 24) == u64_le(twos_of(pv.at))
    &&& b.subrange(24, b.len() as int) == enc_msg(pv.msg)
    &&& 24 + enc_msg(pv.msg).len() == b.len()
}

/// A full frame: the sender's node id, the signature over the payload, then
/// the payload bytes.
pub open spec fn enc_frame(node_id: Seq<u8>, sig: Seq<u8>, payload: Seq<u8>) -> Seq<u8> {
    node_id + sig + payload
}

/// The node id segment of a frame.
pub open spec fn frame_id(b: Seq<u8>) -> Seq<u8> {
    b.subrange(0, 32)
}

/// The signature segment of a frame.
pub open spec fn frame_sig(b: Seq<u8>) -> Seq<u8> {
    b.subrange(32, 96)
}

/// The payload segment of a frame.
pub open spec fn frame_payload(b: Seq<u8>) -> Seq<u8> {
    b.subrange(96, b.len() as int)
}

/// Whether some well-formed payload encodes to these bytes.
pub open spec fn payload_decodable(b: Seq<u8>) -> bool {
    exists|pv: MessageV| payload_wf(pv) && b == #[trigger] enc_payload(pv)
}

/// The payload those bytes encode, where one exists.
pub open spec fn decoded_payload(b: Seq<u8>) -> MessageV {
    choose|pv: MessageV| payload_wf(pv) && b == #[trigger] enc_payload(pv)
}

/// Why a frame was dropped.
#[derive(Debug)]
pub enum FrameError {
    /// 96 bytes or fewer: no room for id, signature and payload.
    TooShort,
    /// The id segment is not a valid public key.
    BadNodeId,
    /// The signature does not verify over the payload under the id.
    BadSignature,
    /// The payload is not the encoding of any message.
    BadPayload,
    /// The timestamp lies outside the representable range.
    BadTimestamp,
}

/// The first check a frame fails, in the order the parser applies them, or
/// `None` for a frame that passes them all.
pub open spec fn frame_check(b: Seq<u8>) -> Option<FrameError> {
    if b.len() <= 96 {
        Some(FrameError::TooShort)
    } else if !crate::crypto::pubkey_ok(frame_id(b)) {
        Some(FrameError::BadNodeId)
    } else if !crate::crypto::sig_valid(frame_id(b), frame_payload(b), frame_sig(b)) {
        Some(FrameError::BadSignature)
    } else if !payload_decodable(frame_payload(b)) {
        Some(FrameError::BadPayload)
    } else if !crate::crypto::millis_in_range(decoded_payload(frame_payload(b)).at) {
        Some(FrameError::BadTimestamp)
    } else {
        None
    }
}

/// The local identity plus the peers on record: what both driver loops share.
pub struct MemDB {
    pub secret_key: Vec<u8>,
    pub node_id: Vec<u8>,
    pub name: String,
    pub members: crate::members::Members,
}

impl MemDB {
    /// The identity half of well-formedness: the node id is the public key
    /// of the secret key.
    pub open spec fn identity_wf(&self) -> bool {
        &&& self.secret_key@.len() == 32
        &&& self.node_id@ == crate::crypto::pub_key_of(self.secret_key@)
        &&& self.node_id@.len() == 32
        &&& crate::crypto::pubkey_ok(self.node_id@)
    }

    /// A database is well formed when its identity is consistent and the
    /// registry keeps its ids unique.
    pub open spec fn wf(&self) -> bool {
        &&& self.identity_wf()
        &&& self.members.wf()
    }

    /// The signing key's bytes, for contracts.
    pub open spec fn spec_secret_key(&self) -> Seq<u8> {
        self.secret_key@
    }

    /// The node id's bytes, for contracts.
    pub open spec fn spec_node_id(&self) -> Seq<u8> {
        self.node_id@
    }

    /// The display name, for contracts.
    pub open spec fn spec_name(&self) -> Seq<char> {
        self.name@
    }

    /// Builds the identity for a fresh process: the node id is derived from
    /// the secret key, and the registry starts empty.
    pub fn new(secret_key: Vec<u8>, name: String) -> (r: Self)
        requires
            secret_key@.len() == 32,
        ensures
            r.wf(),
            r.spec_secret_key() == secret_key@,
            r.spec_name() == name@,
            r.members@ == Map::<Seq<u8>, Seq<char>>::empty(),
    {
        let node_id = crate::crypto::public_key_of(&secret_key);
        MemDB { secret_key, node_id, name, members: crate::members::Members::new() }
    }

    /// The local node id and display name.
    pub fn node(&self) -> (r: (Vec<u8>, String))
        ensures
            r.0@ == self.spec_node_id(),
            r.1@ == self.spec_name(),
    {
        (self.node_id.clone(), self.name.clone())
    }

    /// Seals an already-built payload into a signed frame.
    pub fn sign_message(&self, message: &Message) -> (r: Vec<u8>)
        requires
            self.wf(),
            message.wf(),
        ensures
            r@ == enc_frame(
                self.spec_node_id(),
                crate::crypto::sig_of(self.spec_secret_key(), enc_payload(message@)),
                enc_payload(message@),
            ),
            crate::crypto::sig_valid(
                self.spec_node_id(),
                enc_payload(message@),
                crate::crypto::sig_of(self.spec_secret_key(), enc_payload(message@)),
            ),
            crate::crypto::sig_of(self.spec_secret_key(), enc_payload(message@)).len() == 64,
    {
        let payload = message.to_bytes();
        let sig = crate::crypto::sign_bytes(&self.secret_key, &payload);
        let mut out: Vec<u8> = Vec::new();
        push_raw(&mut out, &self.node_id);
        push_raw(&mut out, &sig);
        push_raw(&mut out, &payload);
        assert(out@ =~= enc_frame(self.spec_node_id(), sig@, payload@));
        out
    }

    /// Wraps a chat event in a fresh payload and seals it. The nonce and the
    /// clock reading are drawn here, so the frame is pinned down up to them.
    pub fn sign_msg(&self, msg: Msg) -> (r: Vec<u8>)
        requires
            self.wf(),
        ensures
            exists|pv: MessageV|
                {
                    &&& payload_wf(pv)
                    &&& pv.msg == msg@
                    &&& crate::crypto::millis_in_range(pv.at)
                    &&& r@ == enc_frame(
                        self.spec_node_id(),
                        crate::crypto::sig_of(self.spec_secret_key(), #[trigger] enc_payload(pv)),
                        enc_payload(pv),
                    )
                    &&& crate::crypto::sig_valid(
                        self.spec_node_id(),
                        enc_payload(pv),
                        crate::crypto::sig_of(self.spec_secret_key(), enc_payload(pv)),
                    )
                    &&& crate::crypto::sig_of(self.spec_secret_key(), enc_payload(pv)).len() == 64
                },
    {
        let message = Message::new(msg);
        let r = self.sign_message(&message);
        proof {
            let pv = message@;
            assert(payload_wf(pv) && pv.msg == msg@ && crate::crypto::millis_in_range(pv.at)
                && r@ == enc_frame(
                self.spec_node_id(),
                crate::crypto::sig_of(self.spec_secret_key(), enc_payload(pv)),
                enc_payload(pv),
            ));
        }
        r
    }
}

/// Opens a signed frame: rejects short frames, checks the id and signature,
/// decodes the payload, and rejects timestamps the calendar cannot
/// represent. The error says exactly which check failed first. The
/// timestamp comes back as its millisecond count; rendering it in the
/// machine's local time zone is display work and stays outside the library.
pub fn parse_raw_message(bts: &Vec<u8>) -> (r: Result<(Vec<u8>, i64, Message), FrameError>)
    ensures
        r matches Err(e) ==> frame_check(bts@) == Some(e),
        r is Ok <==> frame_check(bts@) is None,
        r matches Ok(t) ==> {
            &&& t.0@ == frame_id(bts@)
            &&& t.1 == t.2@.at
            &&& payload_wf(t.2@)
            &&& frame_payload(bts@) == enc_payload(t.2@)
            &&& crate::crypto::millis_in_range(t.2@.at)
        },
{
    if bts.len() <= 96 {
        return Err(FrameError::TooShort);
    }
    let from = copy_range(bts, 0, 32);
    let sig = copy_range(bts, 32, 96);
    let payload = copy_range(bts, 96, bts.len());
    match crate::crypto::check_signature(&from, &payload, &sig) {
        crate::crypto::SigCheck::BadKey => Err(FrameError::BadNodeId),
        crate::crypto::SigCheck::BadSig => Err(FrameError::BadSignature),
        crate::crypto::SigCheck::Valid => {
            match parse_payload(&payload) {
                None => {
                    proof {
                        if payload_decodable(payload@) {
                            let pv = choose|pv: MessageV|
                                payload_wf(pv) && payload@ == #[trigger] enc_payload(pv);
                            assert(false);
                        }
                    }
                    Err(FrameError::BadPayload)
                },
                Some(m) => {
                    proof {
                        assert(payload_decodable(payload@));
                        let pv = choose|pv: MessageV|
                            payload_wf(pv) && payload@ == #[trigger] enc_payload(pv);
                        assert(m@ == pv);
                    }
                    if crate::crypto::timestamp_representable(m.at) {
                        let at = m.at;
                        Ok((from, at, m))
                    } else {
                        Err(FrameError::BadTimestamp)
                    }
                },
            }
        },
    }
}

/// Opening a sealed frame gives back the signer and the payload: the
/// round-trip at the heart of the signing pipeline. The hypotheses are
/// exactly what the signing and key-derivation primitives guarantee about
/// every key pair.
pub proof fn lemma_seal_open_round_trip(sk: Seq<u8>, pv: MessageV)
    requires
        sk.len() == 32,
        payload_wf(pv),
        enc_payload(pv).len() <= u64::MAX,
        crate::crypto::millis_in_range(pv.at),
        crate::crypto::pub_key_of(sk).len() == 32,
        crate::crypto::pubkey_ok(crate::crypto::pub_key_of(sk)),
        crate::crypto::sig_of(sk, enc_payload(pv)).len() == 64,
        crate::crypto::sig_valid(
            crate::crypto::pub_key_of(sk),
            enc_payload(pv),
            crate::crypto::sig_of(sk, enc_payload(pv)),
        ),
    ensures
        ({
            let frame = enc_frame(
                crate::crypto::pub_key_of(sk),
                crate::crypto::sig_of(sk, enc_payload(pv)),
                enc_payload(pv),
            );
            &&& frame_check(frame) is None
            &&& frame_id(frame) == crate::crypto::pub_key_of(sk)
            &&& decoded_payload(frame_payload(frame)) == pv
        }),
{
    let pk = crate::crypto::pub_key_of(sk);
    let sig = crate::crypto::sig_of(sk, enc_payload(pv));
    let frame = enc_frame(pk, sig, enc_payload(pv));
    assert(frame.len() == 32 + 64 + enc_payload(pv).len());
    assert(enc_msg(pv.msg).len() >= 1);
    assert(frame_id(frame) =~= pk);
    assert(frame_sig(frame) =~= sig);
    assert(frame_payload(frame) =~= enc_payload(pv));
    assert(payload_decodable(enc_payload(pv)));
    let witness = choose|w: MessageV|
        payload_wf(w) && enc_payload(pv) == #[trigger] enc_payload(w);
    lemma_payload_enc_injective(witness, pv);
}

/// Splitting a concatenation that fills the whole buffer.
proof fn lemma_split_whole(buf: Seq<u8>, x: Seq<u8>, y: Seq<u8>)
    requires
        buf == x + y,
    ensures
        buf.subrange(0, x.len() as int) == x,
        buf.subrange(x.len() as int, buf.len() as int) == y,
{
    assert(buf.subrange(0, buf.len() as int) =~= buf);
    lemma_split_concat(buf, 0, x, y);
}

/// Two well-formed payloads with the same machine-sized encoding are the
/// same payload.
pub proof fn lemma_payload_enc_injective(a: MessageV, b: MessageV)
    requires
        payload_wf(a),
        payload_wf(b),
        enc_payload(a) == enc_payload(b),
        enc_payload(a).len() <= u64::MAX,
    ensures
        a == b,
{
    let buf = enc_payload(a);
    assert(payload_split(buf, a)) by {
        assert(buf =~= a.nonce + (u64_le(twos_of(a.at)) + enc_msg(a.msg)));
        lemma_split_whole(buf, a.nonce, u64_le(twos_of(a.at)) + enc_msg(a.msg));
        lemma_split_concat(buf, 16, u64_le(twos_of(a.at)), enc_msg(a.msg));
    }
    assert(payload_split(buf, b)) by {
        assert(buf =~= b.nonce + (u64_le(twos_of(b.at)) + enc_msg(b.msg)));
        lemma_split_whole(buf, b.nonce, u64_le(twos_of(b.at)) + enc_msg(b.msg));
        lemma_split_concat(buf, 16, u64_le(twos_of(b.at)), enc_msg(b.msg));
    }
    lemma_u64_le_round_trip(twos_of(a.at));
    lemma_u64_le_round_trip(twos_of(b.at));
    lemma_twos_round_trip(a.at);
    lemma_twos_round_trip(b.at);
    lemma_msg_enc_injective(a.msg, b.msg);
}

/// Two messages with the same machine-sized encoding are the same message.
pub proof fn lemma_msg_enc_injective(a: MsgV, b: MsgV)
    requires
        enc_msg(a) == enc_msg(b),
        enc_msg(a).len() <= u64::MAX,
    ensures
        a == b,
{
    let buf = enc_msg(a);
    assert(buf[0] == tag_of(a) && buf[0] == tag_of(b));
    match (a, b) {
        (MsgV::AboutMe { name: n1 }, MsgV::AboutMe { name: n2 }) => {
            assert(buf =~= seq![1u8] + enc_str(n1));
            lemma_split_whole(buf, seq![1u8], enc_str(n1));
            assert(buf =~= seq![1u8] + enc_str(n2));
            lemma_split_whole(buf, seq![1u8], enc_str(n2));
            lemma_enc_str_injective(n1, n2);
        },
        (MsgV::Bye, MsgV::Bye) => {},
        (MsgV::Message { text: t1 }, MsgV::Message { text: t2 }) => {
            assert(buf =~= seq![3u8] + enc_str(t1));
            lemma_split_whole(buf, seq![3u8], enc_str(t1));
            assert(buf =~= seq![3u8] + enc_str(t2));
            lemma_split_whole(buf, seq![3u8], enc_str(t2));
            lemma_enc_str_injective(t1, t2);
        },
        (
            MsgV::SendFile { filename: f1, content: c1 },
            MsgV::SendFile { filename: f2, content: c2 },
        ) => {
            assert(buf =~= seq![4u8] + (enc_str(f1) + enc_bytes(c1)));
            lemma_split_whole(buf, seq![4u8], enc_str(f1) + enc_bytes(c1));
            lemma_split_concat(buf, 1, enc_str(f1), enc_bytes(c1));
            assert(buf =~= seq![4u8] + (enc_str(f2) + enc_bytes(c2)));
            lemma_split_whole(buf, seq![4u8], enc_str(f2) + enc_bytes(c2));
            lemma_split_concat(buf, 1, enc_str(f2), enc_bytes(c2));
            lemma_run_len_agree(buf, f1, f2);
            lemma_enc_str_injective(f1, f2);
            lemma_enc_bytes_injective(c1, c2);
        },
        (
            MsgV::ShareFile { filename: f1, size: s1, ticket: t1 },
            MsgV::ShareFile { filename: f2, size: s2, ticket: t2 },
        ) => {
            assert(buf =~= seq![5u8] + (enc_str(f1) + (u64_le(s1) + enc_str(t1))));
            lemma_split_whole(buf, seq![5u8], enc_str(f1) + (u64_le(s1) + enc_str(t1)));
            lemma_split_concat(buf, 1, enc_str(f1), u64_le(s1) + enc_str(t1));
            lemma_split_concat(buf, 1 + enc_str(f1).len() as int, u64_le(s1), enc_str(t1));
            assert(buf =~= seq![5u8] + (enc_str(f2) + (u64_le(s2) + enc_str(t2))));
            lemma_split_whole(buf, seq![5u8], enc_str(f2) + (u64_le(s2) + enc_str(t2)));
            lemma_split_concat(buf, 1, enc_str(f2), u64_le(s2) + enc_str(t2));
            lemma_split_concat(buf, 1 + enc_str(f2).len() as int, u64_le(s2), enc_str(t2));
            lemma_run_len_agree(buf, f1, f2);
            lemma_enc_str_injective(f1, f2);
            lemma_u64_le_round_trip(s1);
            lemma_u64_le_round_trip(s2);
            lemma_enc_str_injective(t1, t2);
        },
        _ => {},
    }
}

/// Two string runs starting at position 1 of the same machine-sized buffer
/// carry the same length word, so they have the same length.
proof fn lemma_run_len_agree(buf: Seq<u8>, s1: Seq<char>, s2: Seq<char>)
    requires
        buf.len() <= u64::MAX,
        1 + enc_str(s1).len() <= buf.len(),
        buf.subrange(1, 1 + enc_str(s1).len() as int) == enc_str(s1),
        1 + enc_str(s2).len() <= buf.len(),
        buf.subrange(1, 1 + enc_str(s2).len() as int) == enc_str(s2),
    ensures
        enc_str(s1).len() == enc_str(s2).len(),
{
    let b1 = vstd::utf8::encode_utf8(s1);
    let b2 = vstd::utf8::encode_utf8(s2);
    assert(buf.subrange(1, 9) =~= enc_str(s1).subrange(0, 8));
    assert(enc_str(s1).subrange(0, 8) =~= u64_le(b1.len() as u64));
    assert(buf.subrange(1, 9) =~= enc_str(s2).subrange(0, 8));
    assert(enc_str(s2).subrange(0, 8) =~= u64_le(b2.len() as u64));
    lemma_u64_le_round_trip(b1.len() as u64);
    lemma_u64_le_round_trip(b2.len() as u64);
}

/// Equal string runs come from equal strings.
proof fn lemma_enc_str_injective(s1: Seq<char>, s2: Seq<char>)
    requires
        enc_str(s1) == enc_str(s2),
    ensures
        s1 == s2,
{
    broadcast use vstd::utf8::encode_utf8_decode_utf8;

    let b1 = vstd::utf8::encode_utf8(s1);
    let b2 = vstd::utf8::encode_utf8(s2);
    lemma_enc_bytes_injective(b1, b2);
    assert(vstd::utf8::decode_utf8(b1) == s1);
    assert(vstd::utf8::decode_utf8(b2) == s2);
}

/// Equal byte runs come from equal byte strings.
proof fn lemma_enc_bytes_injective(b1: Seq<u8>, b2: Seq<u8>)
    requires
        enc_bytes(b1) == enc_bytes(b2),
    ensures
        b1 == b2,
{
    assert(enc_bytes(b1).subrange(8, enc_bytes(b1).len() as int) =~= b1);
    assert(enc_bytes(b2).subrange(8, enc_bytes(b2).len() as int) =~= b2);
}

} // verus!
