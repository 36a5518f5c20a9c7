//! The topic ticket: the out-of-band invite naming a chat topic and a seed
//! set of peer addresses. Its textual form is lowercase unpadded base32 of
//! the serialized ticket; parsing tolerates any case.

use vstd::prelude::*;

use crate::wire::{
    enc_bytes, enc_str, u64_le, lemma_split_concat, lemma_le_u64_round_trip,
    lemma_u64_le_round_trip, push_u64_le, push_len_bytes, push_str_run, push_raw, read_u64_le,
    read_len_bytes, read_str_run, copy_range,
};

verus! {

/// One peer-address record carried by a ticket: the peer's node id, an
/// optional relay URL, and its direct socket addresses in textual form.
pub struct NodeAddrRec {
    pub node_id: Vec<u8>,
    pub relay_url: Option<String>,
    pub direct_addresses: Vec<String>,
}

/// Mathematical image of a `NodeAddrRec`.
pub struct NodeAddrV {
    pub node_id: Seq<u8>,
    pub relay_url: Option<Seq<char>>,
    pub direct_addresses: Seq<Seq<char>>,
}

impl DeepView for NodeAddrRec {
    type V = NodeAddrV;

    open spec fn deep_view(&self) -> NodeAddrV {
        self.view()
    }
}

impl View for NodeAddrRec {
    type V = NodeAddrV;

    open spec fn view(&self) -> NodeAddrV {
        NodeAddrV {
            node_id: self.node_id@,
            relay_url: match self.relay_url {
                Some(u) => Some(u@),
                None => None,
            },
            direct_addresses: self.direct_addresses.deep_view(),
        }
    }
}

/// The bootstrap invite: a 32-byte topic and a handful of peer records.
pub struct TopicTicket {
    pub topic: Vec<u8>,
    pub nodes: Vec<NodeAddrRec>,
}

/// Mathematical image of a `TopicTicket`.
pub struct TopicTicketV {
    pub topic: Seq<u8>,
    pub nodes: Seq<NodeAddrV>,
}

impl View for TopicTicket {
    type V = TopicTicketV;

    open spec fn view(&self) -> TopicTicketV {
        TopicTicketV { topic: self.topic@, nodes: self.nodes.deep_view() }
    }
}

/// A ticket is well formed when its topic has the fixed 32-byte width.
pub open spec fn ticket_wf(t: TopicTicketV) -> bool {
    t.topic.len() == 32
}

/// A list of addresses on the wire: each one a string run.
pub open spec fn enc_addrs(a: Seq<Seq<char>>) -> Seq<u8>
    decreases a.len(),
{
    if a.len() == 0 {
        Seq::empty()
    } else {
        enc_str(a[0]) + enc_addrs(a.drop_first())
    }
}

/// The relay segment on the wire: an absent/present marker, then the URL.
pub open spec fn relay_enc(r: Option<Seq<char>>) -> Seq<u8> {
    match r {
        None => seq![0u8],
        Some(u) => seq![1u8] + enc_str(u),
    }
}

/// One peer record on the wire: the id as a byte run, the relay as an
/// absent/present marker, then the counted address list.
pub open spec fn enc_node(n: NodeAddrV) -> Seq<u8> {
    enc_bytes(n.node_id) + node_relay_enc(n) + u64_le(n.direct_addresses.len() as u64) + enc_addrs(
        n.direct_addresses,
    )
}

/// The relay segment of a record: an absent/present marker, then the URL.
pub open spec fn node_relay_enc(n: NodeAddrV) -> Seq<u8> {
    relay_enc(n.relay_url)
}

/// A list of peer records on the wire.
pub open spec fn enc_nodes(s: Seq<NodeAddrV>) -> Seq<u8>
    decreases s.len(),
{
    if s.len() == 0 {
        Seq::empty()
    } else {
        enc_node(s[0]) + enc_nodes(s.drop_first())
    }
}

/// The serialized ticket: 32 raw topic bytes, then the counted node list.
pub open spec fn enc_ticket(t: TopicTicketV) -> Seq<u8> {
    t.topic + u64_le(t.nodes.len() as u64) + enc_nodes(t.nodes)
}

impl TopicTicket {
    /// Serializes the ticket.
    pub fn to_bytes(&self) -> (r: Vec<u8>)
        requires
            ticket_wf(self@),
        ensures
            r@ == enc_ticket(self@),
    {
        let mut out: Vec<u8> = Vec::new();
        push_raw(&mut out, &self.topic);
        push_u64_le(&mut out, self.nodes.len() as u64);
        let mut i: usize = 0;
        while i < self.nodes.len()
            invariant
                i <= self.nodes@.len(),
                out@ == self@.topic + u64_le(self@.nodes.len() as u64) + enc_nodes(
                    self@.nodes.take(i as int),
                ),
            decreases self.nodes@.len() - i,
        {
            push_node(&mut out, &self.nodes[i]);
            proof {
                lemma_enc_nodes_take_step(self@.nodes, i as int);
            }
            i = i + 1;
        }
        proof {
            assert(self@.nodes.take(self.nodes@.len() as int) =~= self@.nodes);
        }
        out
    }
}

/// Extending a taken prefix by one record appends that record's encoding.
proof fn lemma_enc_nodes_take_step(s: Seq<NodeAddrV>, i: int)
    requires
        0 <= i < s.len(),
    ensures
        enc_nodes(s.take(i + 1)) == enc_nodes(s.take(i)) + enc_node(s[i]),
    decreases i,
{
    if i == 0 {
        assert(s.take(1).drop_first() =~= Seq::<NodeAddrV>::empty());
        assert(s.take(0) =~= Seq::<NodeAddrV>::empty());
        assert(s.take(1)[0] == s[0]);
        assert(enc_nodes(Seq::<NodeAddrV>::empty()) == Seq::<u8>::empty());
        assert(enc_nodes(s.take(1)) == enc_node(s[0]) + Seq::<u8>::empty());
        assert(enc_node(s[0]) + Seq::<u8>::empty() =~= enc_node(s[0]));
        assert(enc_nodes(s.take(0)) + enc_node(s[0]) =~= enc_node(s[0]));
    } else {
        lemma_enc_nodes_take_step(s.drop_first(), i - 1);
        assert(s.take(i + 1).drop_first() =~= s.drop_first().take(i));
        assert(s.take(i).drop_first() =~= s.drop_first().take(i - 1));
        assert(s.drop_first().take(i)[i - 1] == s[i]);
        assert(enc_nodes(s.take(i + 1)) == enc_node(s[0]) + enc_nodes(s.drop_first().take(i)));
        assert(enc_nodes(s.take(i)) == enc_node(s[0]) + enc_nodes(s.drop_first().take(i - 1)));
        assert(enc_node(s[0]) + (enc_nodes(s.drop_first().take(i - 1)) + enc_node(s[i])) =~= (
        enc_node(s[0]) + enc_nodes(s.drop_first().take(i - 1))) + enc_node(s[i]));
    }
}

/// The same, for taken prefixes of an address list.
proof fn lemma_enc_addrs_take_step(s: Seq<Seq<char>>, i: int)
    requires
        0 <= i < s.len(),
    ensures
        enc_addrs(s.take(i + 1)) == enc_addrs(s.take(i)) + enc_str(s[i]),
    decreases i,
{
    if i == 0 {
        assert(s.take(1).drop_first() =~= Seq::<Seq<char>>::empty());
        assert(s.take(0) =~= Seq::<Seq<char>>::empty());
        assert(s.take(1)[0] == s[0]);
        assert(enc_addrs(Seq::<Seq<char>>::empty()) == Seq::<u8>::empty());
        assert(enc_addrs(s.take(1)) == enc_str(s[0]) + Seq::<u8>::empty());
        assert(enc_str(s[0]) + Seq::<u8>::empty() =~= enc_str(s[0]));
        assert(enc_addrs(s.take(0)) + enc_str(s[0]) =~= enc_str(s[0]));
    } else {
        lemma_enc_addrs_take_step(s.drop_first(), i - 1);
        assert(s.take(i + 1).drop_first() =~= s.drop_first().take(i));
        assert(s.take(i).drop_first() =~= s.drop_first().take(i - 1));
        assert(s.drop_first().take(i)[i - 1] == s[i]);
        assert(enc_addrs(s.take(i + 1)) == enc_str(s[0]) + enc_addrs(s.drop_first().take(i)));
        assert(enc_addrs(s.take(i)) == enc_str(s[0]) + enc_addrs(s.drop_first().take(i - 1)));
        assert(enc_str(s[0]) + (enc_addrs(s.drop_first().take(i - 1)) + enc_str(s[i])) =~= (
        enc_str(s[0]) + enc_addrs(s.drop_first().take(i - 1))) + enc_str(s[i]));
    }
}

/// Appends one peer record's encoding.
fn push_node(out: &mut Vec<u8>, n: &NodeAddrRec)
    ensures
        final(out)@ == old(out)@ + enc_node(n@),
{
    push_len_bytes(out, &n.node_id);
    match &n.relay_url {
        None => out.push(0u8),
        Some(u) => {
            out.push(1u8);
            push_str_run(out, u.as_str());
        },
    }
    push_u64_le(out, n.direct_addresses.len() as u64);
    let mut i: usize = 0;
    while i < n.direct_addresses.len()
        invariant
            i <= n.direct_addresses@.len(),
            out@ == old(out)@ + enc_bytes(n@.node_id) + node_relay_enc(n@) + u64_le(
                n@.direct_addresses.len() as u64,
            ) + enc_addrs(n@.direct_addresses.take(i as int)),
        decreases n.direct_addresses@.len() - i,
    {
        push_str_run(out, n.direct_addresses[i].as_str());
        proof {
            lemma_enc_addrs_take_step(n@.direct_addresses, i as int);
            assert(n@.direct_addresses[i as int] == n.direct_addresses@[i as int]@);
        }
        i = i + 1;
    }
    proof {
        assert(n@.direct_addresses.take(n.direct_addresses@.len() as int) =~= n@.direct_addresses);
        assert(out@ =~= old(out)@ + enc_node(n@));
    }
}

/// Parses `count` address runs starting at `off`.
fn parse_addrs(b: &Vec<u8>, off: usize, count: u64) -> (r: Option<(Vec<String>, usize)>)
    requires
        off <= b@.len(),
    ensures
        r matches Some(p) ==> {
            &&& off <= p.1 <= b@.len()
            &&& p.0.deep_view().len() == count
            &&& b@.subrange(off as int, p.1 as int) == enc_addrs(p.0.deep_view())
        },
        forall|av: Seq<Seq<char>>|
            av.len() == count && off + #[trigger] enc_addrs(av).len() <= b@.len() && b@.subrange(
                off as int,
                off + enc_addrs(av).len(),
            ) == enc_addrs(av) ==> {
                &&& r matches Some(p)
                &&& p.0.deep_view() == av
                &&& p.1 == off + enc_addrs(av).len()
            },
    decreases count,
{
    if count == 0 {
        let out: Vec<String> = Vec::new();
        proof {
            assert(out.deep_view() =~= Seq::<Seq<char>>::empty());
            assert forall|av: Seq<Seq<char>>|
                av.len() == 0 implies enc_addrs(av) == Seq::<u8>::empty() && out.deep_view()
                == av by {
                assert(av =~= Seq::<Seq<char>>::empty());
            }
            assert(b@.subrange(off as int, off as int) =~= Seq::<u8>::empty());
        }
        return Some((out, off));
    }
    proof {
        assert forall|av: Seq<Seq<char>>|
            av.len() == count && off + #[trigger] enc_addrs(av).len() <= b@.len() && b@.subrange(
                off as int,
                off + enc_addrs(av).len(),
            ) == enc_addrs(av) implies addr_head_split(b@, off as int, av) by {
            assert(enc_addrs(av) == enc_str(av[0]) + enc_addrs(av.drop_first()));
            lemma_split_concat(b@, off as int, enc_str(av[0]), enc_addrs(av.drop_first()));
        }
    }
    match read_str_run(b, off) {
        None => None,
        Some((head, mid)) => {
            match parse_addrs(b, mid, count - 1) {
                None => None,
                Some((mut rest, end)) => {
                    let ghost rest_view = rest.deep_view();
                    rest.insert(0, head);
                    proof {
                        assert(rest.deep_view() =~= seq![head@] + rest_view);
                        assert(enc_addrs(rest.deep_view()) == enc_str(head@) + enc_addrs(
                            rest.deep_view().drop_first(),
                        ));
                        assert(rest.deep_view().drop_first() =~= rest_view);
                        assert(b@.subrange(off as int, end as int) =~= b@.subrange(
                            off as int,
                            mid as int,
                        ) + b@.subrange(mid as int, end as int));
                        assert forall|av: Seq<Seq<char>>|
                            av.len() == count && off + #[trigger] enc_addrs(av).len() <= b@.len()
                                && b@.subrange(off as int, off + enc_addrs(av).len()) == enc_addrs(
                                av,
                            ) implies rest.deep_view() == av && end == off + enc_addrs(
                            av,
                        ).len() by {
                            assert(addr_head_split(b@, off as int, av));
                            assert(av.drop_first().len() == count - 1);
                            assert(rest_view == av.drop_first());
                            assert(rest.deep_view() =~= av);
                        }
                    }
                    Some((rest, end))
                },
            }
        },
    }
}

/// The shape an address-list encoding forces on the buffer: its head run
/// sits first.
spec fn addr_head_split(b: Seq<u8>, off: int, av: Seq<Seq<char>>) -> bool {
    av.len() > 0 ==> {
        &&& b.subrange(off, off + enc_str(av[0]).len()) == enc_str(av[0])
        &&& b.subrange(
            off + enc_str(av[0]).len(),
            off + enc_str(av[0]).len() + enc_addrs(av.drop_first()).len(),
        ) == enc_addrs(av.drop_first())
        &&& off + enc_str(av[0]).len() + enc_addrs(av.drop_first()).len() <= b.len()
    }
}

/// The shape a node-list encoding forces on the buffer.
spec fn node_head_split(b: Seq<u8>, off: int, nv: Seq<NodeAddrV>) -> bool {
    nv.len() > 0 ==> {
        &&& b.subrange(off, off + enc_node(nv[0]).len()) == enc_node(nv[0])
        &&& b.subrange(
            off + enc_node(nv[0]).len(),
            off + enc_node(nv[0]).len() + enc_nodes(nv.drop_first()).len(),
        ) == enc_nodes(nv.drop_first())
        &&& off + enc_node(nv[0]).len() + enc_nodes(nv.drop_first()).len() <= b.len()
    }
}

/// The shape one node-record encoding forces on the buffer.
spec fn node_field_split(b: Seq<u8>, off: int, n: NodeAddrV) -> bool {
    let id_end = off + enc_bytes(n.node_id).len();
    let relay = node_relay_enc(n);
    let relay_end = id_end + relay.len();
    {
        &&& b.subrange(off, id_end) == enc_bytes(n.node_id)
        &&& b.subrange(id_end, relay_end) == relay
        &&& b.subrange(relay_end, relay_end + 8) == u64_le(n.direct_addresses.len() as u64)
        &&& b.subrange(relay_end + 8, relay_end + 8 + enc_addrs(n.direct_addresses).len())
            == enc_addrs(n.direct_addresses)
        &&& relay_end + 8 + enc_addrs(n.direct_addresses).len() == off + enc_node(n).len()
    }
}

/// Where one node-record encoding sits at `off`, its fields sit where the
/// parser will look for them.
proof fn lemma_node_fields(b: Seq<u8>, off: int, n: NodeAddrV)
    requires
        0 <= off,
        off + enc_node(n).len() <= b.len(),
        b.subrange(off, off + enc_node(n).len()) == enc_node(n),
    ensures
        node_field_split(b, off, n),
{
    let relay = node_relay_enc(n);
    let addrs = enc_addrs(n.direct_addresses);
    let count = u64_le(n.direct_addresses.len() as u64);
    assert(enc_node(n) =~= enc_bytes(n.node_id) + (relay + (count + addrs)));
    lemma_split_concat(b, off, enc_bytes(n.node_id), relay + (count + addrs));
    lemma_split_concat(b, off + enc_bytes(n.node_id).len(), relay, count + addrs);
    lemma_split_concat(b, off + enc_bytes(n.node_id).len() + relay.len(), count, addrs);
}

/// A node list's encoding is at least as long as the list.
proof fn lemma_enc_nodes_len_lower(s: Seq<NodeAddrV>)
    ensures
        enc_nodes(s).len() >= s.len(),
    decreases s.len(),
{
    if s.len() > 0 {
        lemma_enc_nodes_len_lower(s.drop_first());
    }
}

/// An address list's encoding is at least as long as the list.
proof fn lemma_enc_addrs_len_lower(s: Seq<Seq<char>>)
    ensures
        enc_addrs(s).len() >= s.len(),
    decreases s.len(),
{
    if s.len() > 0 {
        lemma_enc_addrs_len_lower(s.drop_first());
    }
}

/// Where the relay marker of a record encoded at `off` sits, and what it
/// says.
spec fn marker_matches(b: Seq<u8>, off: int, id_end: int, n: NodeAddrV) -> bool {
    &&& id_end == off + enc_bytes(n.node_id).len()
    &&& id_end < b.len()
    &&& match n.relay_url {
        None => b[id_end] == 0u8,
        Some(u) => {
            &&& b[id_end] == 1u8
            &&& id_end + 1 + enc_str(u).len() <= b.len()
            &&& b.subrange(id_end + 1, id_end + 1 + enc_str(u).len() as int) == enc_str(u)
        },
    }
}

/// Parses the id and relay segments of one peer record.
#[verifier::rlimit(50)]
fn parse_node_head(b: &Vec<u8>, off: usize) -> (r: Option<(Vec<u8>, Option<String>, usize)>)
    requires
        off <= b@.len(),
    ensures
        r matches Some(p) ==> {
            &&& off <= p.2 <= b@.len()
            &&& b@.subrange(off as int, p.2 as int) == enc_bytes(p.0@) + relay_enc(
                opt_view(p.1),
            )
        },
        forall|n: NodeAddrV|
            off + #[trigger] enc_node(n).len() <= b@.len() && b@.subrange(
                off as int,
                off + enc_node(n).len(),
            ) == enc_node(n) ==> {
                &&& r matches Some(p)
                &&& p.0@ == n.node_id
                &&& opt_view(p.1) == n.relay_url
                &&& p.2 == off + enc_bytes(n.node_id).len() + relay_enc(n.relay_url).len()
            },
{
    proof {
        assert forall|n: NodeAddrV|
            off + #[trigger] enc_node(n).len() <= b@.len() && b@.subrange(
                off as int,
                off + enc_node(n).len(),
            ) == enc_node(n) implies node_field_split(b@, off as int, n) && marker_matches(
            b@,
            off as int,
            off + enc_bytes(n.node_id).len(),
            n,
        ) by {
            lemma_node_fields(b@, off as int, n);
            let id_end = off + enc_bytes(n.node_id).len();
            match n.relay_url {
                None => {
                    assert(b@.subrange(id_end, id_end + 1) == seq![0u8]);
                    assert(b@.subrange(id_end, id_end + 1)[0] == b@[id_end]);
                    assert(seq![0u8][0] == 0u8);
                },
                Some(u) => {
                    assert(b@.subrange(id_end, id_end + 1 + enc_str(u).len() as int) == seq![1u8]
                        + enc_str(u));
                    assert(b@.subrange(id_end, id_end + 1 + enc_str(u).len() as int)[0] == b@[id_end]);
                    assert((seq![1u8] + enc_str(u))[0] == 1u8);
                    lemma_split_concat(b@, id_end, seq![1u8], enc_str(u));
                },
            }
        }
    }
    let (node_id, id_end) = match read_len_bytes(b, off) {
        None => {
            return None;
        },
        Some(p) => p,
    };
    if id_end >= b.len() {
        return None;
    }
    let marker = b[id_end];
    if marker == 0u8 {
        proof {
            assert(b@.subrange(off as int, id_end + 1) =~= b@.subrange(off as int, id_end as int)
                + seq![b@[id_end as int]]);
        }
        Some((node_id, None, id_end + 1))
    } else if marker == 1u8 {
        match read_str_run(b, id_end + 1) {
            None => None,
            Some((u, e)) => {
                proof {
                    assert(b@.subrange(off as int, e as int) =~= b@.subrange(
                        off as int,
                        id_end as int,
                    ) + (seq![b@[id_end as int]] + b@.subrange(id_end + 1, e as int)));
                }
                Some((node_id, Some(u), e))
            },
        }
    } else {
        None
    }
}

/// The view of an optional relay URL.
pub open spec fn opt_view(r: Option<String>) -> Option<Seq<char>> {
    match r {
        None => None,
        Some(u) => Some(u@),
    }
}

/// Parses one peer record starting at `off`.
#[verifier::rlimit(50)]
fn parse_node(b: &Vec<u8>, off: usize) -> (r: Option<(NodeAddrRec, usize)>)
    requires
        off <= b@.len(),
    ensures
        r matches Some(p) ==> {
            &&& off <= p.1 <= b@.len()
            &&& b@.subrange(off as int, p.1 as int) == enc_node(p.0@)
        },
        forall|n: NodeAddrV|
            off + #[trigger] enc_node(n).len() <= b@.len() && b@.subrange(
                off as int,
                off + enc_node(n).len(),
            ) == enc_node(n) ==> {
                &&& r matches Some(p)
                &&& p.0@ == n
                &&& p.1 == off + enc_node(n).len()
            },
{
    proof {
        assert forall|n: NodeAddrV|
            off + #[trigger] enc_node(n).len() <= b@.len() && b@.subrange(
                off as int,
                off + enc_node(n).len(),
            ) == enc_node(n) implies node_field_split(b@, off as int, n) by {
            lemma_node_fields(b@, off as int, n);
        }
    }
    let (node_id, relay_url, relay_end) = match parse_node_head(b, off) {
        None => {
            return None;
        },
        Some(p) => p,
    };
    if b.len() - relay_end < 8 {
        proof {
            assert forall|n: NodeAddrV|
                off + #[trigger] enc_node(n).len() <= b@.len() && b@.subrange(
                    off as int,
                    off + enc_node(n).len(),
                ) == enc_node(n) implies false by {
                assert(node_field_split(b@, off as int, n));
            }
        }
        return None;
    }
    let count = read_u64_le(b, relay_end);
    proof {
        lemma_le_u64_round_trip(b@.subrange(relay_end as int, relay_end + 8));
        assert forall|n: NodeAddrV|
            off + #[trigger] enc_node(n).len() <= b@.len() && b@.subrange(
                off as int,
                off + enc_node(n).len(),
            ) == enc_node(n) implies count == n.direct_addresses.len() by {
            assert(node_field_split(b@, off as int, n));
            lemma_enc_addrs_len_lower(n.direct_addresses);
            lemma_u64_le_round_trip(n.direct_addresses.len() as u64);
        }
    }
    match parse_addrs(b, relay_end + 8, count) {
        None => None,
        Some((direct_addresses, end)) => {
            let rec = NodeAddrRec { node_id, relay_url, direct_addresses };
            proof {
                assert(b@.subrange(off as int, end as int) =~= b@.subrange(
                    off as int,
                    relay_end as int,
                ) + b@.subrange(relay_end as int, relay_end + 8) + b@.subrange(
                    relay_end + 8,
                    end as int,
                ));
                assert(rec@.relay_url == opt_view(rec.relay_url));
                assert(b@.subrange(off as int, end as int) == enc_node(rec@));
                assert forall|n: NodeAddrV|
                    off + #[trigger] enc_node(n).len() <= b@.len() && b@.subrange(
                        off as int,
                        off + enc_node(n).len(),
                    ) == enc_node(n) implies rec@ == n && end == off + enc_node(n).len() by {
                    assert(node_field_split(b@, off as int, n));
                }
            }
            Some((rec, end))
        },
    }
}

/// Parses `count` peer records starting at `off`.
fn parse_nodes(b: &Vec<u8>, off: usize, count: u64) -> (r: Option<(Vec<NodeAddrRec>, usize)>)
    requires
        off <= b@.len(),
    ensures
        r matches Some(p) ==> {
            &&& off <= p.1 <= b@.len()
            &&& p.0.deep_view().len() == count
            &&& b@.subrange(off as int, p.1 as int) == enc_nodes(p.0.deep_view())
        },
        forall|nv: Seq<NodeAddrV>|
            nv.len() == count && off + #[trigger] enc_nodes(nv).len() <= b@.len() && b@.subrange(
                off as int,
                off + enc_nodes(nv).len(),
            ) == enc_nodes(nv) ==> {
                &&& r matches Some(p)
                &&& p.0.deep_view() == nv
                &&& p.1 == off + enc_nodes(nv).len()
            },
    decreases count,
{
    if count == 0 {
        let out: Vec<NodeAddrRec> = Vec::new();
        proof {
            assert(out.deep_view() =~= Seq::<NodeAddrV>::empty());
            assert forall|nv: Seq<NodeAddrV>|
                nv.len() == 0 implies enc_nodes(nv) == Seq::<u8>::empty() && out.deep_view()
                == nv by {
                assert(nv =~= Seq::<NodeAddrV>::empty());
            }
            assert(b@.subrange(off as int, off as int) =~= Seq::<u8>::empty());
        }
        return Some((out, off));
    }
    proof {
        assert forall|nv: Seq<NodeAddrV>|
            nv.len() == count && off + #[trigger] enc_nodes(nv).len() <= b@.len() && b@.subrange(
                off as int,
                off + enc_nodes(nv).len(),
            ) == enc_nodes(nv) implies node_head_split(b@, off as int, nv) by {
            assert(enc_nodes(nv) == enc_node(nv[0]) + enc_nodes(nv.drop_first()));
            lemma_split_concat(b@, off as int, enc_node(nv[0]), enc_nodes(nv.drop_first()));
        }
    }
    match parse_node(b, off) {
        None => None,
        Some((head, mid)) => {
            match parse_nodes(b, mid, count - 1) {
                None => None,
                Some((mut rest, end)) => {
                    let ghost rest_view = rest.deep_view();
                    let ghost head_view = head@;
                    rest.insert(0, head);
                    proof {
                        assert(rest.deep_view() =~= seq![head_view] + rest_view);
                        assert(enc_nodes(rest.deep_view()) == enc_node(head_view) + enc_nodes(
                            rest.deep_view().drop_first(),
                        ));
                        assert(rest.deep_view().drop_first() =~= rest_view);
                        assert(b@.subrange(off as int, end as int) =~= b@.subrange(
                            off as int,
                            mid as int,
                        ) + b@.subrange(mid as int, end as int));
                        assert forall|nv: Seq<NodeAddrV>|
                            nv.len() == count && off + #[trigger] enc_nodes(nv).len() <= b@.len()
                                && b@.subrange(off as int, off + enc_nodes(nv).len()) == enc_nodes(
                                nv,
                            ) implies rest.deep_view() == nv && end == off + enc_nodes(
                            nv,
                        ).len() by {
                            assert(node_head_split(b@, off as int, nv));
                            assert(nv.drop_first().len() == count - 1);
                            assert(rest_view == nv.drop_first());
                            assert(rest.deep_view() =~= nv);
                        }
                    }
                    Some((rest, end))
                },
            }
        },
    }
}

/// Parses a whole buffer as a serialized ticket: accepted exactly when the
/// buffer is the encoding of a well-formed ticket, which it then returns.
pub fn ticket_from_bytes(b: &Vec<u8>) -> (r: Option<TopicTicket>)
    ensures
        r matches Some(t) ==> ticket_wf(t@) && b@ == enc_ticket(t@),
        forall|tv: TopicTicketV|
            ticket_wf(tv) && b@ == #[trigger] enc_ticket(tv) ==> {
                &&& r matches Some(t)
                &&& t@ == tv
            },
{
    proof {
        assert forall|tv: TopicTicketV|
            ticket_wf(tv) && b@ == #[trigger] enc_ticket(tv) implies ticket_head_split(b@, tv) by {
            assert(b@ =~= tv.topic + (u64_le(tv.nodes.len() as u64) + enc_nodes(tv.nodes)));
            assert(b@.subrange(0, b@.len() as int) =~= b@);
            lemma_split_concat(b@, 0, tv.topic, u64_le(tv.nodes.len() as u64) + enc_nodes(
                tv.nodes,
            ));
            lemma_split_concat(b@, 32, u64_le(tv.nodes.len() as u64), enc_nodes(tv.nodes));
        }
    }
    if b.len() < 40 {
        return None;
    }
    let topic = copy_range(b, 0, 32);
    let count = read_u64_le(b, 32);
    proof {
        lemma_le_u64_round_trip(b@.subrange(32, 40));
        assert forall|tv: TopicTicketV|
            ticket_wf(tv) && b@ == #[trigger] enc_ticket(tv) implies count == tv.nodes.len() by {
            assert(ticket_head_split(b@, tv));
            lemma_enc_nodes_len_lower(tv.nodes);
            lemma_u64_le_round_trip(tv.nodes.len() as u64);
        }
    }
    match parse_nodes(b, 40, count) {
        None => None,
        Some((nodes, end)) => {
            if end != b.len() {
                proof {
                    assert forall|tv: TopicTicketV|
                        ticket_wf(tv) && b@ == #[trigger] enc_ticket(tv) implies false by {
                        assert(ticket_head_split(b@, tv));
                    }
                }
                return None;
            }
            let t = TopicTicket { topic, nodes };
            proof {
                assert(b@ =~= b@.subrange(0, 32) + b@.subrange(32, 40) + b@.subrange(
                    40,
                    b@.len() as int,
                ));
                assert(b@ == enc_ticket(t@));
                assert forall|tv: TopicTicketV|
                    ticket_wf(tv) && b@ == #[trigger] enc_ticket(tv) implies t@ == tv by {
                    assert(ticket_head_split(b@, tv));
                }
            }
            Some(t)
        },
    }
}


/// One byte of the unpadded base32 alphabet: `A`-`Z` or `2`-`7`.
pub open spec fn is_b32_byte(c: u8) -> bool {
    (65 <= c <= 90) || (50 <= c <= 55)
}

/// The uppercase base32 text (as ASCII bytes) of a byte string.
pub uninterp spec fn b32_of(b: Seq<u8>) -> Seq<u8>;

/// ASCII lowercasing of one byte.
pub open spec fn lower_byte(c: u8) -> u8 {
    if 65 <= c <= 90 {
        (c + 32) as u8
    } else {
        c
    }
}

/// ASCII uppercasing of one byte.
pub open spec fn upper_byte(c: u8) -> u8 {
    if 97 <= c <= 122 {
        (c - 32) as u8
    } else {
        c
    }
}

/// ASCII lowercasing of a byte string.
pub open spec fn lower_seq(s: Seq<u8>) -> Seq<u8> {
    Seq::new(s.len(), |i: int| lower_byte(s[i]))
}

/// ASCII uppercasing of a byte string.
pub open spec fn upper_seq(s: Seq<u8>) -> Seq<u8> {
    Seq::new(s.len(), |i: int| upper_byte(s[i]))
}

/// Lowercasing base32 text and uppercasing it again is the identity: the
/// mathematical half of the ticket's case-insensitive round trip.
pub proof fn lemma_b32_case_round_trip(s: Seq<u8>)
    requires
        forall|i: int| 0 <= i < s.len() ==> is_b32_byte(#[trigger] s[i]),
    ensures
        upper_seq(lower_seq(s)) == s,
{
    assert(upper_seq(lower_seq(s)) =~= s);
}

/// Relies on data_encoding::BASE32_NOPAD.encode: deterministic in the input
/// bytes, over the alphabet `A`-`Z` `2`-`7` without padding.
#[verifier::external_body]
fn b32_encode(input: &Vec<u8>) -> (r: Vec<u8>)
    ensures
        r@ == b32_of(input@),
        forall|i: int| 0 <= i < r@.len() ==> is_b32_byte(#[trigger] r@[i]),
{
    data_encoding::BASE32_NOPAD.encode(input).into_bytes()
}

/// Relies on data_encoding::BASE32_NOPAD.decode: succeeds exactly on the
/// encodings (the trailing-bit check makes them canonical), and inverts
/// `encode` on them.
#[verifier::external_body]
fn b32_decode(input: &Vec<u8>) -> (r: Option<Vec<u8>>)
    ensures
        r matches Some(v) ==> input@ == b32_of(v@),
        r matches Some(v) ==> (forall|b: Seq<u8>| input@ == #[trigger] b32_of(b) ==> v@ == b),
        r is None ==> (forall|b: Seq<u8>| input@ != #[trigger] b32_of(b)),
{
    data_encoding::BASE32_NOPAD.decode(input).ok()
}

/// ASCII-lowercases a byte string.
fn to_lower_bytes(v: &Vec<u8>) -> (r: Vec<u8>)
    ensures
        r@ == lower_seq(v@),
{
    let mut out: Vec<u8> = Vec::new();
    let mut i: usize = 0;
    while i < v.len()
        invariant
            i <= v@.len(),
            out@.len() == i,
            forall|j: int| 0 <= j < i ==> out@[j] == lower_byte(#[trigger] v@[j]),
        decreases v@.len() - i,
    {
        let c = v[i];
        if 65 <= c && c <= 90 {
            out.push(c + 32);
        } else {
            out.push(c);
        }
        i = i + 1;
    }
    proof {
        assert(out@ =~= lower_seq(v@));
    }
    out
}

/// ASCII-uppercases a byte string.
fn to_upper_bytes(v: &Vec<u8>) -> (r: Vec<u8>)
    ensures
        r@ == upper_seq(v@),
{
    let mut out: Vec<u8> = Vec::new();
    let mut i: usize = 0;
    while i < v.len()
        invariant
            i <= v@.len(),
            out@.len() == i,
            forall|j: int| 0 <= j < i ==> out@[j] == upper_byte(#[trigger] v@[j]),
        decreases v@.len() - i,
    {
        let c = v[i];
        if 97 <= c && c <= 122 {
            out.push(c - 32);
        } else {
            out.push(c);
        }
        i = i + 1;
    }
    proof {
        assert(out@ =~= upper_seq(v@));
    }
    out
}

impl TopicTicket {
    /// The ticket's textual form, as ASCII bytes: lowercase unpadded base32
    /// of the serialized ticket.
    pub fn base32_bytes(&self) -> (r: Vec<u8>)
        requires
            ticket_wf(self@),
        ensures
            r@ == lower_seq(b32_of(enc_ticket(self@))),
            forall|i: int|
                0 <= i < b32_of(enc_ticket(self@)).len() ==> is_b32_byte(
                    #[trigger] b32_of(enc_ticket(self@))[i],
                ),
    {
        let bytes = self.to_bytes();
        let enc = b32_encode(&bytes);
        to_lower_bytes(&enc)
    }

    /// Parses the textual form back, tolerating any letter case: accepted
    /// exactly when the uppercased text is the base32 image of a well-formed
    /// ticket, which it then returns.
    pub fn from_base32_bytes(text: &Vec<u8>) -> (r: Option<TopicTicket>)
        ensures
            r matches Some(t) ==> ticket_wf(t@) && upper_seq(text@) == b32_of(enc_ticket(t@)),
            forall|tv: TopicTicketV|
                ticket_wf(tv) && upper_seq(text@) == #[trigger] b32_of(enc_ticket(tv)) ==> {
                    &&& r matches Some(t)
                    &&& t@ == tv
                },
    {
        let up = to_upper_bytes(text);
        match b32_decode(&up) {
            None => None,
            Some(bytes) => {
                proof {
                    let b0 = choose|b0: Seq<u8>| up@ == #[trigger] b32_of(b0);
                    assert(bytes@ == b0);
                }
                match ticket_from_bytes(&bytes) {
                    None => {
                        proof {
                            assert forall|tv: TopicTicketV|
                                ticket_wf(tv) && upper_seq(text@) == #[trigger] b32_of(
                                    enc_ticket(tv),
                                ) implies false by {
                                assert(bytes@ == enc_ticket(tv));
                            }
                        }
                        None
                    },
                    Some(t) => {
                        proof {
                            assert(upper_seq(text@) == b32_of(enc_ticket(t@)));
                        }
                        Some(t)
                    },
                }
            },
        }
    }
}

/// The shape a ticket encoding forces on the buffer.
spec fn ticket_head_split(b: Seq<u8>, tv: TopicTicketV) -> bool {
    &&& b.subrange(0, 32) == tv.topic
    &&& b.subrange(32, 40) == u64_le(tv.nodes.len() as u64)
    &&& b.subrange(40, 40 + enc_nodes(tv.nodes).len() as int) == enc_nodes(tv.nodes)
    &&& 40 + enc_nodes(tv.nodes).len() == b.len()
}

} // verus!
