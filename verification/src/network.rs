//! The gossip overlay as far as it decides: the topics, the identity of a
//! message, the explicit peers, and what to do on each event. Sockets and
//! the swarm itself are driven from outside.

use std::collections::hash_map::DefaultHasher;
use std::hash::Hasher;
use vstd::prelude::*;
use vstd::std_specs::hash::DefaultHasherAdditionalSpecFns;
use vstd::string::StringExecFns;

verus! {

/// Seconds between two gossip heartbeats.
pub const HEARTBEAT_SECS: u64 = 10;

/// Seconds after which an idle connection is closed.
pub const IDLE_CONNECTION_TIMEOUT_SECS: u64 = 60;

/// How many received messages wait for the node before the loop stalls.
pub const INBOUND_CAPACITY: usize = 32;

/// The name of the topic on which blocks are announced.
pub const BLOCKS_TOPIC: &'static str = "blocks";

/// The name of the topic on which transactions are announced.
pub const TRANSACTIONS_TOPIC: &'static str = "transactions";

/// The address on which the node listens for QUIC.
pub const LISTEN_QUIC: &'static str = "/ip4/0.0.0.0/udp/0/quic-v1";

/// The address on which the node listens for TCP.
pub const LISTEN_TCP: &'static str = "/ip4/0.0.0.0/tcp/0";

/// The two topics a node subscribes to on boot.
#[derive(Clone, Copy, Debug, PartialEq, Eq, Structural)]
pub enum Topic {
    /// Sealed blocks.
    Blocks,
    /// Signed transactions.
    Transactions,
}

impl Topic {
    /// The name under which the topic is known to peers.
    pub open spec fn spec_name(&self) -> Seq<char> {
        match *self {
            Topic::Blocks => BLOCKS_TOPIC@,
            Topic::Transactions => TRANSACTIONS_TOPIC@,
        }
    }

    /// The name under which the topic is known to peers.
    pub fn name(&self) -> (name: &'static str)
        ensures
            name@ == self.spec_name(),
    {
        match self {
            Topic::Blocks => BLOCKS_TOPIC,
            Topic::Transactions => TRANSACTIONS_TOPIC,
        }
    }

    /// The topics that a node subscribes to on boot.
    pub fn subscriptions() -> (topics: [Topic; 2])
        ensures
            topics@ == seq![Topic::Blocks, Topic::Transactions],
    {
        let topics = [Topic::Blocks, Topic::Transactions];
        assert(topics@ =~= seq![Topic::Blocks, Topic::Transactions]);
        topics
    }
}

/// The decimal digit for a value below ten.
pub open spec fn decimal_digit(v: nat) -> char {
    if v == 0 {
        '0'
    } else if v == 1 {
        '1'
    } else if v == 2 {
        '2'
    } else if v == 3 {
        '3'
    } else if v == 4 {
        '4'
    } else if v == 5 {
        '5'
    } else if v == 6 {
        '6'
    } else if v == 7 {
        '7'
    } else if v == 8 {
        '8'
    } else {
        '9'
    }
}

/// The decimal text of a number, without leading zeros.
pub open spec fn decimal(n: nat) -> Seq<char>
    decreases n,
{
    if n < 10 {
        seq![decimal_digit(n)]
    } else {
        decimal(n / 10).push(decimal_digit(n % 10))
    }
}

/// The identity of a message: the decimal text of the hash of its payload.
/// It depends on the payload alone.
pub open spec fn message_id_of(data: Seq<u8>) -> Seq<char> {
    decimal(DefaultHasher::spec_finish(seq![data]) as nat)
}

fn digit_text(v: u64) -> (text: &'static str)
    requires
        v < 10,
    ensures
        text@ == seq![decimal_digit(v as nat)],
{
    proof {
        reveal_strlit("0");
        reveal_strlit("1");
        reveal_strlit("2");
        reveal_strlit("3");
        reveal_strlit("4");
        reveal_strlit("5");
        reveal_strlit("6");
        reveal_strlit("7");
        reveal_strlit("8");
        reveal_strlit("9");
    }
    let text = if v == 0 {
        "0"
    } else if v == 1 {
        "1"
    } else if v == 2 {
        "2"
    } else if v == 3 {
        "3"
    } else if v == 4 {
        "4"
    } else if v == 5 {
        "5"
    } else if v == 6 {
        "6"
    } else if v == 7 {
        "7"
    } else if v == 8 {
        "8"
    } else {
        "9"
    };
    assert(text@ =~= seq![decimal_digit(v as nat)]);
    text
}

/// Writes a number as decimal text.
pub fn to_decimal(n: u64) -> (text: String)
    ensures
        text@ == decimal(n as nat),
    decreases n,
{
    if n < 10 {
        String::from_str(digit_text(n))
    } else {
        let mut text = to_decimal(n / 10);
        text.append(digit_text(n % 10));
        assert(text@ =~= decimal((n / 10) as nat).push(decimal_digit((n % 10) as nat)));
        text
    }
}

/// Computes the identity of a message from its payload: messages with the
/// same payload have the same identity.
pub fn message_id(data: &[u8]) -> (id: String)
    ensures
        id@ == message_id_of(data@),
{
    let mut state = DefaultHasher::new();
    state.write(data);
    assert(state@ =~= seq![data@]);
    to_decimal(state.finish())
}

/// Two publishes of the same payload get the same message identity.
pub proof fn lemma_same_payload_same_id(a: Seq<u8>, b: Seq<u8>)
    requires
        a == b,
    ensures
        message_id_of(a) == message_id_of(b),
{
}

/// A message as it was received from the overlay.
#[derive(Debug, PartialEq, Eq)]
pub struct GossipMessage {
    /// The peer that published the message, if it is known.
    pub source: Option<Vec<u8>>,
    /// The payload.
    pub data: Vec<u8>,
    /// The sequence number that the publisher gave, if any.
    pub sequence_number: Option<u64>,
    /// The name of the topic.
    pub topic: String,
}

impl GossipMessage {
    /// The two messages agree on every field.
    pub open spec fn same_fields(&self, other: GossipMessage) -> bool {
        &&& self.source is Some <==> other.source is Some
        &&& self.source matches Some(peer) ==> peer@ == other.source->0@
        &&& self.data@ == other.data@
        &&& self.sequence_number == other.sequence_number
        &&& self.topic@ == other.topic@
    }
}

impl Clone for GossipMessage {
    fn clone(&self) -> (copy: Self)
        ensures
            copy.same_fields(*self),
    {
        let source = match &self.source {
            Some(peer) => Some(copy_bytes(peer)),
            None => None,
        };
        GossipMessage {
            source,
            data: copy_bytes(&self.data),
            sequence_number: self.sequence_number,
            topic: self.topic.clone(),
        }
    }
}

/// What the event loop is told.
#[derive(Debug, PartialEq, Eq)]
pub enum NetworkEvent {
    /// The node asks to publish a payload on a topic.
    Outbound { data: Vec<u8>, topic: String },
    /// Local discovery saw these peers appear.
    Discovered(Vec<Vec<u8>>),
    /// Local discovery saw these peers expire.
    Expired(Vec<Vec<u8>>),
    /// A message arrived on a subscribed topic.
    Message(GossipMessage),
    /// The node began to listen on an address.
    NewListenAddr(String),
    /// Anything else the swarm reports.
    Other,
}

/// What the event loop is to do.
#[derive(Debug, PartialEq, Eq)]
pub enum NetworkAction {
    /// Publish the payload on the topic.
    Publish { topic: String, data: Vec<u8> },
    /// Make each of these peers an explicit gossip peer.
    AddExplicitPeers(Vec<Vec<u8>>),
    /// Make none of these peers an explicit gossip peer.
    RemoveExplicitPeers(Vec<Vec<u8>>),
    /// Hand the message to the node on the inbound channel.
    Deliver(GossipMessage),
    /// Tell the operator that the node listens on the address.
    Announce(String),
    /// Do nothing.
    Nothing,
}

/// Whether `peer` is among `peers`.
pub open spec fn holds(peers: Seq<Vec<u8>>, peer: Seq<u8>) -> bool {
    exists|i: int| 0 <= i < peers.len() && (#[trigger] peers[i])@ == peer
}

/// The overlay's state as far as the node decides it: the peers that are
/// explicit gossip peers.
pub struct Network {
    peers: Vec<Vec<u8>>,
}

impl View for Network {
    type V = Set<Seq<u8>>;

    closed spec fn view(&self) -> Set<Seq<u8>> {
        Set::new(|peer: Seq<u8>| holds(self.peers@, peer))
    }
}

fn same_bytes(a: &Vec<u8>, b: &Vec<u8>) -> (same: bool)
    ensures
        same == (a@ == b@),
{
    if a.len() != b.len() {
        return false;
    }
    let mut i: usize = 0;
    while i < a.len()
        invariant
            a@.len() == b@.len(),
            i <= a@.len(),
            forall|j: int| 0 <= j < i ==> a@[j] == b@[j],
        decreases a@.len() - i,
    {
        if a[i] != b[i] {
            return false;
        }
        i = i + 1;
    }
    assert(a@ =~= b@);
    true
}

fn contains(peers: &Vec<Vec<u8>>, peer: &Vec<u8>) -> (found: bool)
    ensures
        found == holds(peers@, peer@),
{
    let mut i: usize = 0;
    while i < peers.len()
        invariant
            i <= peers@.len(),
            forall|j: int| 0 <= j < i ==> (#[trigger] peers@[j])@ != peer@,
        decreases peers@.len() - i,
    {
        if same_bytes(&peers[i], peer) {
            return true;
        }
        i = i + 1;
    }
    false
}

fn copy_bytes(bytes: &Vec<u8>) -> (copy: Vec<u8>)
    ensures
        copy@ == bytes@,
{
    let mut copy: Vec<u8> = Vec::new();
    crate::codec::push_bytes(&mut copy, bytes.as_slice());
    assert(copy@ =~= bytes@);
    copy
}

impl Network {
    /// The overlay before any peer was seen.
    pub fn new() -> (network: Network)
        ensures
            network@ == Set::<Seq<u8>>::empty(),
    {
        let network = Network { peers: Vec::new() };
        assert(network@ =~= Set::<Seq<u8>>::empty());
        network
    }

    /// Whether `peer` is an explicit gossip peer.
    pub fn is_explicit_peer(&self, peer: &Vec<u8>) -> (known: bool)
        ensures
            known == self@.contains(peer@),
    {
        contains(&self.peers, peer)
    }

    /// The explicit gossip peers.
    pub fn peers(&self) -> (peers: &Vec<Vec<u8>>)
        ensures
            forall|peer: Seq<u8>| holds(peers@, peer) <==> self@.contains(peer),
    {
        &self.peers
    }

    fn add_peers(&mut self, list: &Vec<Vec<u8>>)
        ensures
            final(self)@ == old(self)@.union(Set::new(|peer: Seq<u8>| holds(list@, peer))),
    {
        let mut i: usize = 0;
        while i < list.len()
            invariant
                i <= list@.len(),
                forall|peer: Seq<u8>|
                    #![trigger holds(self.peers@, peer)]
                    holds(self.peers@, peer) <==> holds(old(self).peers@, peer) || holds(
                        list@.subrange(0, i as int),
                        peer,
                    ),
            decreases list@.len() - i,
        {
            let ghost before = self.peers@;
            if !contains(&self.peers, &list[i]) {
                self.peers.push(copy_bytes(&list[i]));
            }
            proof {
                let added = list@[i as int]@;
                let shorter = list@.subrange(0, i as int);
                let longer = list@.subrange(0, i + 1);
                assert forall|peer: Seq<u8>|
                    #![trigger holds(self.peers@, peer)]
                    holds(self.peers@, peer) <==> holds(old(self).peers@, peer) || holds(
                        longer,
                        peer,
                    ) by {
                    if holds(self.peers@, peer) {
                        let k = choose|k: int|
                            0 <= k < self.peers@.len() && (#[trigger] self.peers@[k])@ == peer;
                        if k < before.len() {
                            assert(before[k]@ == peer);
                            assert(holds(before, peer));
                            if holds(shorter, peer) {
                                let m = choose|m: int|
                                    0 <= m < shorter.len() && (#[trigger] shorter[m])@ == peer;
                                assert(longer[m]@ == peer);
                            }
                        } else {
                            assert(peer == added);
                            assert(longer[i as int]@ == peer);
                        }
                    }
                    if holds(longer, peer) {
                        let m = choose|m: int|
                            0 <= m < longer.len() && (#[trigger] longer[m])@ == peer;
                        if m < i {
                            assert(shorter[m]@ == peer);
                            assert(holds(before, peer));
                            let k = choose|k: int|
                                0 <= k < before.len() && (#[trigger] before[k])@ == peer;
                            assert(self.peers@[k]@ == peer);
                        } else {
                            assert(peer == added);
                            if holds(before, added) {
                                let k = choose|k: int|
                                    0 <= k < before.len() && (#[trigger] before[k])@ == added;
                                assert(self.peers@[k]@ == peer);
                            } else {
                                assert(self.peers@[before.len() as int]@ == peer);
                            }
                        }
                    }
                    if holds(old(self).peers@, peer) && !holds(self.peers@, peer) {
                        assert(holds(before, peer));
                        let k = choose|k: int|
                            0 <= k < before.len() && (#[trigger] before[k])@ == peer;
                        assert(self.peers@[k]@ == peer);
                    }
                }
            }
            i = i + 1;
        }
        proof {
            assert(list@.subrange(0, list@.len() as int) =~= list@);
            assert(self@ =~= old(self)@.union(Set::new(|peer: Seq<u8>| holds(list@, peer))));
        }
    }

    fn remove_peers(&mut self, list: &Vec<Vec<u8>>)
        ensures
            final(self)@ == old(self)@.difference(Set::new(|peer: Seq<u8>| holds(list@, peer))),
    {
        let mut kept: Vec<Vec<u8>> = Vec::new();
        let mut i: usize = 0;
        while i < self.peers.len()
            invariant
                i <= self.peers@.len(),
                self.peers@ == old(self).peers@,
                forall|peer: Seq<u8>|
                    #![trigger holds(kept@, peer)]
                    holds(kept@, peer) <==> holds(self.peers@.subrange(0, i as int), peer)
                        && !holds(list@, peer),
            decreases self.peers@.len() - i,
        {
            let ghost before = kept@;
            if !contains(list, &self.peers[i]) {
                kept.push(copy_bytes(&self.peers[i]));
            }
            proof {
                let current = self.peers@[i as int]@;
                let shorter = self.peers@.subrange(0, i as int);
                let longer = self.peers@.subrange(0, i + 1);
                assert forall|peer: Seq<u8>|
                    #![trigger holds(kept@, peer)]
                    holds(kept@, peer) <==> holds(longer, peer) && !holds(list@, peer) by {
                    if holds(kept@, peer) {
                        let k = choose|k: int|
                            0 <= k < kept@.len() && (#[trigger] kept@[k])@ == peer;
                        if k < before.len() {
                            assert(before[k]@ == peer);
                            assert(holds(before, peer));
                            let m = choose|m: int|
                                0 <= m < shorter.len() && (#[trigger] shorter[m])@ == peer;
                            assert(longer[m]@ == peer);
                        } else {
                            assert(peer == current);
                            assert(longer[i as int]@ == peer);
                        }
                    }
                    if holds(longer, peer) && !holds(list@, peer) {
                        let m = choose|m: int|
                            0 <= m < longer.len() && (#[trigger] longer[m])@ == peer;
                        if m < i {
                            assert(shorter[m]@ == peer);
                            assert(holds(before, peer));
                            let k = choose|k: int|
                                0 <= k < before.len() && (#[trigger] before[k])@ == peer;
                            assert(kept@[k]@ == peer);
                        } else {
                            assert(peer == current);
                            assert(kept@[before.len() as int]@ == peer);
                        }
                    }
                }
            }
            i = i + 1;
        }
        proof {
            assert(self.peers@.subrange(0, self.peers@.len() as int) =~= self.peers@);
        }
        self.peers = kept;
        proof {
            assert(self@ =~= old(self)@.difference(Set::new(|peer: Seq<u8>| holds(list@, peer))));
        }
    }

    /// Decides what to do on an event. A publish request is published as
    /// it is; every peer that appeared becomes an explicit gossip peer and
    /// every peer that expired ceases to be one; a received message is
    /// delivered to the node; a new listening address is announced;
    /// anything else is ignored.
    pub fn handle(&mut self, event: NetworkEvent) -> (action: NetworkAction)
        ensures
            match event {
                NetworkEvent::Outbound { data, topic } => action == (NetworkAction::Publish {
                    topic,
                    data,
                }) && final(self)@ == old(self)@,
                NetworkEvent::Discovered(list) => action == NetworkAction::AddExplicitPeers(list)
                    && final(self)@ == old(self)@.union(
                    Set::new(|peer: Seq<u8>| holds(list@, peer)),
                ),
                NetworkEvent::Expired(list) => action == NetworkAction::RemoveExplicitPeers(list)
                    && final(self)@ == old(self)@.difference(
                    Set::new(|peer: Seq<u8>| holds(list@, peer)),
                ),
                NetworkEvent::Message(message) => action == NetworkAction::Deliver(message)
                    && final(self)@ == old(self)@,
                NetworkEvent::NewListenAddr(address) => action == NetworkAction::Announce(address)
                    && final(self)@ == old(self)@,
                NetworkEvent::Other => action == NetworkAction::Nothing && final(self)@ == old(
                    self,
                )@,
            },
    {
        match event {
            NetworkEvent::Outbound { data, topic } => NetworkAction::Publish { topic, data },
            NetworkEvent::Discovered(list) => {
                self.add_peers(&list);
                NetworkAction::AddExplicitPeers(list)
            },
            NetworkEvent::Expired(list) => {
                self.remove_peers(&list);
                NetworkAction::RemoveExplicitPeers(list)
            },
            NetworkEvent::Message(message) => NetworkAction::Deliver(message),
            NetworkEvent::NewListenAddr(address) => NetworkAction::Announce(address),
            NetworkEvent::Other => NetworkAction::Nothing,
        }
    }
}

} // verus!
