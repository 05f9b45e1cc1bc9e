//! A small Raft-style replication node: roles, elections and forwarding of
//! client requests.  The node is a state machine: a message or a clock tick
//! comes in, the node's state changes and messages for other nodes go out.
use vstd::prelude::*;
use std::collections::HashSet;
use crate::error::Error;

verus! {

broadcast use vstd::std_specs::hash::group_hash_axioms;

/// The channel end a node was given for its own notices.
#[verifier::external_type_specification]
#[verifier::external_body]
#[verifier::reject_recursive_types(T)]
pub struct ExSender<T>(crossbeam::channel::Sender<T>);

/// A log entry carried by an append.
#[derive(Debug, Clone)]
pub struct Entry {
    pub index: u64,
    pub term: u64,
    pub command: Option<Vec<u8>>,
}

/// A message between nodes, or from a client.
#[derive(Debug)]
pub enum Message {
    Campaign { last_index: u64, last_term: u64 },
    CampaignResponse { vote: bool, term: u64 },
    ClientRequest { id: u64, request: Vec<u8> },
    ClientResponse { id: u64, response: Result<Vec<u8>, Error> },
    Append { base_index: u64, base_term: u64, entries: Vec<Entry> },
}

/// A message with its sender, its receiver and the sender's term.
#[derive(Debug)]
pub struct Envelope {
    pub from: u64,
    pub to: u64,
    pub term: u64,
    pub message: Message,
}

/// The role of a node.
pub enum Role {
    Leader { _heartbeat_ticks: u64 },
    Follower { leader: Option<u64>, voted_for: Option<u64> },
    Candidate { votes: HashSet<u64> },
}

pub struct EntryView {
    pub index: u64,
    pub term: u64,
    pub command: Option<Seq<u8>>,
}

pub enum MessageView {
    Campaign { last_index: u64, last_term: u64 },
    CampaignResponse { vote: bool, term: u64 },
    ClientRequest { id: u64, request: Seq<u8> },
    ClientResponse { id: u64, response: Result<Seq<u8>, Error> },
    Append { base_index: u64, base_term: u64, entries: Seq<EntryView> },
}

pub struct EnvelopeView {
    pub from: u64,
    pub to: u64,
    pub term: u64,
    pub message: MessageView,
}

pub enum RoleView {
    Leader { heartbeat_ticks: u64 },
    Follower { leader: Option<u64>, voted_for: Option<u64> },
    Candidate { votes: Set<u64> },
}

/// The state of a node as plain values.
pub struct NodeView {
    pub id: u64,
    pub term: u64,
    pub log_index: u64,
    pub log_term: u64,
    pub role: RoleView,
    pub peers: Seq<u64>,
}

impl View for Entry {
    type V = EntryView;

    open spec fn view(&self) -> EntryView {
        EntryView {
            index: self.index,
            term: self.term,
            command: match self.command {
                Some(c) => Some(c@),
                None => None,
            },
        }
    }
}

impl View for Message {
    type V = MessageView;

    open spec fn view(&self) -> MessageView {
        match self {
            Message::Campaign { last_index, last_term } => MessageView::Campaign {
                last_index: *last_index,
                last_term: *last_term,
            },
            Message::CampaignResponse { vote, term } => MessageView::CampaignResponse {
                vote: *vote,
                term: *term,
            },
            Message::ClientRequest { id, request } => MessageView::ClientRequest {
                id: *id,
                request: request@,
            },
            Message::ClientResponse { id, response } => MessageView::ClientResponse {
                id: *id,
                response: match response {
                    Ok(v) => Ok(v@),
                    Err(e) => Err(*e),
                },
            },
            Message::Append { base_index, base_term, entries } => MessageView::Append {
                base_index: *base_index,
                base_term: *base_term,
                entries: entries@.map_values(|e: Entry| e@),
            },
        }
    }
}

impl View for Envelope {
    type V = EnvelopeView;

    open spec fn view(&self) -> EnvelopeView {
        EnvelopeView { from: self.from, to: self.to, term: self.term, message: self.message@ }
    }
}

impl View for Role {
    type V = RoleView;

    open spec fn view(&self) -> RoleView {
        match self {
            Role::Leader { _heartbeat_ticks } => RoleView::Leader { heartbeat_ticks: *_heartbeat_ticks },
            Role::Follower { leader, voted_for } => RoleView::Follower {
                leader: *leader,
                voted_for: *voted_for,
            },
            Role::Candidate { votes } => RoleView::Candidate { votes: votes@ },
        }
    }
}

impl MessageView {
    /// The term a message speaks for: the candidate's term of a campaign,
    /// the voter's term of a vote, the base term of an append; client
    /// traffic carries none.
    pub open spec fn term(self) -> u64 {
        match self {
            MessageView::Campaign { last_term, .. } => last_term,
            MessageView::CampaignResponse { term, .. } => term,
            MessageView::Append { base_term, .. } => base_term,
            _ => 0,
        }
    }
}

impl Message {
    /// The term a message speaks for.
    pub fn term(&self) -> (t: u64)
        ensures
            t == self@.term(),
    {
        match self {
            Message::Campaign { last_term, .. } => *last_term,
            Message::CampaignResponse { term, .. } => *term,
            Message::Append { base_term, .. } => *base_term,
            _ => 0,
        }
    }
}

/// The view of a list of envelopes.
pub open spec fn envelopes_view(es: Seq<Envelope>) -> Seq<EnvelopeView> {
    es.map_values(|e: Envelope| e@)
}

/// The role a node steps down to.
pub open spec fn plain_follower() -> RoleView {
    RoleView::Follower { leader: None, voted_for: None }
}

/// What the leader sends each peer to replicate a client request.
pub open spec fn replicate_to(s: NodeView, request: Seq<u8>, peer: u64) -> EnvelopeView {
    EnvelopeView {
        from: s.id,
        to: peer,
        term: s.term,
        message: MessageView::Append {
            base_index: s.log_index,
            base_term: s.log_term,
            entries: seq![
                EntryView { index: (s.log_index + 1) as u64, term: s.term, command: Some(request) },
            ],
        },
    }
}

/// The heartbeat a leader sends a peer.
pub open spec fn heartbeat_to(s: NodeView, peer: u64) -> EnvelopeView {
    EnvelopeView {
        from: s.id,
        to: peer,
        term: s.term,
        message: MessageView::Append {
            base_index: s.log_index,
            base_term: s.log_term,
            entries: Seq::empty(),
        },
    }
}

/// The request for a vote a candidate sends a peer.
pub open spec fn campaign_to(s: NodeView, peer: u64) -> EnvelopeView {
    EnvelopeView {
        from: s.id,
        to: peer,
        term: s.term,
        message: MessageView::Campaign { last_index: s.id, last_term: s.term },
    }
}

/// A node that sees a message of a higher term adopts that term and
/// becomes a follower with no leader and no vote.
pub open spec fn observe_term(s: NodeView, msg: MessageView) -> NodeView {
    if msg.term() > s.term {
        NodeView { term: msg.term(), role: plain_follower(), ..s }
    } else {
        s
    }
}

/// The state after a message from `from` and the messages the node sends.
pub open spec fn step_spec(s0: NodeView, msg: MessageView, from: u64) -> (NodeView, Seq<EnvelopeView>) {
    let s = observe_term(s0, msg);
    match s.role {
        RoleView::Follower { leader, voted_for } => match msg {
            MessageView::Campaign { last_index, .. } => if voted_for is None {
                (
                    NodeView {
                        role: RoleView::Follower { leader, voted_for: Some(last_index) },
                        ..s
                    },
                    seq![
                        EnvelopeView {
                            from: s.id,
                            to: last_index,
                            term: s.term,
                            message: MessageView::CampaignResponse { vote: true, term: s.term },
                        },
                    ],
                )
            } else {
                (s, Seq::empty())
            },
            MessageView::ClientRequest { id, request } => match leader {
                Some(l) => (
                    s,
                    seq![
                        EnvelopeView {
                            from: s.id,
                            to: l,
                            term: s.term,
                            message: MessageView::ClientRequest { id, request },
                        },
                    ],
                ),
                None => (s, Seq::empty()),
            },
            MessageView::Append { base_term, .. } => (
                NodeView {
                    role: RoleView::Follower { leader: Some(from), voted_for },
                    term: if base_term >= s.term {
                        base_term
                    } else {
                        s.term
                    },
                    ..s
                },
                Seq::empty(),
            ),
            _ => (s, Seq::empty()),
        },
        RoleView::Leader { .. } => match msg {
            MessageView::ClientRequest { id, request } => (
                s,
                seq![
                    EnvelopeView {
                        from: s.id,
                        to: from,
                        term: s.term,
                        message: MessageView::ClientResponse { id, response: Ok(request) },
                    },
                ] + s.peers.map_values(|p: u64| replicate_to(s, request, p)),
            ),
            MessageView::Campaign { .. } => (NodeView { role: plain_follower(), ..s }, Seq::empty()),
            _ => (s, Seq::empty()),
        },
        RoleView::Candidate { votes } => match msg {
            MessageView::CampaignResponse { vote, .. } => if vote {
                let v2 = votes.insert(from).insert(s.id);
                (
                    NodeView {
                        role: if v2.len() >= 2 {
                            RoleView::Leader { heartbeat_ticks: 0 }
                        } else {
                            RoleView::Candidate { votes: v2 }
                        },
                        ..s
                    },
                    Seq::empty(),
                )
            } else {
                (s, Seq::empty())
            },
            _ => (s, Seq::empty()),
        },
    }
}

/// The state after a clock tick, when the random draw came out as `roll`,
/// and the messages the node sends.
pub open spec fn tick_spec(s: NodeView, roll: u8) -> (NodeView, Seq<EnvelopeView>) {
    match s.role {
        RoleView::Leader { .. } => (s, s.peers.map_values(|p: u64| heartbeat_to(s, p))),
        RoleView::Follower { leader, voted_for } => if leader is None {
            if roll % 20 == 0 {
                let s2 = NodeView {
                    term: (s.term + 1) as u64,
                    role: RoleView::Candidate { votes: Set::empty() },
                    ..s
                };
                (s2, s.peers.map_values(|p: u64| campaign_to(s2, p)))
            } else {
                (s, Seq::empty())
            }
        } else {
            (NodeView { role: RoleView::Follower { leader: None, voted_for }, ..s }, Seq::empty())
        },
        RoleView::Candidate { .. } => (s, Seq::empty()),
    }
}

/// A Raft node.
pub struct Node {
    pub id: u64,
    pub term: u64,
    pub log_index: u64,
    pub log_term: u64,
    pub role: Role,
    pub peers: Vec<u64>,
    _node_tx: crossbeam::channel::Sender<Envelope>,
}

impl View for Node {
    type V = NodeView;

    closed spec fn view(&self) -> NodeView {
        NodeView {
            id: self.id,
            term: self.term,
            log_index: self.log_index,
            log_term: self.log_term,
            role: self.role@,
            peers: self.peers@,
        }
    }
}

/// A random byte.
#[verifier::external_body]
fn random_u8() -> (r: u8) {
    rand::random::<u8>()
}

/// A copy of a byte string.
fn copy_bytes(v: &Vec<u8>) -> (r: Vec<u8>)
    ensures
        r@ == v@,
{
    let r = v.clone();
    assert(r@ =~= v@);
    r
}

impl Node {
    /// The channel end the node was given.
    pub closed spec fn notice_channel(&self) -> crossbeam::channel::Sender<Envelope> {
        self._node_tx
    }

    /// The node's id.
    pub fn node_id(&self) -> (r: u64)
        ensures
            r == self@.id,
    {
        self.id
    }

    /// A node of the cluster with these peers; alone it leads at once.
    pub fn new(id: u64, peers: Vec<u64>, node_tx: crossbeam::channel::Sender<Envelope>) -> (r: Node)
        ensures
            r@ == (NodeView {
                id,
                term: 0,
                log_index: 0,
                log_term: 0,
                role: if peers@.len() == 0 {
                    RoleView::Leader { heartbeat_ticks: 0 }
                } else {
                    plain_follower()
                },
                peers: peers@,
            }),
    {
        let role = if peers.len() == 0 {
            Role::Leader { _heartbeat_ticks: 0 }
        } else {
            Role::Follower { leader: None, voted_for: None }
        };
        Node { id, term: 0, log_index: 0, log_term: 0, role, peers, _node_tx: node_tx }
    }

    /// The messages the leader sends to replicate a client request.
    fn replicate(&self, request: &Vec<u8>) -> (r: Vec<Envelope>)
        requires
            self.log_index < u64::MAX,
        ensures
            envelopes_view(r@) == self.peers@.map_values(|p: u64| replicate_to(self@, request@, p)),
    {
        let mut out: Vec<Envelope> = Vec::new();
        let mut i: usize = 0;
        while i < self.peers.len()
            invariant
                self.log_index < u64::MAX,
                i <= self.peers@.len(),
                out@.len() == i,
                forall|t: int| 0 <= t < i ==> (#[trigger] out@[t])@ == replicate_to(self@, request@, self.peers@[t]),
            decreases self.peers.len() - i,
        {
            let mut entries: Vec<Entry> = Vec::new();
            entries.push(Entry { index: self.log_index + 1, term: self.term, command: Some(copy_bytes(request)) });
            let e = Envelope {
                from: self.id,
                to: self.peers[i],
                term: self.term,
                message: Message::Append {
                    base_index: self.log_index,
                    base_term: self.log_term,
                    entries,
                },
            };
            proof {
                assert(e.message@ == replicate_to(self@, request@, self.peers@[i as int]).message) by {
                    assert(entries@.map_values(|e: Entry| e@) =~= seq![
                        EntryView { index: (self.log_index + 1) as u64, term: self.term, command: Some(request@) },
                    ]);
                }
            }
            out.push(e);
            i = i + 1;
        }
        assert(envelopes_view(out@) =~= self.peers@.map_values(|p: u64| replicate_to(self@, request@, p)));
        out
    }

    /// Handles a message from `from_id`: adopts a higher term, votes,
    /// forwards client requests to the known leader, answers and replicates
    /// them as leader, and counts votes as candidate.
    pub fn step(&mut self, msg: Message, from_id: u64) -> (r: Result<Vec<Envelope>, Error>)
        requires
            old(self)@.role is Leader && msg is ClientRequest ==> old(self)@.log_index < u64::MAX,
            old(self)@.role is Candidate ==> old(self)@.role->votes.finite(),
        ensures
            r is Ok,
            (final(self)@, envelopes_view(r->Ok_0@)) == step_spec(old(self)@, msg@, from_id),
            final(self).notice_channel() == old(self).notice_channel(),
    {
        let ghost s0 = self@;
        let ghost m = msg@;
        let msg_term = msg.term();
        if msg_term > self.term {
            self.term = msg_term;
            self.role = Role::Follower { leader: None, voted_for: None };
        }
        assert(self@ == observe_term(s0, m));
        let mut responses: Vec<Envelope> = Vec::new();
        let mut role = Role::Leader { _heartbeat_ticks: 0 };
        std::mem::swap(&mut role, &mut self.role);
        match role {
            Role::Follower { leader, voted_for } => {
                match msg {
                    Message::Campaign { last_index, .. } => {
                        if voted_for.is_none() {
                            self.role = Role::Follower { leader, voted_for: Some(last_index) };
                            responses.push(Envelope {
                                from: self.id,
                                to: last_index,
                                term: self.term,
                                message: Message::CampaignResponse { vote: true, term: self.term },
                            });
                        } else {
                            self.role = Role::Follower { leader, voted_for };
                        }
                    },
                    Message::ClientRequest { id, request } => {
                        self.role = Role::Follower { leader, voted_for };
                        if let Some(leader_id) = leader {
                            responses.push(Envelope {
                                from: self.id,
                                to: leader_id,
                                term: self.term,
                                message: Message::ClientRequest { id, request },
                            });
                        }
                    },
                    Message::Append { base_term, .. } => {
                        self.role = Role::Follower { leader: Some(from_id), voted_for };
                        if base_term >= self.term {
                            self.term = base_term;
                        }
                    },
                    _ => {
                        self.role = Role::Follower { leader, voted_for };
                    },
                }
            },
            Role::Leader { _heartbeat_ticks } => {
                match msg {
                    Message::ClientRequest { id, request } => {
                        self.role = Role::Leader { _heartbeat_ticks };
                        responses.push(Envelope {
                            from: self.id,
                            to: from_id,
                            term: self.term,
                            message: Message::ClientResponse { id, response: Ok(copy_bytes(&request)) },
                        });
                        let mut appends = self.replicate(&request);
                        responses.append(&mut appends);
                    },
                    Message::Campaign { .. } => {
                        self.role = Role::Follower { leader: None, voted_for: None };
                    },
                    _ => {
                        self.role = Role::Leader { _heartbeat_ticks };
                    },
                }
            },
            Role::Candidate { mut votes } => {
                match msg {
                    Message::CampaignResponse { vote, .. } => {
                        if vote {
                            votes.insert(from_id);
                            votes.insert(self.id);
                            if votes.len() >= 2 {
                                self.role = Role::Leader { _heartbeat_ticks: 0 };
                            } else {
                                self.role = Role::Candidate { votes };
                            }
                        } else {
                            self.role = Role::Candidate { votes };
                        }
                    },
                    _ => {
                        self.role = Role::Candidate { votes };
                    },
                }
            },
        }
        proof {
            let (ns, out) = step_spec(s0, m, from_id);
            assert(envelopes_view(responses@) =~= out);
        }
        Ok(responses)
    }

    /// A clock tick whose random draw came out as `roll`: the leader sends
    /// heartbeats; a follower that has heard from no leader since the last
    /// tick starts an election one time in twenty; a follower that has
    /// forgets its leader until the next append.
    pub fn tick_with_roll(&mut self, roll: u8) -> (r: Result<Vec<Envelope>, Error>)
        requires
            old(self)@.role matches RoleView::Follower { leader: None, .. } && roll % 20 == 0 ==> old(self)@.term < u64::MAX,
        ensures
            r is Ok,
            (final(self)@, envelopes_view(r->Ok_0@)) == tick_spec(old(self)@, roll),
            final(self).notice_channel() == old(self).notice_channel(),
    {
        let ghost s0 = self@;
        let mut responses: Vec<Envelope> = Vec::new();
        let mut role = Role::Leader { _heartbeat_ticks: 0 };
        std::mem::swap(&mut role, &mut self.role);
        match role {
            Role::Leader { _heartbeat_ticks } => {
                self.role = Role::Leader { _heartbeat_ticks };
                let mut i: usize = 0;
                while i < self.peers.len()
                    invariant
                        self@ == s0,
                        i <= self.peers@.len(),
                        responses@.len() == i,
                        forall|t: int| 0 <= t < i ==> (#[trigger] responses@[t])@ == heartbeat_to(s0, self.peers@[t]),
                    decreases self.peers.len() - i,
                {
                    let entries: Vec<Entry> = Vec::new();
                    assert(entries@.map_values(|e: Entry| e@) =~= Seq::<EntryView>::empty());
                    let e = Envelope {
                        from: self.id,
                        to: self.peers[i],
                        term: self.term,
                        message: Message::Append {
                            base_index: self.log_index,
                            base_term: self.log_term,
                            entries,
                        },
                    };
                    responses.push(e);
                    i = i + 1;
                }
            },
            Role::Follower { leader, voted_for } => {
                if leader.is_none() {
                    if roll % 20 == 0 {
                        self.term = self.term + 1;
                        self.role = Role::Candidate { votes: HashSet::new() };
                        let ghost s2 = self@;
                        let mut i: usize = 0;
                        while i < self.peers.len()
                            invariant
                                self@ == s2,
                                i <= self.peers@.len(),
                                responses@.len() == i,
                                forall|t: int| 0 <= t < i ==> (#[trigger] responses@[t])@ == campaign_to(s2, self.peers@[t]),
                            decreases self.peers.len() - i,
                        {
                            responses.push(Envelope {
                                from: self.id,
                                to: self.peers[i],
                                term: self.term,
                                message: Message::Campaign { last_index: self.id, last_term: self.term },
                            });
                            i = i + 1;
                        }
                    } else {
                        self.role = Role::Follower { leader, voted_for };
                    }
                } else {
                    self.role = Role::Follower { leader: None, voted_for };
                }
            },
            Role::Candidate { votes } => {
                self.role = Role::Candidate { votes };
            },
        }
        proof {
            let (ns, out) = tick_spec(s0, roll);
            assert(envelopes_view(responses@) =~= out);
        }
        Ok(responses)
    }

    /// A clock tick.  Whether a follower without a leader starts an election
    /// is decided by a random draw; whatever the draw, the node moves as
    /// `tick_spec` says for it.
    pub fn tick(&mut self) -> (r: Result<Vec<Envelope>, Error>)
        requires
            old(self)@.role matches RoleView::Follower { leader: None, .. } ==> old(self)@.term < u64::MAX,
        ensures
            r is Ok,
            exists|roll: u8|
                (final(self)@, envelopes_view(r->Ok_0@)) == tick_spec(old(self)@, roll),
            final(self).notice_channel() == old(self).notice_channel(),
    {
        let roll = random_u8();
        self.tick_with_roll(roll)
    }
}

} // verus!

verus! {

/// The term a node holds never goes down on a message.
pub proof fn law_step_term_monotone(s: NodeView, msg: MessageView, from: u64)
    ensures
        step_spec(s, msg, from).0.term >= s.term,
{
}

/// The term a node holds never goes down on a tick; it goes up by one
/// exactly when the node starts an election.
pub proof fn law_tick_term_monotone(s: NodeView, roll: u8)
    requires
        s.role matches RoleView::Follower { leader: None, .. } && roll % 20 == 0 ==> s.term < u64::MAX,
    ensures
        tick_spec(s, roll).0.term >= s.term,
        tick_spec(s, roll).0.term == s.term + 1 <==> (tick_spec(s, roll).0.role is Candidate
            && !(s.role is Candidate)),
{
}

/// A tick on a follower that knows a leader forgets that leader (until
/// the next append) and changes nothing else; nothing is sent.
pub proof fn law_tick_forgets_leader(s: NodeView, roll: u8)
    requires
        s.role matches RoleView::Follower { leader: Some(_), .. },
    ensures
        tick_spec(s, roll).0 == (NodeView {
            role: RoleView::Follower { leader: None, voted_for: s.role->voted_for },
            ..s
        }),
        tick_spec(s, roll).1.len() == 0,
{
}

/// A follower that hears no append for two ticks campaigns when the
/// second draw is zero: the leader it knew is forgotten on the first tick.
pub proof fn law_silent_leader_leads_to_election(s: NodeView, first_roll: u8)
    requires
        s.role is Follower,
        s.term < u64::MAX,
    ensures
        tick_spec(tick_spec(s, first_roll).0, 0).0.role is Candidate,
        tick_spec(tick_spec(s, first_roll).0, 0).0.term == s.term + 1,
{
}

/// A leader that receives a campaign steps down: to a plain follower in
/// its own term when the campaign's term is not higher, and otherwise to
/// a follower of the campaign's term that votes for the candidate.
pub proof fn law_leader_steps_down_on_campaign(s: NodeView, last_index: u64, last_term: u64, from: u64)
    requires
        s.role is Leader,
    ensures
        last_term <= s.term ==> step_spec(s, MessageView::Campaign { last_index, last_term }, from) == (
            NodeView { role: RoleView::Follower { leader: None, voted_for: None }, ..s },
            Seq::<EnvelopeView>::empty(),
        ),
        last_term > s.term ==> {
            let s2 = step_spec(s, MessageView::Campaign { last_index, last_term }, from).0;
            &&& s2.role == RoleView::Follower { leader: None, voted_for: Some(last_index) }
            &&& s2.term == last_term
        },
{
}

/// A leader's tick sends one empty append (a heartbeat) to each peer, in
/// order, from its own log position, and changes nothing.
pub proof fn law_leader_tick_sends_heartbeats(s: NodeView, roll: u8)
    requires
        s.role is Leader,
    ensures
        tick_spec(s, roll).0 == s,
        tick_spec(s, roll).1.len() == s.peers.len(),
        forall|i: int|
            0 <= i < s.peers.len() ==> {
                let e = #[trigger] tick_spec(s, roll).1[i];
                &&& e.from == s.id
                &&& e.to == s.peers[i]
                &&& e.term == s.term
                &&& e.message == MessageView::Append { base_index: s.log_index, base_term: s.log_term, entries: Seq::empty() }
            },
{
}

/// A follower that receives an append takes its sender as leader and
/// keeps its vote; it sends nothing back.
pub proof fn law_follower_follows_append(s: NodeView, base_index: u64, base_term: u64, entries: Seq<EntryView>, from: u64)
    requires
        s.role is Follower,
        base_term <= s.term,
    ensures
        step_spec(s, MessageView::Append { base_index, base_term, entries }, from).0 == (NodeView {
            role: RoleView::Follower { leader: Some(from), voted_for: s.role->voted_for },
            ..s
        }),
        step_spec(s, MessageView::Append { base_index, base_term, entries }, from).1.len() == 0,
{
}

/// A follower votes at most once in a term: once it has voted, a campaign
/// of the same or a lower term gets no vote.
pub proof fn law_one_vote_per_term(s: NodeView, last_index: u64, last_term: u64, from: u64)
    requires
        s.role is Follower,
        s.role->voted_for is Some,
        last_term <= s.term,
    ensures
        step_spec(s, MessageView::Campaign { last_index, last_term }, from).1.len() == 0,
        step_spec(s, MessageView::Campaign { last_index, last_term }, from).0 == s,
{
}

/// A leader answers a client request to its sender with the request and
/// sends one append carrying the request to each peer.
pub proof fn law_leader_replicates(s: NodeView, id: u64, request: Seq<u8>, from: u64)
    requires
        s.role is Leader,
    ensures
        ({
            let (s2, out) = step_spec(s, MessageView::ClientRequest { id, request }, from);
            &&& s2 == s
            &&& out.len() == 1 + s.peers.len()
            &&& out[0].to == from
            &&& out[0].message == MessageView::ClientResponse { id, response: Ok(request) }
            &&& forall|i: int| 0 <= i < s.peers.len() ==> #[trigger] out[1 + i] == replicate_to(s, request, s.peers[i])
        }),
{
}

/// A candidate that receives a granted vote from another node becomes leader.
pub proof fn law_candidate_wins(s: NodeView, term: u64, from: u64)
    requires
        s.role is Candidate,
        s.role->votes.finite(),
        term <= s.term,
        from != s.id,
    ensures
        step_spec(s, MessageView::CampaignResponse { vote: true, term }, from).0.role is Leader,
{
    let v2 = s.role->votes.insert(from).insert(s.id);
    assert(set![from, s.id].subset_of(v2));
    assert(set![from, s.id].len() == 2) by {
        assert(set![from, s.id] == Set::empty().insert(from).insert(s.id));
    }
    vstd::set_lib::lemma_len_subset(set![from, s.id], v2);
}

/// Candidates only ever hold finitely many votes: stepping and ticking keep
/// what `step` asks of its input.
pub proof fn law_votes_stay_finite(s: NodeView, msg: MessageView, from: u64, roll: u8)
    requires
        s.role is Candidate ==> s.role->votes.finite(),
    ensures
        step_spec(s, msg, from).0.role is Candidate ==> step_spec(s, msg, from).0.role->votes.finite(),
        tick_spec(s, roll).0.role is Candidate ==> tick_spec(s, roll).0.role->votes.finite(),
{
}

} // verus!
