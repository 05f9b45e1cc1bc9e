use aerokv::error::Error;
use aerokv::raft_node::{Entry, Envelope, Message, Node, Role};
use aerokv::raft_server::{Command, Delivery, Server};
use aerokv::storage::engine::DiskClient;

fn node(id: u64, peers: Vec<u64>) -> Node {
    let (tx, _rx) = crossbeam::channel::unbounded();
    Node::new(id, peers, tx)
}

#[test]
fn a_lone_node_leads_and_answers_requests() {
    let mut n = node(1, vec![]);
    assert!(matches!(n.role, Role::Leader { .. }));
    let out = n.step(Message::ClientRequest { id: 7, request: b"req".to_vec() }, 9).unwrap();
    assert_eq!(out.len(), 1);
    assert_eq!(out[0].to, 9);
    assert!(matches!(&out[0].message, Message::ClientResponse { id: 7, response: Ok(r) } if r == b"req"));
}

#[test]
fn a_leader_replicates_requests_to_its_peers() {
    let mut n = node(1, vec![2, 3]);
    n.role = Role::Leader { _heartbeat_ticks: 0 };
    let out = n.step(Message::ClientRequest { id: 1, request: b"x".to_vec() }, 1).unwrap();
    assert_eq!(out.len(), 3);
    assert_eq!(out[1].to, 2);
    assert_eq!(out[2].to, 3);
    match &out[1].message {
        Message::Append { base_index, entries, .. } => {
            assert_eq!(*base_index, 0);
            assert_eq!(entries.len(), 1);
            assert_eq!(entries[0].index, 1);
            assert_eq!(entries[0].command, Some(b"x".to_vec()));
        }
        _ => panic!("expected an append"),
    }
    let beats = n.tick_with_roll(0).unwrap();
    assert_eq!(beats.len(), 2);
}

#[test]
fn a_follower_without_leader_campaigns_on_a_zero_roll() {
    let mut n = node(1, vec![2, 3]);
    assert!(n.tick_with_roll(7).unwrap().is_empty());
    let out = n.tick_with_roll(20).unwrap();
    assert_eq!(n.term, 1);
    assert!(matches!(n.role, Role::Candidate { .. }));
    assert_eq!(out.len(), 2);
    assert!(matches!(out[0].message, Message::Campaign { last_index: 1, last_term: 1 }));
}

#[test]
fn a_candidate_with_one_vote_leads() {
    let mut n = node(1, vec![2, 3]);
    n.tick_with_roll(0).unwrap();
    n.step(Message::CampaignResponse { vote: false, term: 1 }, 2).unwrap();
    assert!(matches!(n.role, Role::Candidate { .. }));
    n.step(Message::CampaignResponse { vote: true, term: 1 }, 2).unwrap();
    assert!(matches!(n.role, Role::Leader { .. }));
}

#[test]
fn a_follower_votes_once_per_term() {
    let mut n = node(2, vec![1, 3]);
    let first = n.step(Message::Campaign { last_index: 1, last_term: 0 }, 1).unwrap();
    assert_eq!(first.len(), 1);
    assert_eq!(first[0].to, 1);
    assert!(matches!(first[0].message, Message::CampaignResponse { vote: true, .. }));
    let second = n.step(Message::Campaign { last_index: 3, last_term: 0 }, 3).unwrap();
    assert!(second.is_empty());
}

#[test]
fn a_higher_term_makes_a_node_step_down() {
    let mut n = node(1, vec![]);
    n.step(Message::Append { base_index: 0, base_term: 5, entries: vec![] }, 2).unwrap();
    assert_eq!(n.term, 5);
    assert!(matches!(n.role, Role::Follower { leader: Some(2), .. }));
    // a follower forwards client requests to its leader
    let out = n.step(Message::ClientRequest { id: 3, request: vec![1] }, 9).unwrap();
    assert_eq!(out.len(), 1);
    assert_eq!(out[0].to, 2);
}

fn command(op: &str, key: &str, value: Option<&str>) -> Command {
    Command { op: op.to_string(), key: key.to_string(), value: value.map(|v| v.to_string()) }
}

fn response(from: u64, to: u64, id: u64) -> Envelope {
    Envelope { from, to, term: 1, message: Message::ClientResponse { id, response: Ok(b"cmd".to_vec()) } }
}

#[test]
fn the_server_applies_answers_and_returns_them_to_the_client() {
    let mut server = Server { node: node(1, vec![]), storage: DiskClient::new(Vec::new()).unwrap() };
    let out = server.handle_envelopes(vec![response(1, 1, 42)], &vec![vec![Some(command("upsert", "k", Some("v")))]]);
    assert_eq!(server.storage.get(b"k".to_vec()).unwrap(), Some(b"v".to_vec()));
    assert_eq!(out.len(), 1);
    assert!(matches!(&out[0], Delivery::Respond { id: 42, response: Ok(_) }));
    let out = server.handle_envelopes(vec![response(1, 2, 43)], &vec![vec![Some(command("delete", "k", None))]]);
    assert_eq!(server.storage.get(b"k".to_vec()).unwrap(), None);
    assert!(matches!(&out[0], Delivery::Forward(e) if e.to == 2));
}

#[test]
fn the_server_applies_appended_entries() {
    let mut server = Server { node: node(2, vec![1]), storage: DiskClient::new(Vec::new()).unwrap() };
    let append = Envelope {
        from: 1,
        to: 2,
        term: 1,
        message: Message::Append {
            base_index: 0,
            base_term: 1,
            entries: vec![
                Entry { index: 1, term: 1, command: Some(b"a".to_vec()) },
                Entry { index: 2, term: 1, command: None },
                Entry { index: 3, term: 1, command: Some(b"b".to_vec()) },
            ],
        },
    };
    let cmds = vec![vec![Some(command("upsert", "x", Some("1"))), None, Some(command("delete", "y", Some("2")))]];
    let out = server.handle_envelopes(vec![append], &cmds);
    assert_eq!(server.storage.get(b"x".to_vec()).unwrap(), Some(b"1".to_vec()));
    // an appended command is written whatever its operation
    assert_eq!(server.storage.get(b"y".to_vec()).unwrap(), Some(b"2".to_vec()));
    // a message for this node that is not an answer goes nowhere
    assert!(out.is_empty());
}

#[test]
fn an_upsert_without_value_stops_the_handling() {
    let mut server = Server { node: node(1, vec![]), storage: DiskClient::new(Vec::new()).unwrap() };
    let out = server.handle_envelopes(
        vec![response(1, 1, 1), response(1, 1, 2)],
        &vec![vec![Some(command("upsert", "k", None))], vec![Some(command("upsert", "j", Some("v")))]],
    );
    assert!(out.is_empty());
    assert_eq!(server.storage.count().unwrap(), 0);
}

#[test]
fn failed_answers_are_passed_on_without_writes() {
    let mut server = Server { node: node(1, vec![]), storage: DiskClient::new(Vec::new()).unwrap() };
    let env = Envelope { from: 1, to: 1, term: 1, message: Message::ClientResponse { id: 5, response: Err(Error::InvalidKey) } };
    let out = server.handle_envelopes(vec![env], &vec![vec![Some(command("upsert", "k", Some("v")))]]);
    assert_eq!(server.storage.count().unwrap(), 0);
    assert!(matches!(&out[0], Delivery::Respond { id: 5, response: Err(Error::InvalidKey) }));
}
