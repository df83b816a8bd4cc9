//! Cluster status reports and membership requests.

use vstd::prelude::*;
use std::collections::HashMap;
use crate::config::{peers_map, PeerConfig};
use crate::text::{push_decimal, push_str, decimal};
use crate::topology::{str_eq, string_from};

verus! {

broadcast use vstd::std_specs::hash::group_hash_axioms;

/// One member of the cluster.
#[derive(Debug, Clone)]
pub struct MemberStatus {
    pub id: u64,
    pub addr: String,
    pub last_log_index: Option<u64>,
}

/// This node's view of the cluster.
#[derive(Debug, Clone)]
pub struct ClusterStatus {
    pub node_id: u64,
    pub role: String,
    pub leader_id: Option<u64>,
    pub term: u64,
    pub last_applied_index: Option<u64>,
    pub members: Vec<MemberStatus>,
}

/// Ask to add a node as a learner.
#[derive(Debug, Clone)]
pub struct AddLearnerRequest {
    pub node_id: u64,
    pub addr: String,
}

/// Ask to change the voting members.
#[derive(Debug, Clone)]
pub struct ChangeMembershipRequest {
    pub members: Vec<u64>,
}

/// The peer is one of the configured ones, with the same address.
pub open spec fn known_peer(peers: Seq<PeerConfig>, node_id: u64, addr: Seq<char>) -> bool {
    exists|i: int| 0 <= i < peers.len() && #[trigger] peers[i].id == node_id && peers[i].addr@ == addr
}

/// Only configured peers may join: the refusal message names the node, else nothing.
pub fn check_learner(peers: &[PeerConfig], req: &AddLearnerRequest) -> (r: Result<(), String>)
    ensures
        r is Ok <==> known_peer(peers@, req.node_id, req.addr@),
        r matches Err(m) ==> m@ == "node "@ + decimal(req.node_id as nat) + "@"@ + req.addr@ + " is not in the configured cluster peers"@,
{
    let mut i: usize = 0;
    while i < peers.len()
        invariant
            i <= peers@.len(),
            forall|j: int| 0 <= j < i ==> !(peers@[j].id == req.node_id && peers@[j].addr@ == req.addr@),
        decreases peers@.len() - i,
    {
        if peers[i].id == req.node_id && str_eq(peers[i].addr.as_str(), req.addr.as_str()) {
            return Ok(());
        }
        i = i + 1;
    }
    let mut m = string_from("node ");
    push_decimal(&mut m, req.node_id);
    push_str(&mut m, "@");
    push_str(&mut m, req.addr.as_str());
    push_str(&mut m, " is not in the configured cluster peers");
    Err(m)
}

/// The Raft address this node gives itself in the initial membership: the
/// advertised one, else the bind address, else the local default.
pub fn local_raft_addr(raft_advertise_addr: &Option<String>, raft_addr: &Option<String>) -> (r: String)
    ensures
        r@ == match raft_advertise_addr {
            Some(a) => a@,
            None => match raft_addr {
                Some(b) => b@,
                None => "127.0.0.1:9001"@,
            },
        },
{
    match raft_advertise_addr {
        Some(a) => a.clone(),
        None => match raft_addr {
            Some(b) => b.clone(),
            None => string_from("127.0.0.1:9001"),
        },
    }
}

/// The members a new cluster starts with: this node at `local_addr`, then
/// each configured peer; a peer with this node's id, or a repeated id, keeps
/// the last address given.
pub fn initial_members(node_id: u64, local_addr: String, peers: &[PeerConfig]) -> (r: HashMap<u64, String>)
    ensures
        r@.dom() == peers_map(seq![(node_id, local_addr@)] + peers@.map_values(|p: PeerConfig| (p.id, p.addr@))).dom(),
        forall|k: u64| #[trigger] r@.contains_key(k)
            ==> r@[k]@ == peers_map(seq![(node_id, local_addr@)] + peers@.map_values(|p: PeerConfig| (p.id, p.addr@)))[k],
{
    let ghost la = local_addr@;
    let ghost entries = seq![(node_id, la)] + peers@.map_values(|p: PeerConfig| (p.id, p.addr@));
    let mut r: HashMap<u64, String> = HashMap::new();
    r.insert(node_id, local_addr);
    proof {
        assert(entries[0] == (node_id, la));
        assert(entries.take(1).drop_last() =~= Seq::<(u64, Seq<char>)>::empty());
        assert(entries.take(1).last() == (node_id, la));
        assert(peers_map(Seq::<(u64, Seq<char>)>::empty()) == Map::<u64, Seq<char>>::empty());
        assert(peers_map(entries.take(1)) == peers_map(entries.take(1).drop_last()).insert(node_id, la));
        assert(peers_map(entries.take(1)) =~= Map::<u64, Seq<char>>::empty().insert(node_id, la));
        assert(r@.dom() =~= peers_map(entries.take(1)).dom());
    }
    let mut i: usize = 0;
    while i < peers.len()
        invariant
            entries == seq![(node_id, la)] + peers@.map_values(|p: PeerConfig| (p.id, p.addr@)),
            i <= peers@.len(),
            r@.dom() == peers_map(entries.take(i as int + 1)).dom(),
            forall|k: u64| #[trigger] r@.contains_key(k) ==> r@[k]@ == peers_map(entries.take(i as int + 1))[k],
        decreases peers@.len() - i,
    {
        r.insert(peers[i].id, peers[i].addr.clone());
        proof {
            assert(entries.take(i as int + 2).drop_last() =~= entries.take(i as int + 1));
            assert(entries.take(i as int + 2).last() == entries[i as int + 1]);
            assert(r@.dom() =~= peers_map(entries.take(i as int + 2)).dom());
        }
        i = i + 1;
    }
    assert(entries.take(peers@.len() as int + 1) =~= entries);
    r
}

/// The status report of this node: each member with the last log index
/// replicated to it, when the leader reports replication for that member.
pub fn cluster_status(
    node_id: u64,
    role: String,
    leader_id: Option<u64>,
    term: u64,
    last_applied_index: Option<u64>,
    members: Vec<(u64, String)>,
    replication: &Option<HashMap<u64, Option<u64>>>,
) -> (r: ClusterStatus)
    ensures
        r.node_id == node_id,
        r.role == role,
        r.leader_id == leader_id,
        r.term == term,
        r.last_applied_index == last_applied_index,
        r.members@.len() == members@.len(),
        forall|i: int| 0 <= i < members@.len() ==> {
            &&& (#[trigger] r.members@[i]).id == members@[i].0
            &&& r.members@[i].addr == members@[i].1
            &&& r.members@[i].last_log_index == match replication {
                Some(m) => if m@.contains_key(members@[i].0) { m@[members@[i].0] } else { None },
                None => None,
            }
        },
{
    let mut out: Vec<MemberStatus> = Vec::new();
    let mut i: usize = 0;
    while i < members.len()
        invariant
            i <= members@.len(),
            out@.len() == i,
            forall|j: int| 0 <= j < i ==> {
                &&& (#[trigger] out@[j]).id == members@[j].0
                &&& out@[j].addr == members@[j].1
                &&& out@[j].last_log_index == match replication {
                    Some(m) => if m@.contains_key(members@[j].0) { m@[members@[j].0] } else { None },
                    None => None,
                }
            },
        decreases members@.len() - i,
    {
        let id = members[i].0;
        let last_log_index = match replication {
            Some(m) => match m.get(&id) {
                Some(x) => *x,
                None => None,
            },
            None => None,
        };
        out.push(MemberStatus { id, addr: members[i].1.clone(), last_log_index });
        i = i + 1;
    }
    ClusterStatus { node_id, role, leader_id, term, last_applied_index, members: out }
}

} // verus!
