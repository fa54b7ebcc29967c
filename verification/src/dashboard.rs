//! What the dashboard shows of the cluster: worker nodes, and the actors
//! placed on them with their plans.

use vstd::prelude::*;

verus! {

/// A worker node of the cluster.
#[derive(Debug, PartialEq, Eq)]
pub struct JsonWorkerNode {
    pub id: u32,
    pub host: String,
    pub port: i32,
}

/// A worker node and the actors that run on it.
#[derive(Debug, PartialEq, Eq)]
pub struct JsonActorLocation {
    pub node: JsonWorkerNode,
    pub actor: Vec<JsonStreamActor>,
}

/// One actor: its plan, how it hands its output on, and to whom.
#[derive(Debug, PartialEq, Eq)]
pub struct JsonStreamActor {
    pub actor_id: u32,
    pub nodes: JsonStreamNode,
    pub dispatcher: JsonDispatcher,
    pub downstream_actor_id: Vec<u32>,
}

/// How an actor hands its output on.
#[derive(Debug, PartialEq, Eq)]
pub struct JsonDispatcher {
    pub dispatcher_type: String,
    pub column_idx: i32,
}

/// A node of an actor's plan, with the nodes that feed it.
#[derive(Debug, PartialEq, Eq)]
pub struct JsonStreamNode {
    pub input: Vec<JsonStreamNode>,
    pub pk_indices: Vec<u32>,
    pub node: JsonNode,
}

/// What a node of a plan does, as text.
#[derive(Debug, PartialEq, Eq)]
pub struct JsonNode {
    pub desc: String,
}

} // verus!
