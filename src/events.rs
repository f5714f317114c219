//! The typed domain events carried by the event bus.
use vstd::prelude::*;
use vstd::string::*;
use crate::bindings::{new_uuid_string, now_rfc3339};
use crate::context::REASON_CONTEXT_DROUGHT;

verus! {

/// The kinds of domain event.
#[derive(Clone, Copy, Debug, PartialEq, Eq, Structural)]
pub enum EventType {
    /// A node has been added to the graph, statically or by delegation.
    NodeCreated,
    /// A node started executing.
    AgentStarted,
    /// A node completed successfully.
    AgentCompleted,
    /// A node failed, or tripped a safety gate.
    AgentFailed,
    /// A node called a tool.
    ToolCall,
    /// An operator or the kernel intervened.
    SystemIntervention,
    /// An intermediate log line from a node.
    IntermediateLog,
}

pub open spec fn event_type_name_spec(e: EventType) -> Seq<char> {
    match e {
        EventType::NodeCreated => "NodeCreated"@,
        EventType::AgentStarted => "AgentStarted"@,
        EventType::AgentCompleted => "AgentCompleted"@,
        EventType::AgentFailed => "AgentFailed"@,
        EventType::ToolCall => "ToolCall"@,
        EventType::SystemIntervention => "SystemIntervention"@,
        EventType::IntermediateLog => "IntermediateLog"@,
    }
}

/// The name of an event type, as patterns name their triggers.
pub fn event_type_name(e: EventType) -> (r: String)
    ensures
        r@ == event_type_name_spec(e),
{
    match e {
        EventType::NodeCreated => String::from_str("NodeCreated"),
        EventType::AgentStarted => String::from_str("AgentStarted"),
        EventType::AgentCompleted => String::from_str("AgentCompleted"),
        EventType::AgentFailed => String::from_str("AgentFailed"),
        EventType::ToolCall => String::from_str("ToolCall"),
        EventType::SystemIntervention => String::from_str("SystemIntervention"),
        EventType::IntermediateLog => String::from_str("IntermediateLog"),
    }
}

/// One event on the bus.
#[derive(Clone, Debug)]
pub struct RuntimeEvent {
    pub id: String,
    pub run_id: String,
    pub event_type: EventType,
    pub agent_id: Option<String>,
    pub timestamp: String,
    pub payload: serde_json::Value,
}

impl RuntimeEvent {
    /// An event with the given id and time stamp.
    pub fn with_id_and_time(
        id: String,
        run_id: &str,
        event_type: EventType,
        agent_id: Option<String>,
        timestamp: String,
        payload: serde_json::Value,
    ) -> (r: RuntimeEvent)
        ensures
            r.id == id,
            r.run_id@ == run_id@,
            r.event_type == event_type,
            r.agent_id == agent_id,
            r.timestamp == timestamp,
            r.payload == payload,
    {
        RuntimeEvent { id, run_id: run_id.to_owned(), event_type, agent_id, timestamp, payload }
    }

    /// An event with a fresh random id, stamped with the current time.
    pub fn new(
        run_id: &str,
        event_type: EventType,
        agent_id: Option<String>,
        payload: serde_json::Value,
    ) -> (r: RuntimeEvent)
        ensures
            r.run_id@ == run_id@,
            r.event_type == event_type,
            r.agent_id == agent_id,
            r.payload == payload,
    {
        let id = new_uuid_string();
        let timestamp = now_rfc3339();
        RuntimeEvent::with_id_and_time(id, run_id, event_type, agent_id, timestamp, payload)
    }
}

/// An event the library asks its caller to publish: its type, run, agent
/// and the reason it carries.
#[derive(Clone, Debug)]
pub struct Intervention {
    pub event_type: EventType,
    pub run_id: String,
    pub agent_id: String,
    pub reason: String,
}

/// The `SystemIntervention` event of a context drought at `agent_id`.
pub fn drought_intervention(run_id: &str, agent_id: &str) -> (r: Intervention)
    ensures
        r.event_type == EventType::SystemIntervention,
        r.run_id@ == run_id@,
        r.agent_id@ == agent_id@,
        r.reason@ == REASON_CONTEXT_DROUGHT@,
{
    Intervention {
        event_type: EventType::SystemIntervention,
        run_id: run_id.to_owned(),
        agent_id: agent_id.to_owned(),
        reason: String::from_str(REASON_CONTEXT_DROUGHT),
    }
}

/// The `AgentFailed` event of a tripped circuit breaker at `agent_id`.
pub fn breaker_intervention(run_id: &str, agent_id: &str, reason: String) -> (r: Intervention)
    ensures
        r.event_type == EventType::AgentFailed,
        r.run_id@ == run_id@,
        r.agent_id@ == agent_id@,
        r.reason == reason,
{
    Intervention {
        event_type: EventType::AgentFailed,
        run_id: run_id.to_owned(),
        agent_id: agent_id.to_owned(),
        reason,
    }
}

} // verus!
