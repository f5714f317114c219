//! The pattern registry: event-condition-action rules, looked up by the
//! event type that triggers them.
use vstd::prelude::*;
use vstd::string::*;
use crate::models::AgentNodeConfig;
use crate::text::{contains_str, has_sub};

verus! {

/// What a pattern does when it fires.
#[derive(Clone, Debug)]
pub enum PatternAction {
    Interrupt { reason: String },
    RequestApproval { reason: String },
    SpawnAgent { config: AgentNodeConfig },
}

/// One event-condition-action rule.
#[derive(Clone, Debug)]
pub struct Pattern {
    pub id: String,
    pub name: String,
    pub trigger_event: String,
    pub condition: String,
    pub action: PatternAction,
}

/// A pattern's trigger names the event type, exactly or as a part of it.
pub open spec fn trigger_matches(trigger: Seq<char>, event_type: Seq<char>) -> bool {
    trigger == event_type || has_sub(event_type, trigger)
}

/// A pattern's condition holds of an event's payload text: `*` holds of
/// all, anything else must occur in the text.
pub open spec fn condition_matches(condition: Seq<char>, payload_text: Seq<char>) -> bool {
    condition == "*"@ || has_sub(payload_text, condition)
}

/// `a` is a copy of `b`: the same id, name, trigger, condition and action
/// (a spawned node's configuration is carried as is).
pub open spec fn same_pattern(a: Pattern, b: Pattern) -> bool {
    &&& a.id@ == b.id@
    &&& a.name@ == b.name@
    &&& a.trigger_event@ == b.trigger_event@
    &&& a.condition@ == b.condition@
    &&& match (a.action, b.action) {
        (PatternAction::Interrupt { reason: x }, PatternAction::Interrupt { reason: y }) => x@
            == y@,
        (
            PatternAction::RequestApproval { reason: x },
            PatternAction::RequestApproval { reason: y },
        ) => x@ == y@,
        (PatternAction::SpawnAgent { .. }, PatternAction::SpawnAgent { .. }) => true,
        _ => false,
    }
}

/// The patterns of `s` that an event type triggers, in order.
pub open spec fn triggered(s: Seq<Pattern>, event_type: Seq<char>) -> Seq<Pattern>
    decreases s.len(),
{
    if s.len() == 0 {
        s
    } else if trigger_matches(s.last().trigger_event@, event_type) {
        triggered(s.drop_last(), event_type).push(s.last())
    } else {
        triggered(s.drop_last(), event_type)
    }
}

/// Some entry has this id, trigger and condition, and an interrupt (or,
/// where `interrupt` is false, a request for approval) for its action.
pub open spec fn holds_pattern(
    s: Seq<Pattern>,
    id: Seq<char>,
    trigger: Seq<char>,
    condition: Seq<char>,
    interrupt: bool,
) -> bool {
    exists|i: int|
        0 <= i < s.len() && s[i].id@ == id && s[i].trigger_event@ == trigger && s[i].condition@
            == condition && if interrupt {
            s[i].action is Interrupt
        } else {
            s[i].action is RequestApproval
        }
}

/// The pattern fires on an event of this type and payload.
pub open spec fn fires(p: Pattern, event_type: Seq<char>, payload_text: Seq<char>) -> bool {
    trigger_matches(p.trigger_event@, event_type) && condition_matches(p.condition@, payload_text)
}

impl Pattern {
    /// A copy of the pattern.
    pub fn duplicate(&self) -> (r: Pattern)
        ensures
            same_pattern(r, *self),
    {
        let action = match &self.action {
            PatternAction::Interrupt { reason } => PatternAction::Interrupt { reason: reason.clone() },
            PatternAction::RequestApproval { reason } => PatternAction::RequestApproval {
                reason: reason.clone(),
            },
            PatternAction::SpawnAgent { config } => PatternAction::SpawnAgent { config: config.clone() },
        };
        Pattern {
            id: self.id.clone(),
            name: self.name.clone(),
            trigger_event: self.trigger_event.clone(),
            condition: self.condition.clone(),
            action,
        }
    }
}

/// Whether a pattern's trigger names the event type.
pub fn trigger_matches_exec(trigger: &str, event_type: &str) -> (r: bool)
    ensures
        r == trigger_matches(trigger@, event_type@),
{
    let t: String = trigger.to_owned();
    let e: String = event_type.to_owned();
    t == e || contains_str(event_type, trigger)
}

/// Whether a pattern's condition holds of a payload text.
pub fn condition_matches_exec(condition: &str, payload_text: &str) -> (r: bool)
    ensures
        r == condition_matches(condition@, payload_text@),
{
    let c: String = condition.to_owned();
    let star = String::from_str("*");
    c == star || contains_str(payload_text, condition)
}

/// The registered patterns, one per id, in the order they were first
/// registered.
pub struct PatternRegistry {
    patterns: Vec<Pattern>,
}

impl PatternRegistry {
    pub closed spec fn entries(&self) -> Seq<Pattern> {
        self.patterns@
    }

    /// An empty registry.
    pub fn new() -> (r: PatternRegistry)
        ensures
            r.entries().len() == 0,
    {
        PatternRegistry { patterns: Vec::new() }
    }

    /// Registers a pattern. A pattern with the same id is replaced in place;
    /// a new id is appended.
    pub fn register(&mut self, pattern: Pattern)
        ensures
            forall|i: int|
                0 <= i < old(self).entries().len() && (#[trigger] old(self).entries()[i]).id@
                    == pattern.id@ && (forall|j: int|
                    0 <= j < i ==> old(self).entries()[j].id@ != pattern.id@) ==> final(
                    self).entries() == old(self).entries().update(i, pattern),
            (forall|j: int|
                0 <= j < old(self).entries().len() ==> old(self).entries()[j].id@ != pattern.id@)
                ==> final(self).entries() == old(self).entries().push(pattern),
            exists|i: int| 0 <= i < final(self).entries().len() && final(self).entries()[i] == pattern,
            final(self).entries().len() >= old(self).entries().len(),
            forall|j: int|
                0 <= j < old(self).entries().len() ==> #[trigger] final(self).entries()[j] == old(
                    self).entries()[j] || old(self).entries()[j].id@ == pattern.id@,
    {
        let mut i: usize = 0;
        while i < self.patterns.len()
            invariant
                i <= self.patterns@.len(),
                self.patterns@ == old(self).patterns@,
                forall|j: int| 0 <= j < i ==> self.patterns@[j].id@ != pattern.id@,
            decreases self.patterns@.len() - i,
        {
            if self.patterns[i].id == pattern.id {
                let ghost p = pattern;
                self.patterns.set(i, pattern);
                proof {
                    assert(self.patterns@[i as int] == p);
                    assert(self.entries()[i as int] == p);
                }
                return;
            }
            i = i + 1;
        }
        let ghost p = pattern;
        self.patterns.push(pattern);
        proof {
            assert(self.patterns@[old(self).patterns@.len() as int] == p);
            assert(self.entries()[old(self).patterns@.len() as int] == p);
        }
    }

    /// Copies of the patterns an event type triggers, in order.
    pub fn get_patterns_for_trigger(&self, event_type: &str) -> (r: Vec<Pattern>)
        ensures
            r@.len() == triggered(self.entries(), event_type@).len(),
            forall|i: int|
                0 <= i < r@.len() ==> same_pattern(
                    #[trigger] r@[i],
                    triggered(self.entries(), event_type@)[i],
                ),
    {
        let mut out: Vec<Pattern> = Vec::new();
        let mut i: usize = 0;
        while i < self.patterns.len()
            invariant
                i <= self.patterns@.len(),
                out@.len() == triggered(self.patterns@.subrange(0, i as int), event_type@).len(),
                forall|k: int|
                    0 <= k < out@.len() ==> same_pattern(
                        #[trigger] out@[k],
                        triggered(self.patterns@.subrange(0, i as int), event_type@)[k],
                    ),
            decreases self.patterns@.len() - i,
        {
            let ghost pre = self.patterns@.subrange(0, i as int);
            let ghost next = self.patterns@.subrange(0, i + 1);
            proof {
                assert(next.drop_last() =~= pre);
                assert(next.last() == self.patterns@[i as int]);
            }
            if trigger_matches_exec(self.patterns[i].trigger_event.as_str(), event_type) {
                let ghost out0 = out@;
                out.push(self.patterns[i].duplicate());
                proof {
                    assert forall|k: int| 0 <= k < out@.len() implies same_pattern(
                        #[trigger] out@[k],
                        triggered(next, event_type@)[k],
                    ) by {
                        if k < out0.len() {
                            assert(out@[k] == out0[k]);
                        }
                    }
                }
            }
            i = i + 1;
        }
        proof {
            assert(self.patterns@.subrange(0, self.patterns@.len() as int) =~= self.patterns@);
        }
        out
    }

    /// A copy of the first registered pattern that fires on an event of
    /// this type and payload text.
    pub fn first_match(&self, event_type: &str, payload_text: &str) -> (r: Option<Pattern>)
        ensures
            match r {
                Some(p) => exists|i: int|
                    0 <= i < self.entries().len() && fires(
                        #[trigger] self.entries()[i],
                        event_type@,
                        payload_text@,
                    ) && (forall|j: int|
                        0 <= j < i ==> !fires(self.entries()[j], event_type@, payload_text@))
                        && same_pattern(p, self.entries()[i]),
                None => forall|i: int|
                    0 <= i < self.entries().len() ==> !fires(
                        #[trigger] self.entries()[i],
                        event_type@,
                        payload_text@,
                    ),
            },
    {
        let mut i: usize = 0;
        while i < self.patterns.len()
            invariant
                i <= self.patterns@.len(),
                forall|j: int|
                    0 <= j < i ==> !fires(#[trigger] self.patterns@[j], event_type@, payload_text@),
            decreases self.patterns@.len() - i,
        {
            let p = &self.patterns[i];
            if trigger_matches_exec(p.trigger_event.as_str(), event_type) && condition_matches_exec(
                p.condition.as_str(),
                payload_text,
            ) {
                let d = p.duplicate();
                proof {
                    assert(fires(self.patterns@[i as int], event_type@, payload_text@));
                    assert(self.entries()[i as int] == self.patterns@[i as int]);
                    assert(same_pattern(d, self.entries()[i as int]));
                }
                return Some(d);
            }
            i = i + 1;
        }
        None
    }

    /// The patterns that hold when no configuration can be read: deny file
    /// deletion, and gate retries of a failed node behind an approval.
    pub fn register_fallback_patterns(&mut self)
        ensures
            holds_pattern(
                final(self).entries(),
                "guard_fs_delete"@,
                "ToolCall"@,
                "fs_delete"@,
                true,
            ),
            holds_pattern(final(self).entries(), "gate_failed_retry"@, "AgentFailed"@, "*"@, false),
            forall|j: int|
                0 <= j < old(self).entries().len() && old(self).entries()[j].id@ != "guard_fs_delete"@
                    && old(self).entries()[j].id@ != "gate_failed_retry"@ ==> #[trigger] final(
                    self).entries()[j] == old(self).entries()[j],
    {
        let p1 = Pattern {
            id: String::from_str("guard_fs_delete"),
            name: String::from_str("Prevent File Deletion (Fallback)"),
            trigger_event: String::from_str("ToolCall"),
            condition: String::from_str("fs_delete"),
            action: PatternAction::Interrupt {
                reason: String::from_str("Safety Violation: File deletion is prohibited."),
            },
        };
        let ghost g1 = p1;
        let ghost e0 = self.entries();
        self.register(p1);
        let ghost e1 = self.entries();
        let p2 = Pattern {
                id: String::from_str("gate_failed_retry"),
                name: String::from_str("Approve Retries After Failure (Fallback)"),
                trigger_event: String::from_str("AgentFailed"),
                condition: String::from_str("*"),
                action: PatternAction::RequestApproval {
                    reason: String::from_str("An agent failed: approve before retrying."),
                },
            };
        let ghost g2 = p2;
        self.register(p2);
        proof {
            reveal_strlit("guard_fs_delete");
            reveal_strlit("gate_failed_retry");
            assert(g1.id@ != g2.id@) by {
                assert(g1.id@[2] != g2.id@[2]);
            }
            let i1 = choose|i: int| 0 <= i < e1.len() && e1[i] == g1;
            assert(self.entries()[i1] == e1[i1]);
            assert(holds_pattern(self.entries(), "guard_fs_delete"@, "ToolCall"@, "fs_delete"@, true));
            let i2 = choose|i: int| 0 <= i < self.entries().len() && self.entries()[i] == g2;
            assert(holds_pattern(self.entries(), "gate_failed_retry"@, "AgentFailed"@, "*"@, false));
            assert forall|j: int|
                0 <= j < e0.len() && e0[j].id@ != "guard_fs_delete"@ && e0[j].id@
                    != "gate_failed_retry"@ implies #[trigger] self.entries()[j] == e0[j] by {
                assert(e1[j] == e0[j]);
            }
        }
    }
}

} // verus!
