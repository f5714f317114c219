//! The rules of the context assembler and of the post-flight checks: tool
//! provisioning by node identity, the drought check, the evaluation of a
//! worker's output, the parent signature, the model mapping and the prompt
//! blocks.
use vstd::prelude::*;
use vstd::string::*;
use crate::models::{id_set, ModelVariant, RuntimeState, ThoughtSignatureStore};
use crate::state::contains_id;
use crate::text::{contains_str, has_prefix, has_sub, starts_with_str};
use crate::workspace::{WorkspaceInitializer, STORAGE_ROOT};
use crate::bindings::{
    json_array_len, json_array_len_at, json_array_str_at, json_array_text, json_str_at, json_text,
};

verus! {

pub const TOOL_READ_FILE: &'static str = "read_file";

pub const TOOL_LIST_FILES: &'static str = "list_files";

pub const TOOL_WEB_SEARCH: &'static str = "web_search";

pub const TOOL_EXECUTE_PYTHON: &'static str = "execute_python";

pub const TOOL_WRITE_FILE: &'static str = "write_file";

/// The marker of an output that carries no usable content.
pub const STATUS_NULL_MARKER: &'static str = "[STATUS: NULL]";

/// The marker of an output that waives the protocol checks.
pub const BYPASS_MARKER: &'static str = "[BYPASS:";

/// The text of an upstream artifact that has neither a result nor an output.
pub const NO_TEXT_OUTPUT: &'static str = "No text output";

pub const REASON_AGENT_FAILURE: &'static str = "Agent Failure: the worker reported an error";

pub const REASON_SEMANTIC_NULL: &'static str = "Semantic Null: the output carries no content";

pub const REASON_PROTOCOL_VIOLATION: &'static str =
    "Protocol Violation: the output shows no use of the required tool";

pub const REASON_CONTEXT_DROUGHT: &'static str =
    "Context Drought: no usable context from upstream agents";

/// The list holds each id at most once.
pub open spec fn distinct_ids(v: Seq<String>) -> bool {
    v.map_values(|s: String| s@).no_duplicates()
}

pub open spec fn is_master(id: Seq<char>) -> bool {
    has_prefix(id, "master_"@) || has_sub(id, "orchestrator"@)
}

pub open spec fn wants_web(id: Seq<char>) -> bool {
    has_sub(id, "research"@) || has_prefix(id, "web_"@) || is_master(id)
}

pub open spec fn wants_python(id: Seq<char>, mounts: bool) -> bool {
    has_sub(id, "analy"@) || has_sub(id, "code"@) || has_sub(id, "math"@) || mounts || is_master(id)
}

pub open spec fn wants_write(id: Seq<char>) -> bool {
    has_sub(id, "code"@) || has_sub(id, "writ"@) || is_master(id)
}

/// The tools a node gets: what it declared, the two file tools, and the
/// capability tools its id calls for.
pub open spec fn provisioned_tools(id: Seq<char>, declared: Set<Seq<char>>, mounts: bool) -> Set<
    Seq<char>,
> {
    let base = declared.insert(TOOL_READ_FILE@).insert(TOOL_LIST_FILES@);
    let a = if wants_web(id) {
        base.insert(TOOL_WEB_SEARCH@)
    } else {
        base
    };
    let b = if wants_python(id, mounts) {
        a.insert(TOOL_EXECUTE_PYTHON@)
    } else {
        a
    };
    if wants_write(id) {
        b.insert(TOOL_WRITE_FILE@)
    } else {
        b
    }
}

proof fn lemma_push_id(v: Seq<String>, x: String)
    ensures
        id_set(v.push(x)) == id_set(v).insert(x@),
        distinct_ids(v) && !id_set(v).contains(x@) ==> distinct_ids(v.push(x)),
{
    let m = v.map_values(|s: String| s@);
    let m2 = v.push(x).map_values(|s: String| s@);
    assert(m2 =~= m.push(x@));
    assert forall|a: Seq<char>| m2.contains(a) == (m.contains(a) || a == x@) by {
        if m.contains(a) {
            let i = choose|i: int| 0 <= i < m.len() && m[i] == a;
            assert(m2[i] == a);
        }
        if a == x@ {
            assert(m2[m.len() as int] == a);
        }
        if m2.contains(a) {
            let i = choose|i: int| 0 <= i < m2.len() && m2[i] == a;
            if i < m.len() {
                assert(m[i] == a);
            }
        }
    }
    assert(id_set(v.push(x)) =~= id_set(v).insert(x@));
}

/// Appends `x` unless it is already present.
pub fn push_unique(v: &mut Vec<String>, x: String)
    ensures
        id_set(final(v)@) == id_set(old(v)@).insert(x@),
        distinct_ids(old(v)@) ==> distinct_ids(final(v)@),
{
    if contains_id(v, &x) {
        assert(id_set(v@) =~= id_set(v@).insert(x@));
    } else {
        proof {
            lemma_push_id(v@, x);
        }
        v.push(x);
    }
}

/// The identity merge: the declared tools, always `read_file` and
/// `list_files`, and by the node's id `web_search`, `execute_python` and
/// `write_file`; dynamic artifact mounts force `execute_python`. No declared
/// tool is removed, and each tool appears once.
pub fn provision_tools(agent_id: &str, declared: &Vec<String>, has_dynamic_mounts: bool) -> (r: Vec<
    String,
>)
    ensures
        id_set(r@) == provisioned_tools(agent_id@, id_set(declared@), has_dynamic_mounts),
        distinct_ids(r@),
{
    let mut tools: Vec<String> = Vec::new();
    let mut i: usize = 0;
    proof {
        assert(declared@.subrange(0, 0).map_values(|s: String| s@) =~= Seq::<Seq<char>>::empty());
        assert(tools@.map_values(|s: String| s@) =~= Seq::<Seq<char>>::empty());
        assert(id_set(tools@) =~= id_set(declared@.subrange(0, 0)));
    }
    while i < declared.len()
        invariant
            i <= declared@.len(),
            id_set(tools@) == id_set(declared@.subrange(0, i as int)),
            distinct_ids(tools@),
        decreases declared@.len() - i,
    {
        proof {
            assert(declared@.subrange(0, i + 1) =~= declared@.subrange(0, i as int).push(
                declared@[i as int],
            ));
            lemma_push_id(declared@.subrange(0, i as int), declared@[i as int]);
        }
        push_unique(&mut tools, declared[i].clone());
        i = i + 1;
    }
    proof {
        assert(declared@.subrange(0, declared@.len() as int) =~= declared@);
    }
    push_unique(&mut tools, String::from_str(TOOL_READ_FILE));
    push_unique(&mut tools, String::from_str(TOOL_LIST_FILES));
    let master = starts_with_str(agent_id, "master_") || contains_str(agent_id, "orchestrator");
    if contains_str(agent_id, "research") || starts_with_str(agent_id, "web_") || master {
        push_unique(&mut tools, String::from_str(TOOL_WEB_SEARCH));
    }
    if contains_str(agent_id, "analy") || contains_str(agent_id, "code") || contains_str(
        agent_id,
        "math",
    ) || has_dynamic_mounts || master {
        push_unique(&mut tools, String::from_str(TOOL_EXECUTE_PYTHON));
    }
    if contains_str(agent_id, "code") || contains_str(agent_id, "writ") || master {
        push_unique(&mut tools, String::from_str(TOOL_WRITE_FILE));
    }
    tools
}

/// Every text carries the null marker.
pub open spec fn all_null(texts: Seq<String>) -> bool {
    forall|i: int| 0 <= i < texts.len() ==> has_sub(#[trigger] texts[i]@, STATUS_NULL_MARKER@)
}

/// A node with dependencies has no usable context: nothing came from
/// upstream, or all of it is null and no file is mounted.
pub open spec fn drought(n_deps: nat, texts: Seq<String>, n_files: nat) -> bool {
    n_deps > 0 && (texts.len() == 0 || (all_null(texts) && n_files == 0))
}

/// The pre-flight drought check.
pub fn is_context_drought(n_deps: usize, upstream_texts: &Vec<String>, n_files: usize) -> (r: bool)
    ensures
        r == drought(n_deps as nat, upstream_texts@, n_files as nat),
{
    if n_deps == 0 {
        return false;
    }
    if upstream_texts.len() == 0 {
        return true;
    }
    if n_files > 0 {
        return false;
    }
    let mut i: usize = 0;
    while i < upstream_texts.len()
        invariant
            i <= upstream_texts@.len(),
            forall|j: int|
                0 <= j < i ==> has_sub(#[trigger] upstream_texts@[j]@, STATUS_NULL_MARKER@),
        decreases upstream_texts@.len() - i,
    {
        if !contains_str(upstream_texts[i].as_str(), STATUS_NULL_MARKER) {
            return false;
        }
        i = i + 1;
    }
    true
}

/// The three signals computed from a worker's output.
#[derive(Clone, Copy, Debug, PartialEq, Eq, Structural)]
pub struct OutputVerdict {
    pub semantic_null: bool,
    pub bypassed: bool,
    pub protocol_violation: bool,
}

/// A node's output breaks the protocol of its id: `research_*` nodes must
/// show `web_search`, `analyze_*` and `coder_*` nodes `execute_python`,
/// unless the output carries the bypass marker.
pub open spec fn violates_protocol(id: Seq<char>, text: Seq<char>) -> bool {
    !has_sub(text, BYPASS_MARKER@) && ((has_prefix(id, "research_"@) && !has_sub(
        text,
        TOOL_WEB_SEARCH@,
    )) || ((has_prefix(id, "analyze_"@) || has_prefix(id, "coder_"@)) && !has_sub(
        text,
        TOOL_EXECUTE_PYTHON@,
    )))
}

/// Evaluates a worker's output text for the node `agent_id`.
pub fn evaluate_output(agent_id: &str, text: &str) -> (r: OutputVerdict)
    ensures
        r.semantic_null == has_sub(text@, STATUS_NULL_MARKER@),
        r.bypassed == has_sub(text@, BYPASS_MARKER@),
        r.protocol_violation == violates_protocol(agent_id@, text@),
{
    let semantic_null = contains_str(text, STATUS_NULL_MARKER);
    let bypassed = contains_str(text, BYPASS_MARKER);
    let mut protocol_violation = false;
    if !bypassed {
        if starts_with_str(agent_id, "research_") && !contains_str(text, TOOL_WEB_SEARCH) {
            protocol_violation = true;
        }
        if (starts_with_str(agent_id, "analyze_") || starts_with_str(agent_id, "coder_"))
            && !contains_str(text, TOOL_EXECUTE_PYTHON) {
            protocol_violation = true;
        }
    }
    OutputVerdict { semantic_null, bypassed, protocol_violation }
}

/// The circuit breaker: `None` on the happy path (success, no null marker,
/// no violation); else the reason the run pauses, failure first, then the
/// null marker, then the violation.
pub fn breaker_reason(success: bool, verdict: OutputVerdict) -> (r: Option<String>)
    ensures
        r is None <==> (success && !verdict.semantic_null && !verdict.protocol_violation),
        !success ==> (r matches Some(s) && s@ == REASON_AGENT_FAILURE@),
        success && verdict.semantic_null ==> (r matches Some(s) && s@ == REASON_SEMANTIC_NULL@),
        success && !verdict.semantic_null && verdict.protocol_violation ==> (r matches Some(s)
            && s@ == REASON_PROTOCOL_VIOLATION@),
{
    if !success {
        Some(String::from_str(REASON_AGENT_FAILURE))
    } else if verdict.semantic_null {
        Some(String::from_str(REASON_SEMANTIC_NULL))
    } else if verdict.protocol_violation {
        Some(String::from_str(REASON_PROTOCOL_VIOLATION))
    } else {
        None
    }
}

/// The reason the circuit breaker gives: failure first, then the null
/// marker, then the violation.
pub open spec fn breaker_reason_spec(success: bool, semantic_null: bool, violation: bool) -> Seq<char> {
    if !success {
        REASON_AGENT_FAILURE@
    } else if semantic_null {
        REASON_SEMANTIC_NULL@
    } else {
        REASON_PROTOCOL_VIOLATION@
    }
}

/// The first non-empty signature among the dependencies, in declared order.
pub open spec fn first_signature(deps: Seq<String>, store: ThoughtSignatureStore) -> Option<
    Seq<char>,
>
    decreases deps.len(),
{
    if deps.len() == 0 {
        None
    } else if store.get_spec(deps[0]@) is Some && store.get_spec(deps[0]@)->0.len() > 0 {
        store.get_spec(deps[0]@)
    } else {
        first_signature(deps.drop_first(), store)
    }
}

/// The parent signature handed to a node.
pub fn parent_signature(depends_on: &Vec<String>, store: &ThoughtSignatureStore) -> (r: Option<
    String,
>)
    ensures
        match r {
            Some(s) => first_signature(depends_on@, *store) == Some(s@),
            None => first_signature(depends_on@, *store) is None,
        },
{
    let mut i: usize = 0;
    proof {
        assert(depends_on@.subrange(0, depends_on@.len() as int) =~= depends_on@);
    }
    while i < depends_on.len()
        invariant
            i <= depends_on@.len(),
            first_signature(depends_on@, *store) == first_signature(
                depends_on@.subrange(i as int, depends_on@.len() as int),
                *store,
            ),
        decreases depends_on@.len() - i,
    {
        let ghost rest = depends_on@.subrange(i as int, depends_on@.len() as int);
        assert(rest[0] == depends_on@[i as int]);
        assert(rest.drop_first() =~= depends_on@.subrange(i + 1, depends_on@.len() as int));
        match store.get(depends_on[i].as_str()) {
            Some(sig) => {
                if sig.as_str().unicode_len() > 0 {
                    return Some(sig);
                }
            },
            None => {},
        }
        i = i + 1;
    }
    None
}

pub open spec fn model_name_spec(m: ModelVariant) -> Seq<char> {
    match m {
        ModelVariant::GeminiFlash => "gemini-3-flash"@,
        ModelVariant::GeminiPro => "gemini-3-pro"@,
        ModelVariant::GeminiDeepThink => "gemini-3-deep-think"@,
    }
}

/// The worker's name for a model tier.
pub fn model_name(m: ModelVariant) -> (r: String)
    ensures
        r@ == model_name_spec(m),
{
    match m {
        ModelVariant::GeminiFlash => String::from_str("gemini-3-flash"),
        ModelVariant::GeminiPro => String::from_str("gemini-3-pro"),
        ModelVariant::GeminiDeepThink => String::from_str("gemini-3-deep-think"),
    }
}

/// The thinking level of a model tier: the deep-think tier thinks at 5.
pub fn thinking_level(m: ModelVariant) -> (r: Option<i32>)
    ensures
        r == if m == ModelVariant::GeminiDeepThink {
            Some(5i32)
        } else {
            None::<i32>
        },
{
    match m {
        ModelVariant::GeminiDeepThink => Some(5),
        _ => None,
    }
}

/// The prompt block that carries one upstream agent's text.
pub fn context_block(dep_id: &str, text: &str) -> (r: String)
    ensures
        r@ == "=== CONTEXT FROM AGENT "@ + dep_id@ + " ===\n"@ + text@ + "\n"@,
{
    let mut r = String::from_str("=== CONTEXT FROM AGENT ");
    r.append(dep_id);
    r.append(" ===\n");
    r.append(text);
    r.append("\n");
    r
}

/// The text of an upstream artifact: its `result` field, else its `output`
/// field, else a fixed placeholder.
pub fn upstream_text(result: Option<String>, output: Option<String>) -> (r: String)
    ensures
        r@ == match result {
            Some(t) => t@,
            None => match output {
                Some(t) => t@,
                None => NO_TEXT_OUTPUT@,
            },
        },
{
    match result {
        Some(t) => t,
        None => match output {
            Some(t) => t,
            None => String::from_str(NO_TEXT_OUTPUT),
        },
    }
}

/// What an upstream agent left for its dependents: its text and the files it
/// generated.
#[derive(Clone, Debug)]
pub struct UpstreamArtifact {
    pub agent_id: String,
    pub text: String,
    pub files: Vec<String>,
    /// The artifact's JSON document, as stored.
    pub raw: Vec<u8>,
}

pub open spec fn block_spec(dep_id: Seq<char>, text: Seq<char>) -> Seq<char> {
    "=== CONTEXT FROM AGENT "@ + dep_id + " ===\n"@ + text + "\n"@
}

/// The context blocks of the upstream artifacts, in order.
pub open spec fn blocks_of(arts: Seq<UpstreamArtifact>) -> Seq<char>
    decreases arts.len(),
{
    if arts.len() == 0 {
        Seq::empty()
    } else {
        blocks_of(arts.drop_last()) + block_spec(arts.last().agent_id@, arts.last().text@)
    }
}

/// The final prompt: the static prompt, then one block per upstream agent.
pub fn assemble_prompt(prompt: &str, upstream: &Vec<UpstreamArtifact>) -> (r: String)
    ensures
        r@ == prompt@ + blocks_of(upstream@),
{
    let mut r = String::from_str(prompt);
    let mut i: usize = 0;
    proof {
        assert(upstream@.subrange(0, 0) =~= Seq::<UpstreamArtifact>::empty());
        assert(prompt@ + blocks_of(upstream@.subrange(0, 0)) =~= prompt@);
    }
    while i < upstream.len()
        invariant
            i <= upstream@.len(),
            r@ == prompt@ + blocks_of(upstream@.subrange(0, i as int)),
        decreases upstream@.len() - i,
    {
        let block = context_block(upstream[i].agent_id.as_str(), upstream[i].text.as_str());
        r.append(block.as_str());
        proof {
            let next = upstream@.subrange(0, i + 1);
            assert(next.drop_last() =~= upstream@.subrange(0, i as int));
            assert(next.last() == upstream@[i as int]);
            assert(r@ =~= prompt@ + blocks_of(next));
        }
        i = i + 1;
    }
    proof {
        assert(upstream@.subrange(0, upstream@.len() as int) =~= upstream@);
    }
    r
}

/// The session path of a generated file.
pub open spec fn output_path(run_id: Seq<char>, filename: Seq<char>) -> Seq<char> {
    STORAGE_ROOT@ + "/sessions/"@ + run_id + "/output/"@ + filename
}

/// The files the upstream artifacts declare, as session paths, each once.
pub fn mount_paths(run_id: &str, upstream: &Vec<UpstreamArtifact>) -> (r: Vec<String>)
    ensures
        distinct_ids(r@),
        forall|p: Seq<char>|
            id_set(r@).contains(p) <==> exists|i: int, k: int|
                0 <= i < upstream@.len() && 0 <= k < upstream@[i].files@.len() && p == output_path(
                    run_id@,
                    #[trigger] upstream@[i].files@[k]@,
                ),
{
    let mut r: Vec<String> = Vec::new();
    let mut i: usize = 0;
    proof {
        assert(r@.map_values(|s: String| s@) =~= Seq::<Seq<char>>::empty());
    }
    while i < upstream.len()
        invariant
            i <= upstream@.len(),
            distinct_ids(r@),
            forall|p: Seq<char>|
                id_set(r@).contains(p) <==> exists|j: int, k: int|
                    0 <= j < i && 0 <= k < upstream@[j].files@.len() && p == output_path(
                        run_id@,
                        #[trigger] upstream@[j].files@[k]@,
                    ),
        decreases upstream@.len() - i,
    {
        let mut k: usize = 0;
        while k < upstream[i].files.len()
            invariant
                i < upstream@.len(),
                k <= upstream@[i as int].files@.len(),
                distinct_ids(r@),
                forall|p: Seq<char>|
                    id_set(r@).contains(p) <==> (exists|j: int, kk: int|
                        0 <= j < i && 0 <= kk < upstream@[j].files@.len() && p == output_path(
                            run_id@,
                            #[trigger] upstream@[j].files@[kk]@,
                        )) || (exists|kk: int|
                        0 <= kk < k && p == output_path(
                            run_id@,
                            #[trigger] upstream@[i as int].files@[kk]@,
                        )),
            decreases upstream@[i as int].files@.len() - k,
        {
            let path = WorkspaceInitializer::session_output_file(
                run_id,
                upstream[i].files[k].as_str(),
            );
            push_unique(&mut r, path);
            proof {
                assert forall|p: Seq<char>|
                    id_set(r@).contains(p) <==> (exists|j: int, kk: int|
                        0 <= j < i && 0 <= kk < upstream@[j].files@.len() && p == output_path(
                            run_id@,
                            #[trigger] upstream@[j].files@[kk]@,
                        )) || (exists|kk: int|
                        0 <= kk < k + 1 && p == output_path(
                            run_id@,
                            #[trigger] upstream@[i as int].files@[kk]@,
                        )) by {
                    if p == output_path(run_id@, upstream@[i as int].files@[k as int]@) {
                        assert(exists|kk: int|
                            0 <= kk < k + 1 && p == output_path(
                                run_id@,
                                #[trigger] upstream@[i as int].files@[kk]@,
                            ));
                    }
                    if exists|kk: int|
                        0 <= kk < k + 1 && p == output_path(
                            run_id@,
                            #[trigger] upstream@[i as int].files@[kk]@,
                        ) {
                        let kk = choose|kk: int|
                            0 <= kk < k + 1 && p == output_path(
                                run_id@,
                                #[trigger] upstream@[i as int].files@[kk]@,
                            );
                        if kk < k {
                            assert(exists|kx: int|
                                0 <= kx < k && p == output_path(
                                    run_id@,
                                    #[trigger] upstream@[i as int].files@[kx]@,
                                ));
                        }
                    }
                }
            }
            k = k + 1;
        }
        proof {
            assert forall|p: Seq<char>|
                id_set(r@).contains(p) <==> exists|j: int, kk: int|
                    0 <= j < i + 1 && 0 <= kk < upstream@[j].files@.len() && p == output_path(
                        run_id@,
                        #[trigger] upstream@[j].files@[kk]@,
                    ) by {
                if exists|j: int, kk: int|
                    0 <= j < i + 1 && 0 <= kk < upstream@[j].files@.len() && p == output_path(
                        run_id@,
                        #[trigger] upstream@[j].files@[kk]@,
                    ) {
                    let (j, kk) = choose|j: int, kk: int|
                        0 <= j < i + 1 && 0 <= kk < upstream@[j].files@.len() && p == output_path(
                            run_id@,
                            #[trigger] upstream@[j].files@[kk]@,
                        );
                    if j == i {
                        assert(exists|kx: int|
                            0 <= kx < upstream@[i as int].files@.len() && p == output_path(
                                run_id@,
                                #[trigger] upstream@[i as int].files@[kx]@,
                            ));
                    } else {
                        assert(exists|jx: int, kx: int|
                            0 <= jx < i && 0 <= kx < upstream@[jx].files@.len() && p == output_path(
                                run_id@,
                                #[trigger] upstream@[jx].files@[kx]@,
                            ));
                    }
                }
            }
        }
        i = i + 1;
    }
    r
}

/// The texts of the upstream artifacts, in order.
pub fn upstream_texts(upstream: &Vec<UpstreamArtifact>) -> (r: Vec<String>)
    ensures
        r@.len() == upstream@.len(),
        forall|i: int| 0 <= i < r@.len() ==> #[trigger] r@[i] == upstream@[i].text,
{
    let mut r: Vec<String> = Vec::new();
    let mut i: usize = 0;
    while i < upstream.len()
        invariant
            i <= upstream@.len(),
            r@.len() == i,
            forall|j: int| 0 <= j < i ==> #[trigger] r@[j] == upstream@[j].text,
        decreases upstream@.len() - i,
    {
        r.push(upstream[i].text.clone());
        i = i + 1;
    }
    r
}

/// A node's status tag in the graph view.
pub open spec fn status_tag(s: RuntimeState, id: Seq<char>) -> Seq<char> {
    if s.completed().contains(id) {
        "COMPLETE"@
    } else if s.failed().contains(id) {
        "FAILED"@
    } else if s.active().contains(id) {
        "RUNNING"@
    } else {
        "PENDING"@
    }
}

/// One node of the graph view: its id, its tag, and `(YOU)` on the target.
pub open spec fn view_item(s: RuntimeState, id: Seq<char>, target: Seq<char>) -> Seq<char> {
    id + "["@ + status_tag(s, id) + "]"@ + if id == target {
        " (YOU)"@
    } else {
        Seq::empty()
    }
}

/// The compact graph view: the items of `order` joined by ` -> `.
pub open spec fn linear_view(s: RuntimeState, order: Seq<Seq<char>>, target: Seq<char>) -> Seq<char>
    decreases order.len(),
{
    if order.len() == 0 {
        Seq::empty()
    } else if order.len() == 1 {
        view_item(s, order[0], target)
    } else {
        linear_view(s, order.drop_last(), target) + " -> "@ + view_item(s, order.last(), target)
    }
}

/// The compact view of a graph for the node `target`, over an order of its
/// nodes.
pub fn render_linear_view(order: &Vec<String>, state: &RuntimeState, target: &str) -> (r: String)
    ensures
        r@ == linear_view(*state, order@.map_values(|x: String| x@), target@),
{
    let ghost o = order@.map_values(|x: String| x@);
    let mut r = String::new();
    let mut i: usize = 0;
    proof {
        assert(o.subrange(0, 0) =~= Seq::<Seq<char>>::empty());
    }
    let key: String = target.to_owned();
    while i < order.len()
        invariant
            o == order@.map_values(|x: String| x@),
            key@ == target@,
            i <= order@.len(),
            r@ == linear_view(*state, o.subrange(0, i as int), target@),
        decreases order@.len() - i,
    {
        let id = &order[i];
        if i > 0 {
            r.append(" -> ");
        }
        r.append(id.as_str());
        r.append("[");
        if contains_id(&state.completed_agents, id) {
            r.append("COMPLETE");
        } else if contains_id(&state.failed_agents, id) {
            r.append("FAILED");
        } else if contains_id(&state.active_agents, id) {
            r.append("RUNNING");
        } else {
            r.append("PENDING");
        }
        r.append("]");
        if *id == key {
            r.append(" (YOU)");
        }
        proof {
            let next = o.subrange(0, i + 1);
            assert(next.drop_last() =~= o.subrange(0, i as int));
            assert(next.last() == id@);
            if i == 0 {
                assert(next.len() == 1);
                assert(next[0] == id@);
            }
            assert(r@ =~= linear_view(*state, next, target@));
        }
        i = i + 1;
    }
    proof {
        assert(o.subrange(0, order@.len() as int) =~= o);
    }
    r
}

/// A copy of a byte slice.
pub fn slice_bytes(b: &[u8]) -> (r: Vec<u8>)
    ensures
        r@ == b@,
{
    let mut r: Vec<u8> = Vec::new();
    let mut i: usize = 0;
    while i < b.len()
        invariant
            i <= b@.len(),
            r@ == b@.subrange(0, i as int),
        decreases b@.len() - i,
    {
        r.push(b[i]);
        proof {
            assert(r@ =~= b@.subrange(0, i + 1));
        }
        i = i + 1;
    }
    assert(r@ =~= b@);
    r
}

/// The pairs `(dependency, artifact document)` of the upstream artifacts.
pub fn input_data_of(upstream: &Vec<UpstreamArtifact>) -> (r: Vec<(String, Vec<u8>)>)
    ensures
        r@.len() == upstream@.len(),
        forall|i: int|
            0 <= i < r@.len() ==> (#[trigger] r@[i]).0@ == upstream@[i].agent_id@ && r@[i].1@
                == upstream@[i].raw@,
{
    let mut r: Vec<(String, Vec<u8>)> = Vec::new();
    let mut i: usize = 0;
    while i < upstream.len()
        invariant
            i <= upstream@.len(),
            r@.len() == i,
            forall|j: int|
                0 <= j < i ==> (#[trigger] r@[j]).0@ == upstream@[j].agent_id@ && r@[j].1@
                    == upstream@[j].raw@,
        decreases upstream@.len() - i,
    {
        r.push((upstream[i].agent_id.clone(), slice_bytes(upstream[i].raw.as_slice())));
        i = i + 1;
    }
    r
}

/// The text of an artifact document: its `result` string, else its
/// `output` string, else the placeholder.
pub open spec fn artifact_text(bytes: Seq<u8>) -> Seq<char> {
    match json_str_at(bytes, "/result"@) {
        Some(t) => t,
        None => match json_str_at(bytes, "/output"@) {
            Some(t) => t,
            None => NO_TEXT_OUTPUT@,
        },
    }
}

/// The files an artifact document declares: the strings of its
/// `files_generated` array.
pub open spec fn artifact_files(bytes: Seq<u8>) -> Set<Seq<char>> {
    Set::new(
        |f: Seq<char>|
            exists|i: nat|
                #![trigger json_array_str_at(bytes, "/files_generated"@, i)]
                json_array_len_at(bytes, "/files_generated"@) matches Some(n) && i < n
                    && json_array_str_at(bytes, "/files_generated"@, i) == Some(f),
    )
}

/// Reads an upstream artifact from its JSON document: its text is the
/// `result` string, else the `output` string, else a placeholder; its
/// files are the strings of `files_generated`, each once.
pub fn upstream_from_json(dep_id: &str, bytes: &[u8]) -> (r: UpstreamArtifact)
    ensures
        r.agent_id@ == dep_id@,
        r.raw@ == bytes@,
        r.text@ == artifact_text(bytes@),
        id_set(r.files@) == artifact_files(bytes@),
        distinct_ids(r.files@),
{
    let result = json_text(bytes, "/result");
    let output = json_text(bytes, "/output");
    let mut files: Vec<String> = Vec::new();
    proof {
        assert(files@.map_values(|s: String| s@) =~= Seq::<Seq<char>>::empty());
    }
    let ghost b = bytes@;
    let ghost p = "/files_generated"@;
    match json_array_len(bytes, "/files_generated") {
        Some(n) => {
            let mut i: usize = 0;
            while i < n
                invariant
                    b == bytes@,
                    p == "/files_generated"@,
                    json_array_len_at(b, p) == Some(n as nat),
                    i <= n,
                    distinct_ids(files@),
                    forall|f: Seq<char>|
                        id_set(files@).contains(f) <==> exists|j: nat|
                            #![trigger json_array_str_at(b, p, j)]
                            j < i && json_array_str_at(b, p, j) == Some(f),
                decreases n - i,
            {
                let ghost f0 = files@;
                match json_array_text(bytes, "/files_generated", i) {
                    Some(name) => {
                        let ghost nv = name@;
                        push_unique(&mut files, name);
                        proof {
                            assert forall|f: Seq<char>|
                                id_set(files@).contains(f) <==> exists|j: nat|
                                    #![trigger json_array_str_at(b, p, j)]
                                    j < i + 1 && json_array_str_at(b, p, j) == Some(f) by {
                                if f == nv {
                                    assert(json_array_str_at(b, p, i as nat) == Some(f));
                                }
                                if exists|j: nat|
                                    #![trigger json_array_str_at(b, p, j)]
                                    j < i + 1 && json_array_str_at(b, p, j) == Some(f) {
                                    let j = choose|j: nat|
                                        #![trigger json_array_str_at(b, p, j)]
                                        j < i + 1 && json_array_str_at(b, p, j) == Some(f);
                                    if j < i {
                                        assert(id_set(f0).contains(f));
                                    }
                                }
                            }
                        }
                    },
                    None => {
                        proof {
                            assert forall|f: Seq<char>|
                                id_set(files@).contains(f) <==> exists|j: nat|
                                    #![trigger json_array_str_at(b, p, j)]
                                    j < i + 1 && json_array_str_at(b, p, j) == Some(f) by {
                                if exists|j: nat|
                                    #![trigger json_array_str_at(b, p, j)]
                                    j < i + 1 && json_array_str_at(b, p, j) == Some(f) {
                                    let j = choose|j: nat|
                                        #![trigger json_array_str_at(b, p, j)]
                                        j < i + 1 && json_array_str_at(b, p, j) == Some(f);
                                    assert(j < i);
                                }
                            }
                        }
                    },
                }
                i = i + 1;
            }
            proof {
                assert(id_set(files@) =~= artifact_files(b));
            }
        },
        None => {
            proof {
                assert(id_set(files@) =~= artifact_files(b));
            }
        },
    }
    UpstreamArtifact {
        agent_id: dep_id.to_owned(),
        text: upstream_text(result, output),
        files,
        raw: slice_bytes(bytes),
    }
}

} // verus!
