//! Trace events, and the kernels that they ran.

use std::collections::HashMap;
use vstd::prelude::*;
use crate::json;
use crate::json::{Json, JsonModel};
use crate::kernels;
use crate::kernels::{KernelId, KernelKey};
use crate::order;
use crate::text;

verus! {

broadcast use vstd::std_specs::hash::group_hash_axioms;

// ---------------------------------------------------------------------------------------------
// Events

/// A single event from the Chrome trace format, without its times. An event is known by its
/// position in the trace, by which its duration is found.
#[derive(Debug)]
pub struct TraceEvent {
    pub ph: Option<String>,
    pub cat: Option<String>,
    pub name: Option<String>,
    pub pid: Option<Json>,
    pub tid: Option<Json>,
    pub args: Option<Json>,
}

/// Top-level Chrome trace format.
#[derive(Debug)]
pub struct ChromeTrace {
    pub trace_events: Vec<TraceEvent>,
}

/// A trace of events as a document.
pub open spec fn trace_of(events: Seq<JsonModel>) -> JsonModel {
    JsonModel::Object(seq![("traceEvents"@, JsonModel::Array(events))])
}

/// Makes a document of the events of a trace.
pub fn make_trace(events: Vec<Json>) -> (r: Json)
    ensures
        r@ == trace_of(json::documents(events@)),
{
    proof {
        json::lemma_array_view(events);
    }
    let ghost models = json::documents(events@);
    let mut fields: Vec<(String, Json)> = Vec::new();
    fields.push((text::copy_of("traceEvents"), Json::Array(events)));
    proof {
        json::lemma_object_view(fields);
        assert(json::fields_of(fields@) =~= trace_of(models)->Object_0);
    }
    Json::Object(fields)
}

/// A trace of ordered events is ordered.
pub proof fn lemma_trace_is_ordered(events: Seq<JsonModel>)
    requires
        forall|i: int| 0 <= i < events.len() ==> json::ordered(#[trigger] events[i]),
    ensures
        json::ordered(trace_of(events)),
{
    let fields = trace_of(events)->Object_0;
    json::lemma_ordered_items(events);
    json::lemma_ordered_fields(fields);
    assert(json::ordered(fields[0].1));
}

/// What an event says.
pub struct EventModel {
    pub ph: Option<Seq<char>>,
    pub cat: Option<Seq<char>>,
    pub name: Option<Seq<char>>,
    pub pid: Option<JsonModel>,
    pub tid: Option<JsonModel>,
    pub args: Option<JsonModel>,
}

/// The text that an optional string holds.
pub open spec fn text_in(s: Option<String>) -> Option<Seq<char>> {
    match s {
        Some(t) => Some(t@),
        None => None,
    }
}

/// The document that an optional field holds.
pub open spec fn document_in(j: Option<Json>) -> Option<JsonModel> {
    match j {
        Some(d) => Some(d@),
        None => None,
    }
}

impl View for TraceEvent {
    type V = EventModel;

    open spec fn view(&self) -> EventModel {
        EventModel {
            ph: text_in(self.ph),
            cat: text_in(self.cat),
            name: text_in(self.name),
            pid: document_in(self.pid),
            tid: document_in(self.tid),
            args: document_in(self.args),
        }
    }
}

impl View for ChromeTrace {
    type V = Seq<EventModel>;

    open spec fn view(&self) -> Seq<EventModel> {
        Seq::new(self.trace_events@.len(), |i: int| self.trace_events@[i]@)
    }
}

/// The whole number that an argument of an event holds, if it holds one from zero on.
pub open spec fn argument(e: EventModel, key: Seq<char>) -> Option<u64> {
    match e.args {
        Some(args) => match args.get(key) {
            Some(v) => v.as_u64(),
            None => None,
        },
        None => None,
    }
}

/// The two ids of an event of the CUDA runtime or driver: the correlation id that the kernel
/// shares with it, and the external id that the operator shares with it.
pub open spec fn launch(e: EventModel) -> Option<(u64, u64)> {
    if e.cat == Some("cuda_runtime"@) || e.cat == Some("cuda_driver"@) {
        match (argument(e, "correlation"@), argument(e, "External id"@)) {
            (Some(correlation), Some(external)) => Some((correlation, external)),
            _ => None,
        }
    } else {
        None
    }
}

/// The external id for each correlation id. A later event overrides an earlier one.
pub open spec fn external_ids(events: Seq<EventModel>) -> Map<u64, u64>
    decreases events.len(),
{
    if events.len() == 0 {
        Map::empty()
    } else {
        let before = external_ids(events.drop_last());
        match launch(events.last()) {
            Some((correlation, external)) => before.insert(correlation, external),
            None => before,
        }
    }
}

/// The input dimensions that an event records.
pub open spec fn recorded_dims(e: EventModel) -> Option<JsonModel> {
    match e.args {
        Some(args) => match args.get("Input Dims"@) {
            Some(dims) => Some(dims),
            None => args.get("Input dims"@),
        },
        None => None,
    }
}

/// The external id of a CPU operator and the shapes of its inputs, if it records some.
pub open spec fn operator(e: EventModel) -> Option<(u64, Seq<char>)> {
    if e.cat == Some("cpu_op"@) && (e.ph == Some("X"@) || e.ph == Some("B"@)) {
        match (argument(e, "External id"@), recorded_dims(e)) {
            (Some(external), Some(dims)) => if kernels::dimensions_text(dims).len() > 0 {
                Some((external, kernels::dimensions_text(dims)))
            } else {
                None
            },
            _ => None,
        }
    } else {
        None
    }
}

/// The input shapes for each external id. A later event overrides an earlier one.
pub open spec fn operator_shapes(events: Seq<EventModel>) -> Map<u64, Seq<char>>
    decreases events.len(),
{
    if events.len() == 0 {
        Map::empty()
    } else {
        let before = operator_shapes(events.drop_last());
        match operator(events.last()) {
            Some((external, shapes)) => before.insert(external, shapes),
            None => before,
        }
    }
}

/// Whether an event is the complete run of a GPU kernel.
pub open spec fn is_kernel(e: EventModel) -> bool {
    e.cat == Some("kernel"@) && e.ph == Some("X"@)
}

/// The input shapes of a kernel: those of the operator that launched it, found through the
/// correlation id. Nothing if the chain breaks.
pub open spec fn resolved_shapes(events: Seq<EventModel>, e: EventModel) -> Seq<char> {
    match argument(e, "correlation"@) {
        Some(correlation) => if external_ids(events).contains_key(correlation) {
            let external = external_ids(events)[correlation];
            if operator_shapes(events).contains_key(external) {
                operator_shapes(events)[external]
            } else {
                seq![]
            }
        } else {
            seq![]
        },
        None => seq![],
    }
}

/// The launch grid of a kernel.
pub open spec fn grid_text(e: EventModel) -> Seq<char> {
    match e.args {
        Some(args) => match args.get("grid"@) {
            Some(grid) => kernels::value_text(grid),
            None => seq![],
        },
        None => seq![],
    }
}

/// What identifies the kernel that an event ran.
pub open spec fn kernel_key(events: Seq<EventModel>, e: EventModel) -> KernelKey {
    KernelKey {
        name: match e.name {
            Some(name) => name,
            None => "unknown"@,
        },
        grid: grid_text(e),
        input_shapes: resolved_shapes(events, e),
    }
}

/// The kernels that the first `n` events ran, in their order, each once.
pub open spec fn kernel_keys(events: Seq<EventModel>, n: nat) -> Seq<KernelKey>
    decreases n,
{
    if n == 0 {
        seq![]
    } else {
        let before = kernel_keys(events, (n - 1) as nat);
        if is_kernel(events[n - 1]) {
            kernels::insert_key(before, kernel_key(events, events[n - 1]))
        } else {
            before
        }
    }
}

/// The positions of those of the first `n` events that ran a kernel.
pub open spec fn runs_of(events: Seq<EventModel>, n: nat, key: KernelKey) -> Seq<int>
    decreases n,
{
    if n == 0 {
        seq![]
    } else {
        let before = runs_of(events, (n - 1) as nat, key);
        if is_kernel(events[n - 1]) && kernel_key(events, events[n - 1]) == key {
            before.push(n - 1)
        } else {
            before
        }
    }
}

/// A kernel and the positions of the events that ran it.
#[derive(Debug)]
pub struct KernelRuns {
    pub id: KernelId,
    pub events: Vec<usize>,
}

/// What is known of a kernel in a trace.
pub struct RunsModel {
    pub id: KernelKey,
    pub events: Seq<int>,
}

impl View for KernelRuns {
    type V = RunsModel;

    open spec fn view(&self) -> RunsModel {
        RunsModel { id: self.id@, events: order::positions(self.events@) }
    }
}

impl kernels::Keyed for KernelRuns {
    open spec fn key(self) -> KernelKey {
        self.id@
    }

    fn kernel(&self) -> (r: &KernelId) {
        &self.id
    }
}

/// The kernels that a vector holds.
pub open spec fn runs_in(v: Seq<KernelRuns>) -> Seq<RunsModel> {
    Seq::new(v.len(), |i: int| v[i]@)
}

/// The kernels of a trace in their order, each with the positions of its events.
pub open spec fn trace_kernels(events: Seq<EventModel>) -> Seq<RunsModel> {
    let keys = kernel_keys(events, events.len());
    Seq::new(
        keys.len(),
        |i: int| RunsModel { id: keys[i], events: runs_of(events, events.len(), keys[i]) },
    )
}

// ---------------------------------------------------------------------------------------------
// Laws

/// A kernel is listed exactly if an event ran it, and the list is in order, each kernel once.
pub proof fn law_kernels_are_those_that_ran(events: Seq<EventModel>, n: nat)
    requires
        n <= events.len(),
    ensures
        kernels::ascending(kernel_keys(events, n)),
        forall|key: KernelKey|
            #[trigger] kernel_keys(events, n).contains(key) <==> runs_of(events, n, key).len() > 0,
    decreases n,
{
    if n > 0 {
        law_kernels_are_those_that_ran(events, (n - 1) as nat);
        let before = kernel_keys(events, (n - 1) as nat);
        if is_kernel(events[n - 1]) {
            kernels::lemma_insert_ascending(before, kernel_key(events, events[n - 1]));
        }
        assert forall|key: KernelKey| #[trigger] kernel_keys(events, n).contains(key) <==> runs_of(
            events,
            n,
            key,
        ).len() > 0 by {
            assert(before.contains(key) <==> runs_of(events, (n - 1) as nat, key).len() > 0);
        }
    }
}

/// Only GPU kernel events count: an event is among the runs of a kernel exactly if it is the
/// complete run of that kernel, and the runs come in the order of the trace.
pub proof fn law_runs_are_kernel_events(events: Seq<EventModel>, n: nat, key: KernelKey)
    requires
        n <= events.len(),
    ensures
        forall|p: int|
            #[trigger] runs_of(events, n, key).contains(p) <==> 0 <= p < n && is_kernel(events[p])
                && kernel_key(events, events[p]) == key,
        forall|i: int, j: int|
            0 <= i < j < runs_of(events, n, key).len() ==> #[trigger] runs_of(events, n, key)[i]
                < #[trigger] runs_of(events, n, key)[j],
        forall|i: int|
            0 <= i < runs_of(events, n, key).len() ==> 0 <= #[trigger] runs_of(events, n, key)[i] < n,
    decreases n,
{
    if n > 0 {
        let before = runs_of(events, (n - 1) as nat, key);
        let now = runs_of(events, n, key);
        law_runs_are_kernel_events(events, (n - 1) as nat, key);
        assert forall|p: int| #[trigger] now.contains(p) <==> 0 <= p < n && is_kernel(events[p])
            && kernel_key(events, events[p]) == key by {
            if before.contains(p) {
                assert(now[before.index_of(p)] == p);
            }
            if now.contains(p) {
                let i = now.index_of(p);
                if i < before.len() {
                    assert(before[i] == p);
                    assert(before.contains(p));
                }
            }
            if p == n - 1 && is_kernel(events[p]) && kernel_key(events, events[p]) == key {
                assert(now[before.len() as int] == p);
            }
        }
        assert forall|i: int| 0 <= i < now.len() implies 0 <= #[trigger] now[i] < n by {
            if i < before.len() {
                assert(now[i] == before[i]);
            }
        }
        assert forall|i: int, j: int| 0 <= i < j < now.len() implies #[trigger] now[i]
            < #[trigger] now[j] by {
            assert(now[i] == before[i]);
            if j < before.len() {
                assert(now[j] == before[j]);
            }
        }
    }
}

/// Every kernel event counts once: among the runs of the kernel that it ran, which is listed, and
/// among those of no other.
pub proof fn law_kernel_event_counts_once(events: Seq<EventModel>, p: int, key: KernelKey)
    requires
        0 <= p < events.len(),
        is_kernel(events[p]),
    ensures
        runs_of(events, events.len(), key).contains(p) <==> key == kernel_key(events, events[p]),
        kernel_keys(events, events.len()).contains(kernel_key(events, events[p])),
{
    let own = kernel_key(events, events[p]);
    law_runs_are_kernel_events(events, events.len(), key);
    law_runs_are_kernel_events(events, events.len(), own);
    law_kernels_are_those_that_ran(events, events.len());
    assert(runs_of(events, events.len(), own).contains(p));
}

proof fn lemma_last_launch(events: Seq<EventModel>, n: int, i: int, correlation: u64, external: u64)
    requires
        0 <= i < n <= events.len(),
        launch(events[i]) == Some((correlation, external)),
        forall|k: int|
            i < k < events.len() ==> (launch(#[trigger] events[k]) matches Some((c, _)) ==> c
                != correlation),
    ensures
        external_ids(events.take(n)).contains_key(correlation),
        external_ids(events.take(n))[correlation] == external,
    decreases n,
{
    let head = events.take(n);
    assert(head.drop_last() == events.take(n - 1));
    assert(head.last() == events[n - 1]);
    if i < n - 1 {
        lemma_last_launch(events, n - 1, i, correlation, external);
    }
}

proof fn lemma_last_operator(events: Seq<EventModel>, n: int, i: int, external: u64, shapes: Seq<char>)
    requires
        0 <= i < n <= events.len(),
        operator(events[i]) == Some((external, shapes)),
        forall|k: int|
            i < k < events.len() ==> (operator(#[trigger] events[k]) matches Some((x, _)) ==> x
                != external),
    ensures
        operator_shapes(events.take(n)).contains_key(external),
        operator_shapes(events.take(n))[external] == shapes,
    decreases n,
{
    let head = events.take(n);
    assert(head.drop_last() == events.take(n - 1));
    assert(head.last() == events[n - 1]);
    if i < n - 1 {
        lemma_last_operator(events, n - 1, i, external, shapes);
    }
}

/// The input shapes of a kernel are found through the chain of ids: its correlation id leads to
/// the last launch with that id, whose external id leads to the last operator with that id.
pub proof fn law_shapes_follow_the_chain(
    events: Seq<EventModel>,
    e: EventModel,
    correlation: u64,
    i: int,
    external: u64,
    j: int,
    shapes: Seq<char>,
)
    requires
        argument(e, "correlation"@) == Some(correlation),
        0 <= i < events.len(),
        launch(events[i]) == Some((correlation, external)),
        forall|k: int|
            i < k < events.len() ==> (launch(#[trigger] events[k]) matches Some((c, _)) ==> c
                != correlation),
        0 <= j < events.len(),
        operator(events[j]) == Some((external, shapes)),
        forall|k: int|
            j < k < events.len() ==> (operator(#[trigger] events[k]) matches Some((x, _)) ==> x
                != external),
    ensures
        kernel_key(events, e).input_shapes == shapes,
{
    assert(events.take(events.len() as int) == events);
    lemma_last_launch(events, events.len() as int, i, correlation, external);
    lemma_last_operator(events, events.len() as int, j, external, shapes);
}

/// Where an external id comes from: an event that launches with that correlation id.
proof fn lemma_launch_behind(events: Seq<EventModel>, correlation: u64)
    requires
        external_ids(events).contains_key(correlation),
    ensures
        exists|i: int|
            0 <= i < events.len() && launch(#[trigger] events[i]) == Some(
                (correlation, external_ids(events)[correlation]),
            ),
    decreases events.len(),
{
    let head = events.drop_last();
    let own = match launch(events.last()) {
        Some((c, _)) => c == correlation,
        None => false,
    };
    if own {
        assert(launch(events[events.len() - 1]) == Some(
            (correlation, external_ids(events)[correlation]),
        ));
    } else {
        lemma_launch_behind(head, correlation);
        let i = choose|i: int|
            0 <= i < head.len() && launch(#[trigger] head[i]) == Some(
                (correlation, external_ids(head)[correlation]),
            );
        assert(events[i] == head[i]);
    }
}

/// Where input shapes come from: an operator with that external id.
proof fn lemma_operator_behind(events: Seq<EventModel>, external: u64)
    requires
        operator_shapes(events).contains_key(external),
    ensures
        exists|i: int|
            0 <= i < events.len() && operator(#[trigger] events[i]) == Some(
                (external, operator_shapes(events)[external]),
            ),
    decreases events.len(),
{
    let head = events.drop_last();
    let own = match operator(events.last()) {
        Some((x, _)) => x == external,
        None => false,
    };
    if own {
        assert(operator(events[events.len() - 1]) == Some(
            (external, operator_shapes(events)[external]),
        ));
    } else {
        lemma_operator_behind(head, external);
        let i = choose|i: int|
            0 <= i < head.len() && operator(#[trigger] head[i]) == Some(
                (external, operator_shapes(head)[external]),
            );
        assert(events[i] == head[i]);
    }
}

/// Only CPU operators record input shapes: an event of another category, or of none, adds nothing to
/// those that are known.
pub proof fn law_only_cpu_operators_record_shapes(events: Seq<EventModel>, e: EventModel)
    requires
        e.cat != Some("cpu_op"@),
    ensures
        operator(e) is None,
        operator_shapes(events.push(e)) == operator_shapes(events),
{
    assert(events.push(e).drop_last() =~= events);
}

/// Whether a launch and an operator link a correlation id to input shapes.
pub open spec fn linked(
    correlation: u64,
    runtime: EventModel,
    op: EventModel,
    shapes: Seq<char>,
) -> bool {
    launch(runtime) matches Some((c, external)) && c == correlation && operator(op) == Some(
        (external, shapes),
    )
}

/// Input shapes are never made up: those of a kernel are recorded by an operator that a launch links
/// to the kernel's correlation id. Where there is no correlation id, or nothing is linked to it, the
/// kernel has none.
pub proof fn law_shapes_come_from_the_chain(events: Seq<EventModel>, e: EventModel)
    ensures
        argument(e, "correlation"@) is None ==> kernel_key(events, e).input_shapes.len() == 0,
        kernel_key(events, e).input_shapes.len() > 0 ==> exists|i: int, j: int|
            0 <= i < events.len() && 0 <= j < events.len() && linked(
                argument(e, "correlation"@)->0,
                #[trigger] events[i],
                #[trigger] events[j],
                kernel_key(events, e).input_shapes,
            ),
{
    if kernel_key(events, e).input_shapes.len() > 0 {
        let correlation = argument(e, "correlation"@)->0;
        let external = external_ids(events)[correlation];
        lemma_launch_behind(events, correlation);
        lemma_operator_behind(events, external);
        let i = choose|i: int|
            0 <= i < events.len() && launch(#[trigger] events[i]) == Some((correlation, external));
        let j = choose|j: int|
            0 <= j < events.len() && operator(#[trigger] events[j]) == Some(
                (external, operator_shapes(events)[external]),
            );
        assert(linked(correlation, events[i], events[j], kernel_key(events, e).input_shapes));
    }
}

// ---------------------------------------------------------------------------------------------
// Computing them

fn holds(s: &Option<String>, t: &str) -> (r: bool)
    ensures
        r == (text_in(*s) == Some(t@)),
{
    match s {
        Some(u) => text::same(u.as_str(), t),
        None => false,
    }
}

fn read_argument(e: &TraceEvent, key: &str) -> (r: Option<u64>)
    ensures
        r == argument(e@, key@),
{
    match &e.args {
        Some(args) => match args.get(key) {
            Some(v) => v.as_u64(),
            None => None,
        },
        None => None,
    }
}

fn read_launch(e: &TraceEvent) -> (r: Option<(u64, u64)>)
    ensures
        r == launch(e@),
{
    if holds(&e.cat, "cuda_runtime") || holds(&e.cat, "cuda_driver") {
        match (read_argument(e, "correlation"), read_argument(e, "External id")) {
            (Some(correlation), Some(external)) => Some((correlation, external)),
            _ => None,
        }
    } else {
        None
    }
}

fn read_dims(e: &TraceEvent) -> (r: Option<String>)
    ensures
        match r {
            Some(s) => recorded_dims(e@) matches Some(dims) && s@ == kernels::dimensions_text(dims),
            None => recorded_dims(e@) is None,
        },
{
    match &e.args {
        Some(args) => match args.get("Input Dims") {
            Some(dims) => Some(kernels::format_input_dims(dims)),
            None => match args.get("Input dims") {
                Some(dims) => Some(kernels::format_input_dims(dims)),
                None => None,
            },
        },
        None => None,
    }
}

fn read_operator(e: &TraceEvent) -> (r: Option<(u64, String)>)
    ensures
        match r {
            Some((external, shapes)) => operator(e@) == Some((external, shapes@)),
            None => operator(e@) is None,
        },
{
    if holds(&e.cat, "cpu_op") && (holds(&e.ph, "X") || holds(&e.ph, "B")) {
        match (read_argument(e, "External id"), read_dims(e)) {
            (Some(external), Some(shapes)) => if shapes.as_str().is_empty() {
                None
            } else {
                Some((external, shapes))
            },
            _ => None,
        }
    } else {
        None
    }
}

/// Whether a map holds the texts of a model.
spec fn holds_texts(m: Map<u64, String>, model: Map<u64, Seq<char>>) -> bool {
    &&& m.dom() == model.dom()
    &&& forall|k: u64| m.contains_key(k) ==> (#[trigger] m[k])@ == model[k]
}

fn collect_external_ids(trace: &ChromeTrace) -> (r: HashMap<u64, u64>)
    ensures
        r@ == external_ids(trace@),
{
    let ghost all = trace@;
    let mut m: HashMap<u64, u64> = HashMap::new();
    for i in 0..trace.trace_events.len()
        invariant
            all == trace@,
            m@ == external_ids(all.take(i as int)),
    {
        proof {
            assert(all.take(i + 1).drop_last() == all.take(i as int));
            assert(all.take(i + 1).last() == trace.trace_events@[i as int]@);
        }
        match read_launch(&trace.trace_events[i]) {
            Some((correlation, external)) => {
                m.insert(correlation, external);
            },
            None => {},
        }
    }
    assert(all.take(all.len() as int) == all);
    m
}

fn collect_shapes(trace: &ChromeTrace) -> (r: HashMap<u64, String>)
    ensures
        holds_texts(r@, operator_shapes(trace@)),
{
    let ghost all = trace@;
    let mut m: HashMap<u64, String> = HashMap::new();
    assert(m@.dom() =~= operator_shapes(all.take(0)).dom());
    for i in 0..trace.trace_events.len()
        invariant
            all == trace@,
            holds_texts(m@, operator_shapes(all.take(i as int))),
    {
        proof {
            assert(all.take(i + 1).drop_last() == all.take(i as int));
            assert(all.take(i + 1).last() == trace.trace_events@[i as int]@);
        }
        match read_operator(&trace.trace_events[i]) {
            Some((external, shapes)) => {
                m.insert(external, shapes);
                assert(m@.dom() =~= operator_shapes(all.take(i + 1)).dom());
            },
            None => {},
        }
    }
    assert(all.take(all.len() as int) == all);
    m
}

fn read_grid(e: &TraceEvent) -> (r: String)
    ensures
        r@ == grid_text(e@),
{
    match &e.args {
        Some(args) => match args.get("grid") {
            Some(grid) => kernels::format_value(grid),
            None => String::new(),
        },
        None => String::new(),
    }
}

fn read_shapes(
    e: &TraceEvent,
    external: &HashMap<u64, u64>,
    shapes: &HashMap<u64, String>,
    Ghost(events): Ghost<Seq<EventModel>>,
) -> (r: String)
    requires
        external@ == external_ids(events),
        holds_texts(shapes@, operator_shapes(events)),
    ensures
        r@ == resolved_shapes(events, e@),
{
    match read_argument(e, "correlation") {
        Some(correlation) => match external.get(&correlation) {
            Some(id) => match shapes.get(id) {
                Some(s) => s.clone(),
                None => String::new(),
            },
            None => String::new(),
        },
        None => String::new(),
    }
}

fn read_kernel(
    e: &TraceEvent,
    external: &HashMap<u64, u64>,
    shapes: &HashMap<u64, String>,
    Ghost(events): Ghost<Seq<EventModel>>,
) -> (r: KernelId)
    requires
        external@ == external_ids(events),
        holds_texts(shapes@, operator_shapes(events)),
    ensures
        r@ == kernel_key(events, e@),
{
    let name = match &e.name {
        Some(name) => name.clone(),
        None => text::copy_of("unknown"),
    };
    let grid = read_grid(e);
    let input_shapes = read_shapes(e, external, shapes, Ghost(events));
    KernelId { name, grid, input_shapes }
}

/// Whether the kernels found among the first `n` events are those that these events ran.
spec fn found_so_far(found: Seq<KernelRuns>, events: Seq<EventModel>, n: nat) -> bool {
    &&& kernels::keys_in(found) == kernel_keys(events, n)
    &&& forall|i: int|
        0 <= i < found.len() ==> order::positions((#[trigger] found[i]).events@) == runs_of(
            events,
            n,
            found[i].id@,
        )
}

fn add_run(found: &mut Vec<KernelRuns>, id: KernelId, p: usize, Ghost(events): Ghost<Seq<EventModel>>)
    requires
        p < events.len(),
        is_kernel(events[p as int]),
        id@ == kernel_key(events, events[p as int]),
        found_so_far(old(found)@, events, p as nat),
    ensures
        found_so_far(final(found)@, events, (p + 1) as nat),
{
    let ghost keys = kernel_keys(events, p as nat);
    proof {
        law_kernels_are_those_that_ran(events, p as nat);
    }
    let (at, present) = kernels::locate(found, &id);
    if present {
        proof {
            kernels::lemma_insert_present(keys, at as int);
        }
        let ghost before = found@;
        found[at].events.push(p);
        proof {
            assert(kernels::keys_in(found@) =~= keys);
            assert forall|i: int| 0 <= i < found@.len() implies order::positions(
                (#[trigger] found@[i]).events@,
            ) == runs_of(events, (p + 1) as nat, found@[i].id@) by {
                if i == at {
                    assert(order::positions(found@[i].events@) =~= order::positions(
                        before[i].events@,
                    ).push(p as int));
                } else {
                    assert(found@[i] == before[i]);
                    if i < at {
                        assert(kernels::key_less(keys[i], keys[at as int]));
                        kernels::lemma_key_asymmetric(keys[i], keys[at as int]);
                    } else {
                        assert(kernels::key_less(keys[at as int], keys[i]));
                        kernels::lemma_key_asymmetric(keys[at as int], keys[i]);
                    }
                    assert(kernels::keys_in(before)[i] == keys[i]);
                }
            }
        }
    } else {
        proof {
            kernels::lemma_insert_key(keys, id@, at as int);
            assert(!keys.contains(id@)) by {
                if keys.contains(id@) {
                    let j = keys.index_of(id@);
                    if j < at {
                        kernels::lemma_key_asymmetric(keys[j], id@);
                    } else {
                        kernels::lemma_key_asymmetric(id@, keys[j]);
                    }
                }
            }
            assert(runs_of(events, p as nat, id@).len() == 0);
        }
        let ghost before = found@;
        let ghost key = id@;
        let mut runs: Vec<usize> = Vec::new();
        runs.push(p);
        let ghost added = KernelRuns { id, events: runs };
        found.insert(at, KernelRuns { id, events: runs });
        proof {
            assert(found@ == before.insert(at as int, added));
            assert(kernels::keys_in(found@) =~= keys.insert(at as int, key));
            assert forall|i: int| 0 <= i < found@.len() implies order::positions(
                (#[trigger] found@[i]).events@,
            ) == runs_of(events, (p + 1) as nat, found@[i].id@) by {
                if i == at {
                    assert(order::positions(found@[i].events@) =~= seq![p as int]);
                    assert(runs_of(events, p as nat, key) =~= seq![]);
                    assert(runs_of(events, (p + 1) as nat, key) =~= seq![p as int]);
                } else {
                    let k = if i < at {
                        i
                    } else {
                        i - 1
                    };
                    assert(found@[i] == before[k]);
                    assert(kernels::keys_in(before)[k] == keys[k]);
                    assert(keys.contains(keys[k]));
                }
            }
        }
    }
}

/// Extracts the GPU kernel events of a trace: the kernels in their order, each with the positions
/// of the events that ran it.
///
/// Input parameter shapes live on CPU-side operator events and are resolved via a chain of ids:
///   kernel `correlation` -> cuda_runtime or cuda_driver `correlation`
///   -> its `External id` -> cpu_op `External id` -> `Input Dims`
///
/// Events of any other category record no shapes, whatever ids they carry.
pub fn parse_trace(trace: &ChromeTrace) -> (r: Vec<KernelRuns>)
    ensures
        runs_in(r@) == trace_kernels(trace@),
{
    let external = collect_external_ids(trace);
    let shapes = collect_shapes(trace);
    let ghost all = trace@;
    let mut found: Vec<KernelRuns> = Vec::new();
    assert(kernels::keys_in(found@) =~= kernel_keys(all, 0));
    for i in 0..trace.trace_events.len()
        invariant
            all == trace@,
            external@ == external_ids(all),
            holds_texts(shapes@, operator_shapes(all)),
            found_so_far(found@, all, i as nat),
    {
        let e = &trace.trace_events[i];
        assert(all[i as int] == e@);
        if holds(&e.cat, "kernel") && holds(&e.ph, "X") {
            let id = read_kernel(e, &external, &shapes, Ghost(all));
            add_run(&mut found, id, i, Ghost(all));
        }
    }
    proof {
        let want = trace_kernels(all);
        assert forall|i: int| 0 <= i < want.len() implies runs_in(found@)[i] == want[i] by {
            assert(kernels::keys_in(found@)[i] == found@[i].id@);
        }
        assert(runs_in(found@) =~= want);
    }
    found
}

// ---------------------------------------------------------------------------------------------
// What a parsed trace says

/// What is found in the arguments of an event: the whole number from zero on under that name.
pub proof fn law_argument_is_read_by_name(e: EventModel, key: Seq<char>, n: u64)
    ensures
        argument(e, key) == Some(n) <==> e.args is Some && e.args->0.get(key) == Some(
            JsonModel::Number(json::NumberModel::PosInt(n)),
        ),
{
}

/// An event links a correlation id to an external id exactly if it is of the CUDA runtime or driver,
/// and its arguments hold both as whole numbers from zero on.
pub proof fn law_launch_holds_both_ids(e: EventModel, correlation: u64, external: u64)
    ensures
        launch(e) == Some((correlation, external)) <==> ((e.cat == Some("cuda_runtime"@) || e.cat == Some(
            "cuda_driver"@,
        )) && e.args is Some && e.args->0.get("correlation"@) == Some(
            JsonModel::Number(json::NumberModel::PosInt(correlation)),
        ) && e.args->0.get("External id"@) == Some(
            JsonModel::Number(json::NumberModel::PosInt(external)),
        )),
{
    law_argument_is_read_by_name(e, "correlation"@, correlation);
    law_argument_is_read_by_name(e, "External id"@, external);
}

/// An event records the shapes of an external id exactly if it is a CPU operator that is complete or
/// begins, and its arguments hold that id and dimensions whose text is those shapes. `Input Dims` is
/// looked at first, and `Input dims` only where it is missing.
pub proof fn law_operator_holds_id_and_dims(e: EventModel, external: u64, shapes: Seq<char>)
    ensures
        operator(e) == Some((external, shapes)) <==> (e.cat == Some("cpu_op"@) && (e.ph == Some("X"@)
            || e.ph == Some("B"@)) && (e.args is Some) && e.args->0.get("External id"@) == Some(
            JsonModel::Number(json::NumberModel::PosInt(external)),
        ) && (shapes.len() != 0) && ((e.args->0.get("Input Dims"@) is Some && shapes
            == kernels::dimensions_text(e.args->0.get("Input Dims"@)->0)) || (e.args->0.get(
            "Input Dims"@,
        ) is None && e.args->0.get("Input dims"@) is Some && shapes == kernels::dimensions_text(
            e.args->0.get("Input dims"@)->0,
        )))),
{
    law_argument_is_read_by_name(e, "External id"@, external);
}

/// A kernel whose correlation id no launch carries has no shapes.
pub proof fn law_unlaunched_kernel_has_no_shapes(
    events: Seq<EventModel>,
    e: EventModel,
    correlation: u64,
)
    requires
        argument(e, "correlation"@) == Some(correlation),
        forall|k: int|
            0 <= k < events.len() ==> (launch(#[trigger] events[k]) matches Some((c, _)) ==> c
                != correlation),
    ensures
        kernel_key(events, e).input_shapes.len() == 0,
{
    if external_ids(events).contains_key(correlation) {
        lemma_launch_behind(events, correlation);
    }
}

/// Where the last launch with a kernel's correlation id leads to an external id that no operator
/// records shapes of, the kernel has none, whatever earlier launches lead to.
pub proof fn law_unrecorded_kernel_has_no_shapes(
    events: Seq<EventModel>,
    e: EventModel,
    correlation: u64,
    i: int,
    external: u64,
)
    requires
        argument(e, "correlation"@) == Some(correlation),
        0 <= i < events.len(),
        launch(events[i]) == Some((correlation, external)),
        forall|k: int|
            i < k < events.len() ==> (launch(#[trigger] events[k]) matches Some((c, _)) ==> c
                != correlation),
        forall|k: int|
            0 <= k < events.len() ==> (operator(#[trigger] events[k]) matches Some((x, _)) ==> x
                != external),
    ensures
        kernel_key(events, e).input_shapes.len() == 0,
{
    assert(events.take(events.len() as int) == events);
    lemma_last_launch(events, events.len() as int, i, correlation, external);
    if operator_shapes(events).contains_key(external) {
        lemma_operator_behind(events, external);
    }
}

/// The grid of a kernel is what its arguments hold under `grid`, and nothing else of them: without
/// that there is none, and events with the same `grid` have the same grid.
pub proof fn law_grid_is_the_grid_argument(events: Seq<EventModel>, e: EventModel, f: EventModel)
    ensures
        e.args is Some && e.args->0.get("grid"@) is Some ==> kernel_key(events, e).grid
            == kernels::value_text(e.args->0.get("grid"@)->0),
        e.args is None || e.args->0.get("grid"@) is None ==> kernel_key(events, e).grid.len() == 0,
        e.args is Some && f.args is Some && e.args->0.get("grid"@) == f.args->0.get("grid"@)
            ==> kernel_key(events, e).grid == kernel_key(events, f).grid,
{
}

/// What parsing finds of a kernel event: it counts for exactly one kernel, whose name is that of the
/// event, or `unknown`, whose grid is that of its `grid` argument, and whose shapes are those that
/// the ids lead to.
pub proof fn law_kernel_event_is_found(events: Seq<EventModel>, p: int)
    requires
        0 <= p < events.len(),
        events[p].cat == Some("kernel"@),
        events[p].ph == Some("X"@),
    ensures
        exists|i: int|
            0 <= i < trace_kernels(events).len() && {
                let found = #[trigger] trace_kernels(events)[i];
                &&& found.events.contains(p)
                &&& found.id.name == match events[p].name {
                    Some(name) => name,
                    None => "unknown"@,
                }
                &&& events[p].args is Some && events[p].args->0.get("grid"@) is Some ==> found.id.grid
                    == kernels::value_text(events[p].args->0.get("grid"@)->0)
                &&& events[p].args is None || events[p].args->0.get("grid"@) is None
                    ==> found.id.grid.len() == 0
                &&& found.id.input_shapes == kernel_key(events, events[p]).input_shapes
            },
        forall|i: int, j: int|
            0 <= i < trace_kernels(events).len() && 0 <= j < trace_kernels(events).len()
                && (#[trigger] trace_kernels(events)[i]).events.contains(p) && (
            #[trigger] trace_kernels(events)[j]).events.contains(p) ==> i == j,
{
    let n = events.len();
    let key = kernel_key(events, events[p]);
    let keys = kernel_keys(events, n);
    law_kernels_are_those_that_ran(events, n);
    law_runs_are_kernel_events(events, n, key);
    law_kernel_event_counts_once(events, p, key);
    let at = keys.index_of(key);
    assert(trace_kernels(events)[at].id == key);
    assert(trace_kernels(events)[at].events.contains(p));
    assert forall|i: int, j: int|
        0 <= i < trace_kernels(events).len() && 0 <= j < trace_kernels(events).len()
            && (#[trigger] trace_kernels(events)[i]).events.contains(p) && (
        #[trigger] trace_kernels(events)[j]).events.contains(p) implies i == j by {
        law_runs_are_kernel_events(events, n, keys[i]);
        law_runs_are_kernel_events(events, n, keys[j]);
        assert(keys[i] == key && keys[j] == key);
        if i < j {
            assert(kernels::key_less(keys[i], keys[j]));
            kernels::lemma_key_asymmetric(keys[i], keys[j]);
        }
        if j < i {
            assert(kernels::key_less(keys[j], keys[i]));
            kernels::lemma_key_asymmetric(keys[j], keys[i]);
        }
    }
}

/// Nothing else is found: what counts for a kernel is a complete event of the category `kernel`. Each
/// kernel that is found has such events, in the order of the trace, and kernels come in their order.
pub proof fn law_only_kernel_events_are_found(events: Seq<EventModel>, i: int)
    requires
        0 <= i < trace_kernels(events).len(),
    ensures
        trace_kernels(events)[i].events.len() > 0,
        forall|k: int|
            0 <= k < trace_kernels(events)[i].events.len() ==> {
                let p = #[trigger] trace_kernels(events)[i].events[k];
                &&& 0 <= p < events.len()
                &&& events[p].cat == Some("kernel"@)
                &&& events[p].ph == Some("X"@)
                &&& k > 0 ==> trace_kernels(events)[i].events[k - 1] < p
            },
        forall|j: int|
            0 <= j < i ==> kernels::key_less(
                (#[trigger] trace_kernels(events)[j]).id,
                trace_kernels(events)[i].id,
            ),
{
    let n = events.len();
    let keys = kernel_keys(events, n);
    law_kernels_are_those_that_ran(events, n);
    law_runs_are_kernel_events(events, n, keys[i]);
    assert(keys.contains(keys[i]));
    let runs = runs_of(events, n, keys[i]);
    assert(trace_kernels(events)[i].events == runs);
    assert forall|k: int| 0 <= k < runs.len() implies {
        let p = #[trigger] runs[k];
        &&& 0 <= p < events.len()
        &&& events[p].cat == Some("kernel"@)
        &&& events[p].ph == Some("X"@)
        &&& k > 0 ==> runs[k - 1] < p
    } by {
        assert(runs.contains(runs[k]));
        if k > 0 {
            assert(runs[k - 1] < runs[k]);
        }
    }
    assert forall|j: int| 0 <= j < i implies kernels::key_less(
        (#[trigger] trace_kernels(events)[j]).id,
        trace_kernels(events)[i].id,
    ) by {
        assert(kernels::key_less(keys[j], keys[i]));
    }
}

/// A trace as a document is an object of one field: `traceEvents`, an array of its events.
pub proof fn law_trace_is_its_events(events: Seq<JsonModel>, key: Seq<char>)
    ensures
        trace_of(events).get("traceEvents"@) == Some(JsonModel::Array(events)),
        key != "traceEvents"@ ==> trace_of(events).get(key) is None,
        trace_of(events) is Object,
        trace_of(events)->Object_0.len() == 1,
{
    let fields = trace_of(events)->Object_0;
    json::lemma_index_is_first(fields, "traceEvents"@);
    json::lemma_index_is_first(fields, key);
}

} // verus!
