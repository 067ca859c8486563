//! Converting an nsys report to a Chrome trace.
//!
//! A report is a database of activity records. The records come as rows of whole numbers; the
//! times of an activity stay whole nanoseconds until the trace is written.

use std::collections::HashMap;
use vstd::prelude::*;
use crate::events;
use crate::json;
use crate::json::{Json, JsonModel, JsonNumber, NumberModel};
use crate::order;
use crate::text;

verus! {

broadcast use vstd::std_specs::hash::group_hash_axioms;

// ---------------------------------------------------------------------------------------------
// Rows

/// A kernel that ran on a device.
#[derive(Debug, Clone, Copy)]
pub struct KernelRow {
    pub start: i64,
    pub end: i64,
    pub device_id: i64,
    pub stream_id: i64,
    pub correlation_id: i64,
    pub demangled: i64,
    pub short: i64,
    pub grid_x: i64,
    pub grid_y: i64,
    pub grid_z: i64,
    pub block_x: i64,
    pub block_y: i64,
    pub block_z: i64,
    pub static_sm: i64,
    pub dynamic_sm: i64,
    pub regs: i64,
}

/// A call of the runtime.
#[derive(Debug, Clone, Copy)]
pub struct RuntimeRow {
    pub start: i64,
    pub end: i64,
    pub global_tid: i64,
    pub correlation_id: i64,
    pub name_id: i64,
}

/// A copy of memory.
#[derive(Debug, Clone, Copy)]
pub struct MemcpyRow {
    pub start: i64,
    pub end: i64,
    pub device_id: i64,
    pub stream_id: i64,
    pub correlation_id: i64,
    pub bytes: i64,
    pub copy_kind: i64,
}

/// A fill of memory.
#[derive(Debug, Clone, Copy)]
pub struct MemsetRow {
    pub start: i64,
    pub end: i64,
    pub device_id: i64,
    pub stream_id: i64,
    pub correlation_id: i64,
    pub bytes: i64,
    pub value: i64,
}

/// An annotated range that has ended.
#[derive(Debug, Clone, Copy)]
pub struct NvtxRow {
    pub start: i64,
    pub end: i64,
    pub text_id: Option<i64>,
    pub global_tid: i64,
}

// ---------------------------------------------------------------------------------------------
// Names

/// The texts that a table of strings gives to ids: where an id comes twice, the last.
pub open spec fn string_table(rows: Seq<(i64, Seq<char>)>) -> Map<i64, Seq<char>>
    decreases rows.len(),
{
    if rows.len() == 0 {
        Map::empty()
    } else {
        string_table(rows.drop_last()).insert(rows.last().0, rows.last().1)
    }
}

/// The rows of a table of strings.
pub open spec fn string_rows(rows: Seq<(i64, String)>) -> Seq<(i64, Seq<char>)> {
    Seq::new(rows.len(), |i: int| (rows[i].0, rows[i].1@))
}

/// The texts that a map of strings gives to ids.
pub open spec fn names_in(strings: Map<i64, String>) -> Map<i64, Seq<char>> {
    Map::new(|id: i64| strings.dom().contains(id), |id: i64| strings[id]@)
}

/// The text that a table gives to an id.
pub open spec fn text_of(table: Map<i64, Seq<char>>, id: i64) -> Option<Seq<char>> {
    if table.dom().contains(id) {
        Some(table[id])
    } else {
        None
    }
}

/// Loads the table of strings.
pub fn load_strings(rows: Vec<(i64, String)>) -> (r: HashMap<i64, String>)
    ensures
        names_in(r@) == string_table(string_rows(rows@)),
{
    let ghost all = rows@;
    let ghost models = string_rows(all);
    let mut strings: HashMap<i64, String> = HashMap::new();
    assert(names_in(strings@) =~= string_table(models.take(0)));
    for row in it: rows
        invariant
            it.seq() == all,
            models == string_rows(all),
            names_in(strings@) == string_table(models.take(it.index())),
    {
        let ghost before = names_in(strings@);
        let ghost n = it.index();
        let ghost model = row.1@;
        let (id, value) = row;
        proof {
            assert(models.take(n + 1).drop_last() =~= models.take(n));
            assert(models.take(n + 1).last() == (id, model));
        }
        strings.insert(id, value);
        assert(names_in(strings@) =~= before.insert(id, model));
    }
    assert(models.take(models.len() as int) =~= models);
    strings
}

/// The text of an id in decimal behind a prefix.
pub open spec fn numbered(prefix: Seq<char>, id: i64) -> Seq<char> {
    prefix + "_"@ + text::signed_decimal(id as int)
}

/// The text of an id in decimal behind a prefix.
fn numbered_name(prefix: &str, id: i64) -> (r: String)
    ensures
        r@ == numbered(prefix@, id),
{
    let mut r = text::copy_of(prefix);
    r.append("_");
    r.append(text::signed_text(id).as_str());
    r
}

/// The text that a map of strings gives to an id, if it gives one.
fn find_text(strings: &HashMap<i64, String>, id: i64) -> (r: Option<String>)
    ensures
        match r {
            Some(s) => text_of(names_in(strings@), id) == Some(s@),
            None => text_of(names_in(strings@), id) is None,
        },
{
    match strings.get(&id) {
        Some(s) => Some(s.clone()),
        None => None,
    }
}

/// The text of an id, or the prefix and the id where there is none.
pub open spec fn resolved(name: Option<Seq<char>>, prefix: Seq<char>, id: i64) -> Seq<char> {
    match name {
        Some(s) => s,
        None => numbered(prefix, id),
    }
}

/// Resolves the name of an id.
pub fn resolve_name(strings: &HashMap<i64, String>, id: i64, fallback_prefix: &str) -> (r: String)
    ensures
        r@ == resolved(text_of(names_in(strings@), id), fallback_prefix@, id),
{
    match find_text(strings, id) {
        Some(s) => s,
        None => numbered_name(fallback_prefix, id),
    }
}

/// The kind of a copy of memory.
pub open spec fn kind_name(kind: int) -> Seq<char> {
    if kind == 1 {
        "HtoD"@
    } else if kind == 2 {
        "DtoH"@
    } else if kind == 3 {
        "HtoH"@
    } else if kind == 4 {
        "DtoD"@
    } else if kind == 8 {
        "PtoP"@
    } else {
        "Unknown"@
    }
}

/// The kind of a copy of memory.
pub fn memcpy_kind_name(kind: i64) -> (r: &'static str)
    ensures
        r@ == kind_name(kind as int),
{
    match kind {
        1 => "HtoD",
        2 => "DtoH",
        3 => "HtoH",
        4 => "DtoD",
        8 => "PtoP",
        _ => "Unknown",
    }
}

// ---------------------------------------------------------------------------------------------
// Times and threads

/// The least of the timestamps, and `i64::MAX` at most.
pub open spec fn least(minima: Seq<Option<i64>>) -> int
    decreases minima.len(),
{
    if minima.len() == 0 {
        i64::MAX as int
    } else {
        let before = least(minima.drop_last());
        match minima.last() {
            Some(ts) => if ts < before {
                ts as int
            } else {
                before
            },
            None => before,
        }
    }
}

/// The timestamp at which a trace starts: the least of those of the tables, or zero where no
/// table has one.
pub open spec fn base_of(minima: Seq<Option<i64>>) -> int {
    if least(minima) == i64::MAX {
        0
    } else {
        least(minima)
    }
}

/// Finds the timestamp at which a trace starts, given the least timestamp of each table.
pub fn find_min_timestamp(minima: &[Option<i64>]) -> (r: i64)
    ensures
        r == base_of(minima@),
{
    let mut min_ts: i64 = i64::MAX;
    for i in 0..minima.len()
        invariant
            min_ts == least(minima@.take(i as int)),
    {
        assert(minima@.take(i + 1).drop_last() =~= minima@.take(i as int));
        assert(minima@.take(i + 1).last() == minima@[i as int]);
        if let Some(ts) = minima[i] {
            if ts < min_ts {
                min_ts = ts;
            }
        }
    }
    assert(minima@.take(minima@.len() as int) =~= minima@);
    if min_ts == i64::MAX {
        min_ts = 0;
    }
    min_ts
}

/// The process of a global thread id: its upper 32 bits, as a signed number.
pub open spec fn process_of(global_tid: int) -> int {
    global_tid / 0x1_0000_0000
}

/// The thread of a global thread id: its lower 32 bits, as a signed number.
pub open spec fn thread_of(global_tid: int) -> int {
    let low = global_tid % 0x1_0000_0000;
    if low < 0x8000_0000 {
        low
    } else {
        low - 0x1_0000_0000
    }
}

/// Splits a global thread id into its process and its thread.
pub fn split_global_tid(global_tid: i64) -> (r: (i32, i32))
    ensures
        r.0 == process_of(global_tid as int),
        r.1 == thread_of(global_tid as int),
{
    let high: i64 = (global_tid >> 32) & 0xFFFF_FFFF;
    let low: i64 = global_tid & 0xFFFF_FFFF;
    let pid = #[verifier::truncate] (high as i32);
    let tid = #[verifier::truncate] (low as i32);
    proof {
        assert(((global_tid >> 32) & 0xFFFF_FFFF) as i32 == global_tid >> 32) by (bit_vector);
        assert(global_tid == (global_tid >> 32) * 0x1_0000_0000 + (global_tid & 0xFFFF_FFFF))
            by (bit_vector);
        assert(0 <= (global_tid & 0xFFFF_FFFF) < 0x1_0000_0000) by (bit_vector);
        assert(low < 0x8000_0000 ==> low as i32 == low) by (bit_vector)
            requires
                0 <= low < 0x1_0000_0000,
        ;
        assert(low >= 0x8000_0000 ==> low as i32 == low - 0x1_0000_0000) by (bit_vector)
            requires
                0 <= low < 0x1_0000_0000,
        ;
    }
    (pid, tid)
}

/// A global thread id is made of its process and its thread and of nothing else.
pub proof fn law_global_tid_is_its_parts(a: i64, b: i64)
    requires
        process_of(a as int) == process_of(b as int),
        thread_of(a as int) == thread_of(b as int),
    ensures
        a == b,
{
}

// ---------------------------------------------------------------------------------------------
// Activities

/// An activity with its times in nanoseconds, the start counted from the start of the trace.
#[derive(Debug)]
pub struct Activity {
    pub cat: String,
    pub name: String,
    pub ts: i64,
    pub dur: i64,
    pub pid: i64,
    pub tid: i64,
    pub args: Option<Json>,
}

/// What an activity is.
pub struct ActivityModel {
    pub cat: Seq<char>,
    pub name: Seq<char>,
    pub ts: int,
    pub dur: int,
    pub pid: int,
    pub tid: int,
    pub args: Option<JsonModel>,
}

impl View for Activity {
    type V = ActivityModel;

    open spec fn view(&self) -> ActivityModel {
        ActivityModel {
            cat: self.cat@,
            name: self.name@,
            ts: self.ts as int,
            dur: self.dur as int,
            pid: self.pid as int,
            tid: self.tid as int,
            args: match self.args {
                Some(j) => Some(j@),
                None => None,
            },
        }
    }
}

/// The activities that a vector holds.
pub open spec fn activities(v: Seq<Activity>) -> Seq<ActivityModel> {
    Seq::new(v.len(), |i: int| v[i]@)
}

/// Whether a difference can be held.
pub open spec fn difference_fits(a: int, b: int) -> bool {
    i64::MIN <= a - b <= i64::MAX
}

/// Whether the times of a row can be held, counted from `base`.
pub open spec fn times_fit(start: int, end: int, base: int) -> bool {
    difference_fits(start, base) && difference_fits(end, start)
}

/// Tells whether the times of a row can be held, counted from `base`.
fn check_times(start: i64, end: i64, base: i64) -> (r: bool)
    ensures
        r == times_fit(start as int, end as int, base as int),
{
    start.checked_sub(base).is_some() && end.checked_sub(start).is_some()
}

/// The name of a kernel: its demangled name, its short name, or its number.
pub open spec fn kernel_name(
    demangled: Option<Seq<char>>,
    short: Option<Seq<char>>,
    id: i64,
) -> Seq<char> {
    match demangled {
        Some(s) => s,
        None => resolved(short, "kernel"@, id),
    }
}

/// Three numbers as a document.
pub open spec fn triple(x: i64, y: i64, z: i64) -> JsonModel {
    JsonModel::Array(seq![json::whole(x as int), json::whole(y as int), json::whole(z as int)])
}

/// The activity of a kernel.
pub open spec fn kernel_activity(
    row: KernelRow,
    table: Map<i64, Seq<char>>,
    base: int,
) -> ActivityModel {
    ActivityModel {
        cat: "kernel"@,
        name: kernel_name(text_of(table, row.demangled), text_of(table, row.short), row.demangled),
        ts: row.start - base,
        dur: row.end - row.start,
        pid: row.device_id as int,
        tid: row.stream_id as int,
        args: Some(
            JsonModel::Object(
                seq![
                    ("block"@, triple(row.block_x, row.block_y, row.block_z)),
                    ("correlation"@, json::whole(row.correlation_id as int)),
                    ("grid"@, triple(row.grid_x, row.grid_y, row.grid_z)),
                    ("registers_per_thread"@, json::whole(row.regs as int)),
                    ("shared_memory"@, json::whole(row.static_sm + row.dynamic_sm)),
                ],
            ),
        ),
    }
}

/// The activity of a call of the runtime.
pub open spec fn runtime_activity(
    row: RuntimeRow,
    table: Map<i64, Seq<char>>,
    base: int,
) -> ActivityModel {
    ActivityModel {
        cat: "cuda_runtime"@,
        name: resolved(text_of(table, row.name_id), "runtime"@, row.name_id),
        ts: row.start - base,
        dur: row.end - row.start,
        pid: process_of(row.global_tid as int),
        tid: thread_of(row.global_tid as int),
        args: Some(
            JsonModel::Object(
                seq![
                    ("External id"@, json::whole(row.correlation_id as int)),
                    ("correlation"@, json::whole(row.correlation_id as int)),
                ],
            ),
        ),
    }
}

/// The activity of a copy of memory.
pub open spec fn memcpy_activity(row: MemcpyRow, base: int) -> ActivityModel {
    ActivityModel {
        cat: "gpu_memcpy"@,
        name: "Memcpy "@ + kind_name(row.copy_kind as int),
        ts: row.start - base,
        dur: row.end - row.start,
        pid: row.device_id as int,
        tid: row.stream_id as int,
        args: Some(
            JsonModel::Object(
                seq![
                    ("bytes"@, json::whole(row.bytes as int)),
                    ("copy_kind"@, JsonModel::Str(kind_name(row.copy_kind as int))),
                    ("correlation"@, json::whole(row.correlation_id as int)),
                ],
            ),
        ),
    }
}

/// The activity of a fill of memory.
pub open spec fn memset_activity(row: MemsetRow, base: int) -> ActivityModel {
    ActivityModel {
        cat: "gpu_memset"@,
        name: "Memset"@,
        ts: row.start - base,
        dur: row.end - row.start,
        pid: row.device_id as int,
        tid: row.stream_id as int,
        args: Some(
            JsonModel::Object(
                seq![
                    ("bytes"@, json::whole(row.bytes as int)),
                    ("correlation"@, json::whole(row.correlation_id as int)),
                    ("value"@, json::whole(row.value as int)),
                ],
            ),
        ),
    }
}

/// The activity of an annotated range.
pub open spec fn nvtx_activity(
    row: NvtxRow,
    table: Map<i64, Seq<char>>,
    base: int,
) -> ActivityModel {
    ActivityModel {
        cat: "nvtx"@,
        name: match row.text_id {
            Some(id) => match text_of(table, id) {
                Some(s) => s,
                None => "nvtx"@,
            },
            None => "nvtx"@,
        },
        ts: row.start - base,
        dur: row.end - row.start,
        pid: process_of(row.global_tid as int),
        tid: thread_of(row.global_tid as int),
        args: None,
    }
}

/// Three numbers as a document.
fn make_triple(x: i64, y: i64, z: i64) -> (r: Json)
    ensures
        r@ == triple(x, y, z),
{
    let mut items: Vec<Json> = Vec::new();
    items.push(Json::from_i64(x));
    items.push(Json::from_i64(y));
    items.push(Json::from_i64(z));
    proof {
        json::lemma_array_view(items);
        assert(json::documents(items@) =~= triple(x, y, z)->Array_0);
    }
    Json::Array(items)
}

/// The activities of kernels.
pub open spec fn kernel_activities(
    rows: Seq<KernelRow>,
    table: Map<i64, Seq<char>>,
    base: int,
) -> Seq<ActivityModel> {
    Seq::new(rows.len(), |i: int| kernel_activity(rows[i], table, base))
}

/// The activities of calls of the runtime.
pub open spec fn runtime_activities(
    rows: Seq<RuntimeRow>,
    table: Map<i64, Seq<char>>,
    base: int,
) -> Seq<ActivityModel> {
    Seq::new(rows.len(), |i: int| runtime_activity(rows[i], table, base))
}

/// The activities of copies of memory.
pub open spec fn memcpy_activities(
    rows: Seq<MemcpyRow>,
    base: int,
) -> Seq<ActivityModel> {
    Seq::new(rows.len(), |i: int| memcpy_activity(rows[i], base))
}

/// The activities of fills of memory.
pub open spec fn memset_activities(
    rows: Seq<MemsetRow>,
    base: int,
) -> Seq<ActivityModel> {
    Seq::new(rows.len(), |i: int| memset_activity(rows[i], base))
}

/// The activities of annotated ranges.
pub open spec fn nvtx_activities(
    rows: Seq<NvtxRow>,
    table: Map<i64, Seq<char>>,
    base: int,
) -> Seq<ActivityModel> {
    Seq::new(rows.len(), |i: int| nvtx_activity(rows[i], table, base))
}

/// Whether what is computed of a kernel can be held.
pub open spec fn kernel_fits(row: KernelRow, base: int) -> bool {
    times_fit(row.start as int, row.end as int, base) && i64::MIN <= row.static_sm + row.dynamic_sm
        <= i64::MAX
}

/// Whether the times of a call of the runtime can be held.
pub open spec fn runtime_fits(row: RuntimeRow, base: int) -> bool {
    times_fit(row.start as int, row.end as int, base)
}

/// Whether the times of a copy of memory can be held.
pub open spec fn memcpy_fits(row: MemcpyRow, base: int) -> bool {
    times_fit(row.start as int, row.end as int, base)
}

/// Whether the times of a fill of memory can be held.
pub open spec fn memset_fits(row: MemsetRow, base: int) -> bool {
    times_fit(row.start as int, row.end as int, base)
}

/// Whether the times of an annotated range can be held.
pub open spec fn nvtx_fits(row: NvtxRow, base: int) -> bool {
    times_fit(row.start as int, row.end as int, base)
}

/// One more activity is the next of those that are appended.
proof fn lemma_one_appended(
    first: Seq<ActivityModel>,
    events: Seq<Activity>,
    event: Activity,
    added: Seq<ActivityModel>,
    i: int,
)
    requires
        0 <= i < added.len(),
        activities(events) == first + added.take(i),
        event@ == added[i],
    ensures
        activities(events.push(event)) == first + added.take(i + 1),
{
    assert(activities(events.push(event)) =~= activities(events).push(event@));
    assert(added.take(i + 1) =~= added.take(i).push(event@));
}

/// The activity of a kernel.
fn make_kernel(row: &KernelRow, strings: &HashMap<i64, String>, min_ts: i64) -> (r: Activity)
    requires
        kernel_fits(*row, min_ts as int),
    ensures
        r@ == kernel_activity(*row, names_in(strings@), min_ts as int),
{
    let name = match find_text(strings, row.demangled) {
        Some(s) => s,
        None => match find_text(strings, row.short) {
            Some(s) => s,
            None => numbered_name("kernel", row.demangled),
        },
    };
    let mut args: Vec<(String, Json)> = Vec::new();
    args.push((text::copy_of("block"), make_triple(row.block_x, row.block_y, row.block_z)));
    args.push((text::copy_of("correlation"), Json::from_i64(row.correlation_id)));
    args.push((text::copy_of("grid"), make_triple(row.grid_x, row.grid_y, row.grid_z)));
    args.push((text::copy_of("registers_per_thread"), Json::from_i64(row.regs)));
    args.push((text::copy_of("shared_memory"), Json::from_i64(row.static_sm + row.dynamic_sm)));
    proof {
        let model = kernel_activity(*row, names_in(strings@), min_ts as int);
        json::lemma_object_view(args);
        assert(json::fields_of(args@) =~= model.args->0->Object_0);
    }
    Activity {
        cat: text::copy_of("kernel"),
        name,
        ts: row.start - min_ts,
        dur: row.end - row.start,
        pid: row.device_id,
        tid: row.stream_id,
        args: Some(Json::Object(args)),
    }
}

/// Appends the activities of kernels.
pub fn append_kernel_events(
    rows: &[KernelRow],
    strings: &HashMap<i64, String>,
    min_ts: i64,
    events: &mut Vec<Activity>,
)
    requires
        forall|i: int| 0 <= i < rows@.len() ==> kernel_fits(#[trigger] rows@[i], min_ts as int),
    ensures
        activities(final(events)@) == activities(old(events)@) + kernel_activities(
            rows@,
            names_in(strings@),
            min_ts as int,
        ),
{
    let ghost added = kernel_activities(rows@, names_in(strings@), min_ts as int);
    for i in 0..rows.len()
        invariant
            forall|j: int| 0 <= j < rows@.len() ==> kernel_fits(#[trigger] rows@[j], min_ts as int),
            added == kernel_activities(rows@, names_in(strings@), min_ts as int),
            activities(events@) == activities(old(events)@) + added.take(i as int),
    {
        let event = make_kernel(&rows[i], strings, min_ts);
        proof {
            lemma_one_appended(activities(old(events)@), events@, event, added, i as int);
        }
        events.push(event);
    }
    assert(added.take(added.len() as int) =~= added);
}

/// The activity of a call of the runtime.
fn make_runtime(row: &RuntimeRow, strings: &HashMap<i64, String>, min_ts: i64) -> (r: Activity)
    requires
        runtime_fits(*row, min_ts as int),
    ensures
        r@ == runtime_activity(*row, names_in(strings@), min_ts as int),
{
    let (pid, tid) = split_global_tid(row.global_tid);
    let mut args: Vec<(String, Json)> = Vec::new();
    args.push((text::copy_of("External id"), Json::from_i64(row.correlation_id)));
    args.push((text::copy_of("correlation"), Json::from_i64(row.correlation_id)));
    proof {
        let model = runtime_activity(*row, names_in(strings@), min_ts as int);
        json::lemma_object_view(args);
        assert(json::fields_of(args@) =~= model.args->0->Object_0);
    }
    Activity {
        cat: text::copy_of("cuda_runtime"),
        name: resolve_name(strings, row.name_id, "runtime"),
        ts: row.start - min_ts,
        dur: row.end - row.start,
        pid: pid as i64,
        tid: tid as i64,
        args: Some(Json::Object(args)),
    }
}

/// Appends the activities of calls of the runtime.
pub fn append_runtime_events(
    rows: &[RuntimeRow],
    strings: &HashMap<i64, String>,
    min_ts: i64,
    events: &mut Vec<Activity>,
)
    requires
        forall|i: int| 0 <= i < rows@.len() ==> runtime_fits(#[trigger] rows@[i], min_ts as int),
    ensures
        activities(final(events)@) == activities(old(events)@) + runtime_activities(
            rows@,
            names_in(strings@),
            min_ts as int,
        ),
{
    let ghost added = runtime_activities(rows@, names_in(strings@), min_ts as int);
    for i in 0..rows.len()
        invariant
            forall|j: int| 0 <= j < rows@.len() ==> runtime_fits(#[trigger] rows@[j], min_ts as int),
            added == runtime_activities(rows@, names_in(strings@), min_ts as int),
            activities(events@) == activities(old(events)@) + added.take(i as int),
    {
        let event = make_runtime(&rows[i], strings, min_ts);
        proof {
            lemma_one_appended(activities(old(events)@), events@, event, added, i as int);
        }
        events.push(event);
    }
    assert(added.take(added.len() as int) =~= added);
}

/// The activity of a copy of memory.
fn make_memcpy(row: &MemcpyRow, min_ts: i64) -> (r: Activity)
    requires
        memcpy_fits(*row, min_ts as int),
    ensures
        r@ == memcpy_activity(*row, min_ts as int),
{
    let kind = memcpy_kind_name(row.copy_kind);
    let mut name = text::copy_of("Memcpy ");
    name.append(kind);
    let mut args: Vec<(String, Json)> = Vec::new();
    args.push((text::copy_of("bytes"), Json::from_i64(row.bytes)));
    args.push((text::copy_of("copy_kind"), Json::from_text(kind)));
    args.push((text::copy_of("correlation"), Json::from_i64(row.correlation_id)));
    proof {
        let model = memcpy_activity(*row, min_ts as int);
        json::lemma_object_view(args);
        assert(json::fields_of(args@) =~= model.args->0->Object_0);
    }
    Activity {
        cat: text::copy_of("gpu_memcpy"),
        name,
        ts: row.start - min_ts,
        dur: row.end - row.start,
        pid: row.device_id,
        tid: row.stream_id,
        args: Some(Json::Object(args)),
    }
}

/// Appends the activities of copies of memory.
pub fn append_memcpy_events(
    rows: &[MemcpyRow],
    min_ts: i64,
    events: &mut Vec<Activity>,
)
    requires
        forall|i: int| 0 <= i < rows@.len() ==> memcpy_fits(#[trigger] rows@[i], min_ts as int),
    ensures
        activities(final(events)@) == activities(old(events)@) + memcpy_activities(
            rows@,
            min_ts as int,
        ),
{
    let ghost added = memcpy_activities(rows@, min_ts as int);
    for i in 0..rows.len()
        invariant
            forall|j: int| 0 <= j < rows@.len() ==> memcpy_fits(#[trigger] rows@[j], min_ts as int),
            added == memcpy_activities(rows@, min_ts as int),
            activities(events@) == activities(old(events)@) + added.take(i as int),
    {
        let event = make_memcpy(&rows[i], min_ts);
        proof {
            lemma_one_appended(activities(old(events)@), events@, event, added, i as int);
        }
        events.push(event);
    }
    assert(added.take(added.len() as int) =~= added);
}

/// The activity of a fill of memory.
fn make_memset(row: &MemsetRow, min_ts: i64) -> (r: Activity)
    requires
        memset_fits(*row, min_ts as int),
    ensures
        r@ == memset_activity(*row, min_ts as int),
{
    let mut args: Vec<(String, Json)> = Vec::new();
    args.push((text::copy_of("bytes"), Json::from_i64(row.bytes)));
    args.push((text::copy_of("correlation"), Json::from_i64(row.correlation_id)));
    args.push((text::copy_of("value"), Json::from_i64(row.value)));
    proof {
        let model = memset_activity(*row, min_ts as int);
        json::lemma_object_view(args);
        assert(json::fields_of(args@) =~= model.args->0->Object_0);
    }
    Activity {
        cat: text::copy_of("gpu_memset"),
        name: text::copy_of("Memset"),
        ts: row.start - min_ts,
        dur: row.end - row.start,
        pid: row.device_id,
        tid: row.stream_id,
        args: Some(Json::Object(args)),
    }
}

/// Appends the activities of fills of memory.
pub fn append_memset_events(
    rows: &[MemsetRow],
    min_ts: i64,
    events: &mut Vec<Activity>,
)
    requires
        forall|i: int| 0 <= i < rows@.len() ==> memset_fits(#[trigger] rows@[i], min_ts as int),
    ensures
        activities(final(events)@) == activities(old(events)@) + memset_activities(
            rows@,
            min_ts as int,
        ),
{
    let ghost added = memset_activities(rows@, min_ts as int);
    for i in 0..rows.len()
        invariant
            forall|j: int| 0 <= j < rows@.len() ==> memset_fits(#[trigger] rows@[j], min_ts as int),
            added == memset_activities(rows@, min_ts as int),
            activities(events@) == activities(old(events)@) + added.take(i as int),
    {
        let event = make_memset(&rows[i], min_ts);
        proof {
            lemma_one_appended(activities(old(events)@), events@, event, added, i as int);
        }
        events.push(event);
    }
    assert(added.take(added.len() as int) =~= added);
}

/// The activity of an annotated range.
fn make_nvtx(row: &NvtxRow, strings: &HashMap<i64, String>, min_ts: i64) -> (r: Activity)
    requires
        nvtx_fits(*row, min_ts as int),
    ensures
        r@ == nvtx_activity(*row, names_in(strings@), min_ts as int),
{
    let found = match row.text_id {
        Some(id) => find_text(strings, id),
        None => None,
    };
    let name = match found {
        Some(s) => s,
        None => text::copy_of("nvtx"),
    };
    let (pid, tid) = split_global_tid(row.global_tid);
    Activity {
        cat: text::copy_of("nvtx"),
        name,
        ts: row.start - min_ts,
        dur: row.end - row.start,
        pid: pid as i64,
        tid: tid as i64,
        args: None,
    }
}

/// Appends the activities of annotated ranges.
pub fn append_nvtx_events(
    rows: &[NvtxRow],
    strings: &HashMap<i64, String>,
    min_ts: i64,
    events: &mut Vec<Activity>,
)
    requires
        forall|i: int| 0 <= i < rows@.len() ==> nvtx_fits(#[trigger] rows@[i], min_ts as int),
    ensures
        activities(final(events)@) == activities(old(events)@) + nvtx_activities(
            rows@,
            names_in(strings@),
            min_ts as int,
        ),
{
    let ghost added = nvtx_activities(rows@, names_in(strings@), min_ts as int);
    for i in 0..rows.len()
        invariant
            forall|j: int| 0 <= j < rows@.len() ==> nvtx_fits(#[trigger] rows@[j], min_ts as int),
            added == nvtx_activities(rows@, names_in(strings@), min_ts as int),
            activities(events@) == activities(old(events)@) + added.take(i as int),
    {
        let event = make_nvtx(&rows[i], strings, min_ts);
        proof {
            lemma_one_appended(activities(old(events)@), events@, event, added, i as int);
        }
        events.push(event);
    }
    assert(added.take(added.len() as int) =~= added);
}

// ---------------------------------------------------------------------------------------------
// Reports

/// What a report holds.
#[derive(Debug)]
pub struct Report {
    /// The table of strings.
    pub strings: Vec<(i64, String)>,
    /// The least start in each table of activities, where it has any.
    pub minima: Vec<Option<i64>>,
    pub kernels: Vec<KernelRow>,
    pub runtime: Vec<RuntimeRow>,
    pub memcpy: Vec<MemcpyRow>,
    pub memset: Vec<MemsetRow>,
    pub nvtx: Vec<NvtxRow>,
}

/// What a report is.
pub struct ReportModel {
    pub strings: Seq<(i64, Seq<char>)>,
    pub minima: Seq<Option<i64>>,
    pub kernels: Seq<KernelRow>,
    pub runtime: Seq<RuntimeRow>,
    pub memcpy: Seq<MemcpyRow>,
    pub memset: Seq<MemsetRow>,
    pub nvtx: Seq<NvtxRow>,
}

impl View for Report {
    type V = ReportModel;

    open spec fn view(&self) -> ReportModel {
        ReportModel {
            strings: string_rows(self.strings@),
            minima: self.minima@,
            kernels: self.kernels@,
            runtime: self.runtime@,
            memcpy: self.memcpy@,
            memset: self.memset@,
            nvtx: self.nvtx@,
        }
    }
}

/// Whether all that is computed of the activities of a report can be held.
pub open spec fn in_range(report: ReportModel) -> bool {
    let base = base_of(report.minima);
    &&& forall|i: int| 0 <= i < report.kernels.len() ==> kernel_fits(#[trigger] report.kernels[i], base)
    &&& forall|i: int| 0 <= i < report.runtime.len() ==> runtime_fits(#[trigger] report.runtime[i], base)
    &&& forall|i: int| 0 <= i < report.memcpy.len() ==> memcpy_fits(#[trigger] report.memcpy[i], base)
    &&& forall|i: int| 0 <= i < report.memset.len() ==> memset_fits(#[trigger] report.memset[i], base)
    &&& forall|i: int| 0 <= i < report.nvtx.len() ==> nvtx_fits(#[trigger] report.nvtx[i], base)
}

/// The activities of a report: those of kernels, of the runtime, of copies and fills of memory,
/// and of annotated ranges, each in the order of their rows.
pub open spec fn report_activities(report: ReportModel) -> Seq<ActivityModel> {
    let table = string_table(report.strings);
    let base = base_of(report.minima);
    kernel_activities(report.kernels, table, base) + runtime_activities(report.runtime, table, base)
        + memcpy_activities(report.memcpy, base) + memset_activities(report.memset, base)
        + nvtx_activities(report.nvtx, table, base)
}

impl Report {
    /// Tells whether all that is computed of the activities can be held.
    pub fn is_in_range(&self) -> (r: bool)
        ensures
            r == in_range(self@),
    {
        let base = find_min_timestamp(&self.minima);
        for i in 0..self.kernels.len()
            invariant
                base == base_of(self@.minima),
                forall|j: int| 0 <= j < i ==> kernel_fits(#[trigger] self@.kernels[j], base as int),
        {
            let row = &self.kernels[i];
            if !check_times(row.start, row.end, base) || row.static_sm.checked_add(
                row.dynamic_sm,
            ).is_none() {
                assert(!kernel_fits(self@.kernels[i as int], base as int));
                return false;
            }
        }
        for i in 0..self.runtime.len()
            invariant
                base == base_of(self@.minima),
                forall|j: int| 0 <= j < i ==> runtime_fits(#[trigger] self@.runtime[j], base as int),
        {
            if !check_times(self.runtime[i].start, self.runtime[i].end, base) {
                assert(!runtime_fits(self@.runtime[i as int], base as int));
                return false;
            }
        }
        for i in 0..self.memcpy.len()
            invariant
                base == base_of(self@.minima),
                forall|j: int| 0 <= j < i ==> memcpy_fits(#[trigger] self@.memcpy[j], base as int),
        {
            if !check_times(self.memcpy[i].start, self.memcpy[i].end, base) {
                assert(!memcpy_fits(self@.memcpy[i as int], base as int));
                return false;
            }
        }
        for i in 0..self.memset.len()
            invariant
                base == base_of(self@.minima),
                forall|j: int| 0 <= j < i ==> memset_fits(#[trigger] self@.memset[j], base as int),
        {
            if !check_times(self.memset[i].start, self.memset[i].end, base) {
                assert(!memset_fits(self@.memset[i as int], base as int));
                return false;
            }
        }
        for i in 0..self.nvtx.len()
            invariant
                base == base_of(self@.minima),
                forall|j: int| 0 <= j < i ==> nvtx_fits(#[trigger] self@.nvtx[j], base as int),
        {
            if !check_times(self.nvtx[i].start, self.nvtx[i].end, base) {
                assert(!nvtx_fits(self@.nvtx[i as int], base as int));
                return false;
            }
        }
        true
    }
}

/// Converts an nsys report to the activities of a Chrome trace.
pub fn nsys_to_chrome_trace(report: Report) -> (r: Vec<Activity>)
    requires
        in_range(report@),
    ensures
        activities(r@) == report_activities(report@),
{
    let ghost model = report@;
    assert(model.kernels == report.kernels@ && model.runtime == report.runtime@ && model.memcpy
        == report.memcpy@ && model.memset == report.memset@ && model.nvtx == report.nvtx@);
    let strings = load_strings(report.strings);
    let min_ts = find_min_timestamp(&report.minima);
    let mut events: Vec<Activity> = Vec::new();
    append_kernel_events(&report.kernels, &strings, min_ts, &mut events);
    append_runtime_events(&report.runtime, &strings, min_ts, &mut events);
    append_memcpy_events(&report.memcpy, min_ts, &mut events);
    append_memset_events(&report.memset, min_ts, &mut events);
    append_nvtx_events(&report.nvtx, &strings, min_ts, &mut events);
    assert(activities(events@) =~= report_activities(model));
    events
}

// ---------------------------------------------------------------------------------------------
// Writing

/// The times of an activity in microseconds, as JSON numbers.
#[derive(Debug)]
pub struct Times {
    pub ts: JsonNumber,
    pub dur: JsonNumber,
}

/// What the times of an activity are.
pub struct TimesModel {
    pub ts: NumberModel,
    pub dur: NumberModel,
}

impl View for Times {
    type V = TimesModel;

    open spec fn view(&self) -> TimesModel {
        TimesModel { ts: self.ts@, dur: self.dur@ }
    }
}

/// The fields of a complete event behind its arguments.
pub open spec fn event_fields(a: ActivityModel, t: TimesModel) -> Seq<(Seq<char>, JsonModel)> {
    seq![
        ("cat"@, JsonModel::Str(a.cat)),
        ("dur"@, JsonModel::Number(t.dur)),
        ("name"@, JsonModel::Str(a.name)),
        ("ph"@, JsonModel::Str("X"@)),
        ("pid"@, json::whole(a.pid)),
        ("tid"@, json::whole(a.tid)),
        ("ts"@, JsonModel::Number(t.ts)),
    ]
}

/// An activity as a complete event of a Chrome trace.
pub open spec fn event_json(a: ActivityModel, t: TimesModel) -> JsonModel {
    match a.args {
        Some(args) => JsonModel::Object(seq![("args"@, args)] + event_fields(a, t)),
        None => JsonModel::Object(event_fields(a, t)),
    }
}

/// Makes an activity a complete event of a Chrome trace.
pub fn make_event(activity: Activity, times: Times) -> (r: Json)
    ensures
        r@ == event_json(activity@, times@),
{
    let ghost a = activity@;
    let ghost t = times@;
    let mut fields: Vec<(String, Json)> = Vec::new();
    if let Some(args) = activity.args {
        fields.push((text::copy_of("args"), args));
    }
    fields.push((text::copy_of("cat"), Json::Str(activity.cat)));
    fields.push((text::copy_of("dur"), Json::Number(times.dur)));
    fields.push((text::copy_of("name"), Json::Str(activity.name)));
    fields.push((text::copy_of("ph"), Json::from_text("X")));
    fields.push((text::copy_of("pid"), Json::from_i64(activity.pid)));
    fields.push((text::copy_of("tid"), Json::from_i64(activity.tid)));
    fields.push((text::copy_of("ts"), Json::Number(times.ts)));
    proof {
        json::lemma_object_view(fields);
        assert(json::fields_of(fields@) =~= event_json(a, t)->Object_0);
    }
    Json::Object(fields)
}

/// Timed activities as events of a Chrome trace.
pub open spec fn event_documents(timed: Seq<(Activity, Times)>) -> Seq<JsonModel> {
    Seq::new(timed.len(), |i: int| event_json(timed[i].0@, timed[i].1@))
}

/// Makes activities a Chrome trace, given the times of each.
pub fn chrome_trace(timed: Vec<(Activity, Times)>) -> (r: Json)
    ensures
        r@ == events::trace_of(event_documents(timed@)),
{
    let ghost all = timed@;
    let ghost models = event_documents(all);
    let mut out: Vec<Json> = Vec::new();
    assert(json::documents(out@) =~= models.take(0));
    for pair in it: timed
        invariant
            it.seq() == all,
            models == event_documents(all),
            json::documents(out@) == models.take(it.index()),
    {
        let ghost before = json::documents(out@);
        let ghost n = it.index();
        let (activity, times) = pair;
        let event = make_event(activity, times);
        let ghost model = event@;
        out.push(event);
        assert(json::documents(out@) =~= before.push(model));
        assert(models.take(n + 1) =~= models.take(n).push(model));
    }
    assert(models.take(models.len() as int) =~= models);
    events::make_trace(out)
}

// ---------------------------------------------------------------------------------------------
// Laws

/// The starts of the activities of a report, in the order of the activities.
pub open spec fn starts(report: ReportModel) -> Seq<int> {
    Seq::new(report.kernels.len(), |i: int| report.kernels[i].start as int) + Seq::new(
        report.runtime.len(),
        |i: int| report.runtime[i].start as int,
    ) + Seq::new(report.memcpy.len(), |i: int| report.memcpy[i].start as int) + Seq::new(
        report.memset.len(),
        |i: int| report.memset[i].start as int,
    ) + Seq::new(report.nvtx.len(), |i: int| report.nvtx[i].start as int)
}

/// The least of the starts in the tables is not above any of them.
pub proof fn law_least_is_below_all(minima: Seq<Option<i64>>)
    ensures
        forall|i: int| #![trigger minima[i]]
            0 <= i < minima.len() && minima[i] is Some ==> least(minima) <= minima[i]->0,
        least(minima) == i64::MAX || exists|i: int| #![trigger minima[i]]
            0 <= i < minima.len() && minima[i] is Some && least(minima) == minima[i]->0,
    decreases minima.len(),
{
    if minima.len() > 0 {
        let head = minima.drop_last();
        let n = minima.len() as int;
        law_least_is_below_all(head);
        assert forall|i: int| #![trigger minima[i]]
            0 <= i < n && minima[i] is Some implies least(minima) <= minima[i]->0 by {
            if i < n - 1 {
                assert(head[i] == minima[i]);
            }
        }
        if least(minima) != i64::MAX {
            if least(minima) == least(head) {
                let i = choose|i: int| #![trigger head[i]]
                    0 <= i < head.len() && head[i] is Some && least(head) == head[i]->0;
                assert(minima[i] == head[i]);
            } else {
                assert(minima[n - 1] == minima.last());
            }
        }
    }
}

/// Timestamps are counted from the start of the trace. Where the least starts of the tables are
/// not above the starts of the activities, no activity begins before the trace does, and one that
/// begins at the least of them begins at zero.
pub proof fn law_timestamps_start_at_zero(report: ReportModel)
    requires
        forall|i: int| 0 <= i < starts(report).len() ==> least(report.minima) <= #[trigger] starts(report)[i],
    ensures
        report_activities(report).len() == starts(report).len(),
        forall|i: int|
            0 <= i < starts(report).len() ==> (#[trigger] report_activities(report)[i]).ts
                == starts(report)[i] - base_of(report.minima),
        forall|i: int|
            0 <= i < starts(report).len() ==> (#[trigger] report_activities(report)[i]).ts >= 0,
{
    let all = report_activities(report);
    let k = report.kernels.len() as int;
    let r = k + report.runtime.len();
    let c = r + report.memcpy.len();
    let m = c + report.memset.len();
    assert forall|i: int| 0 <= i < starts(report).len() implies (#[trigger] all[i]).ts == starts(report)[i]
        - base_of(report.minima) by {
        if i < k {
        } else if i < r {
            assert(starts(report)[i] == report.runtime[i - k].start);
        } else if i < c {
            assert(starts(report)[i] == report.memcpy[i - r].start);
        } else if i < m {
            assert(starts(report)[i] == report.memset[i - c].start);
        } else {
            assert(starts(report)[i] == report.nvtx[i - m].start);
        }
    }
    assert forall|i: int| 0 <= i < starts(report).len() implies (#[trigger] all[i]).ts >= 0 by {
        assert(least(report.minima) <= starts(report)[i]);
    }
}

/// A report without activities, such as one that lacks the tables, gives an empty trace.
pub proof fn law_no_rows_no_activities(report: ReportModel)
    requires
        report.kernels.len() == 0,
        report.runtime.len() == 0,
        report.memcpy.len() == 0,
        report.memset.len() == 0,
        report.nvtx.len() == 0,
    ensures
        report_activities(report) == Seq::<ActivityModel>::empty(),
        in_range(report),
{
    assert(report_activities(report) =~= Seq::<ActivityModel>::empty());
}

/// Whether what an activity and its times hold is as `serde_json` holds it.
pub open spec fn holds_ordered(a: ActivityModel, t: TimesModel) -> bool {
    &&& a.args matches Some(args) ==> json::ordered(args)
    &&& json::ordered(JsonModel::Number(t.ts))
    &&& json::ordered(JsonModel::Number(t.dur))
    &&& i64::MIN <= a.pid <= i64::MAX
    &&& i64::MIN <= a.tid <= i64::MAX
}

/// The names of the fields of an event ascend.
proof fn lemma_event_names_ascend()
    ensures
        order::text_less("args"@, "cat"@),
        order::text_less("cat"@, "dur"@),
        order::text_less("dur"@, "name"@),
        order::text_less("name"@, "ph"@),
        order::text_less("ph"@, "pid"@),
        order::text_less("pid"@, "tid"@),
        order::text_less("tid"@, "ts"@),
{
    reveal_strlit("args");
    reveal_strlit("cat");
    reveal_strlit("dur");
    reveal_strlit("name");
    reveal_strlit("ph");
    reveal_strlit("pid");
    reveal_strlit("tid");
    reveal_strlit("ts");
    order::lemma_text_less_at("args"@, "cat"@, 0);
    order::lemma_text_less_at("cat"@, "dur"@, 0);
    order::lemma_text_less_at("dur"@, "name"@, 0);
    order::lemma_text_less_at("name"@, "ph"@, 0);
    order::lemma_text_less_at("ph"@, "pid"@, 1);
    order::lemma_text_less_at("pid"@, "tid"@, 0);
    order::lemma_text_less_at("tid"@, "ts"@, 1);
}

/// An event is written as it is: where what the activity holds is as `serde_json` holds it, so is the
/// event.
pub proof fn law_event_is_ordered(a: ActivityModel, t: TimesModel)
    requires
        holds_ordered(a, t),
    ensures
        json::ordered(event_json(a, t)),
{
    let fields = event_json(a, t)->Object_0;
    lemma_event_names_ascend();
    assert(forall|i: int| 0 <= i < fields.len() - 1 ==> order::text_less(
        (#[trigger] fields[i]).0,
        fields[i + 1].0,
    ));
    json::lemma_names_ascend(fields);
    json::lemma_ordered_fields(fields);
}

/// A converted trace is written as it is.
pub proof fn law_converted_trace_is_written_as_it_is(timed: Seq<(Activity, Times)>)
    requires
        forall|i: int|
            0 <= i < timed.len() ==> holds_ordered((#[trigger] timed[i]).0@, timed[i].1@),
    ensures
        json::stored(events::trace_of(event_documents(timed))) == events::trace_of(
            event_documents(timed),
        ),
{
    let all = event_documents(timed);
    assert forall|i: int| 0 <= i < all.len() implies json::ordered(#[trigger] all[i]) by {
        law_event_is_ordered(timed[i].0@, timed[i].1@);
    }
    events::lemma_trace_is_ordered(all);
    json::law_ordered_documents_are_kept(events::trace_of(all));
}

/// The names of the arguments of the activities ascend.
proof fn lemma_argument_names_ascend()
    ensures
        order::text_less("block"@, "correlation"@),
        order::text_less("correlation"@, "grid"@),
        order::text_less("grid"@, "registers_per_thread"@),
        order::text_less("registers_per_thread"@, "shared_memory"@),
        order::text_less("External id"@, "correlation"@),
        order::text_less("bytes"@, "copy_kind"@),
        order::text_less("copy_kind"@, "correlation"@),
        order::text_less("bytes"@, "correlation"@),
        order::text_less("correlation"@, "value"@),
{
    reveal_strlit("block");
    reveal_strlit("correlation");
    reveal_strlit("grid");
    reveal_strlit("registers_per_thread");
    reveal_strlit("shared_memory");
    reveal_strlit("External id");
    reveal_strlit("bytes");
    reveal_strlit("copy_kind");
    reveal_strlit("value");
    order::lemma_text_less_at("block"@, "correlation"@, 0);
    order::lemma_text_less_at("correlation"@, "grid"@, 0);
    order::lemma_text_less_at("grid"@, "registers_per_thread"@, 0);
    order::lemma_text_less_at("registers_per_thread"@, "shared_memory"@, 0);
    order::lemma_text_less_at("External id"@, "correlation"@, 0);
    order::lemma_text_less_at("bytes"@, "copy_kind"@, 0);
    order::lemma_text_less_at("copy_kind"@, "correlation"@, 2);
    order::lemma_text_less_at("bytes"@, "correlation"@, 0);
    order::lemma_text_less_at("correlation"@, "value"@, 0);
}

/// Three numbers are as `serde_json` holds them.
proof fn lemma_triple_is_ordered(x: i64, y: i64, z: i64)
    ensures
        json::ordered(triple(x, y, z)),
{
    json::lemma_ordered_items(triple(x, y, z)->Array_0);
}

/// The arguments of an activity are as `serde_json` holds them, where names ascend and values are.
proof fn lemma_arguments_are_ordered(fields: Seq<(Seq<char>, JsonModel)>)
    requires
        forall|i: int|
            0 <= i < fields.len() - 1 ==> order::text_less((#[trigger] fields[i]).0, fields[i + 1].0),
        forall|i: int| 0 <= i < fields.len() ==> json::ordered((#[trigger] fields[i]).1),
    ensures
        json::ordered(JsonModel::Object(fields)),
{
    json::lemma_names_ascend(fields);
    json::lemma_ordered_fields(fields);
}

/// What the activities of a report hold is as `serde_json` holds it, so that with times that are, the
/// converted trace is written as it is.
pub proof fn law_activities_are_ordered(report: ReportModel, i: int, t: TimesModel)
    requires
        in_range(report),
        0 <= i < report_activities(report).len(),
        json::ordered(JsonModel::Number(t.ts)),
        json::ordered(JsonModel::Number(t.dur)),
    ensures
        holds_ordered(report_activities(report)[i], t),
{
    let a = report_activities(report)[i];
    let base = base_of(report.minima);
    let table = string_table(report.strings);
    let k = report.kernels.len() as int;
    let r = k + report.runtime.len();
    let c = r + report.memcpy.len();
    let m = c + report.memset.len();
    lemma_argument_names_ascend();
    if i < k {
        let row = report.kernels[i];
        assert(a == kernel_activity(row, table, base));
        assert(kernel_fits(row, base));
        lemma_triple_is_ordered(row.block_x, row.block_y, row.block_z);
        lemma_triple_is_ordered(row.grid_x, row.grid_y, row.grid_z);
        lemma_arguments_are_ordered(a.args->0->Object_0);
    } else if i < r {
        assert(a == runtime_activity(report.runtime[i - k], table, base));
        lemma_arguments_are_ordered(a.args->0->Object_0);
    } else if i < c {
        assert(a == memcpy_activity(report.memcpy[i - r], base));
        lemma_arguments_are_ordered(a.args->0->Object_0);
    } else if i < m {
        assert(a == memset_activity(report.memset[i - c], base));
        lemma_arguments_are_ordered(a.args->0->Object_0);
    } else {
        assert(a == nvtx_activity(report.nvtx[i - m], table, base));
    }
}

// ---------------------------------------------------------------------------------------------
// What a converted report holds

/// The text of an id is that of the last row with it, and an id without a row has none.
pub proof fn law_last_string_counts(rows: Seq<(i64, Seq<char>)>, id: i64, i: int)
    ensures
        string_table(rows).contains_key(id) <==> exists|j: int|
            0 <= j < rows.len() && (#[trigger] rows[j]).0 == id,
        0 <= i < rows.len() && rows[i].0 == id && (forall|j: int|
            i < j < rows.len() ==> (#[trigger] rows[j]).0 != id) ==> string_table(rows)[id] == rows[i].1,
    decreases rows.len(),
{
    if rows.len() > 0 {
        let head = rows.drop_last();
        let n = rows.len() - 1;
        law_last_string_counts(head, id, i);
        if string_table(rows).contains_key(id) && rows[n].0 != id {
            let j = choose|j: int| 0 <= j < head.len() && (#[trigger] head[j]).0 == id;
            assert(rows[j].0 == id);
        }
        assert forall|j: int| 0 <= j < rows.len() && (#[trigger] rows[j]).0 == id implies string_table(
            rows,
        ).contains_key(id) by {
            if j < n {
                assert(head[j].0 == id);
            }
        }
        if 0 <= i < n && rows[i].0 == id && (forall|j: int|
            i < j < rows.len() ==> (#[trigger] rows[j]).0 != id) {
            assert(rows[n].0 != id);
            assert(head[i].0 == id);
            assert forall|j: int| i < j < head.len() implies (#[trigger] head[j]).0 != id by {
                assert(rows[j].0 != id);
            }
        }
    }
}

/// A trace starts at the least start that any table has, or at zero where none has one below the
/// greatest 64-bit number.
pub proof fn law_trace_starts_at_the_least_start(minima: Seq<Option<i64>>, i: int)
    requires
        0 <= i < minima.len(),
        minima[i] is Some,
        minima[i]->0 < i64::MAX,
    ensures
        base_of(minima) <= minima[i]->0,
        exists|k: int| #![trigger minima[k]]
            0 <= k < minima.len() && minima[k] is Some && base_of(minima) == minima[k]->0,
{
    law_least_is_below_all(minima);
    assert(least(minima) <= minima[i]->0);
}

/// Where no table has a start below the greatest 64-bit number, a trace starts at zero.
pub proof fn law_trace_without_starts_starts_at_zero(minima: Seq<Option<i64>>)
    requires
        forall|i: int| #![trigger minima[i]]
            0 <= i < minima.len() && minima[i] is Some ==> minima[i]->0 == i64::MAX,
    ensures
        base_of(minima) == 0,
{
    law_least_is_below_all(minima);
}

/// A global thread id is the process times 2^32 and the lower 32 bits, of which the thread is the
/// signed number.
pub proof fn law_global_tid_is_made_of_process_and_thread(global_tid: int)
    ensures
        -0x8000_0000 <= thread_of(global_tid) < 0x8000_0000,
        thread_of(global_tid) >= 0 ==> global_tid == process_of(global_tid) * 0x1_0000_0000 + thread_of(
            global_tid,
        ),
        thread_of(global_tid) < 0 ==> global_tid == process_of(global_tid) * 0x1_0000_0000 + thread_of(
            global_tid,
        ) + 0x1_0000_0000,
{
}

/// The kinds of copies of memory by their numbers.
pub proof fn law_copy_kinds_by_number(kind: int)
    ensures
        kind_name(1) == "HtoD"@,
        kind_name(2) == "DtoH"@,
        kind_name(3) == "HtoH"@,
        kind_name(4) == "DtoD"@,
        kind_name(8) == "PtoP"@,
        kind < 1 || (4 < kind && kind < 8) || kind > 8 ==> kind_name(kind) == "Unknown"@,
{
}

/// Each row of a report is one activity: those of the kernels come first, then those of the runtime,
/// of the copies, of the fills and of the ranges.
pub proof fn law_each_row_is_an_activity(report: ReportModel)
    ensures
        report_activities(report).len() == report.kernels.len() + report.runtime.len()
            + report.memcpy.len() + report.memset.len() + report.nvtx.len(),
{
}

/// The activity of the kernel row at `i` holds what the row does: its times from the start of the
/// trace, its device and stream, and in its arguments the grid and the block in the order x, y, z, the
/// correlation id, the registers and all of the shared memory. It is named by the demangled name, the
/// short name where that is missing, and a number where both are.
pub proof fn law_kernel_row_is_converted(report: ReportModel, i: int)
    requires
        0 <= i < report.kernels.len(),
    ensures
        report_activities(report)[i].cat == "kernel"@,
        report_activities(report)[i].ts == report.kernels[i].start - base_of(report.minima),
        report_activities(report)[i].dur == report.kernels[i].end - report.kernels[i].start,
        report_activities(report)[i].pid == report.kernels[i].device_id,
        report_activities(report)[i].tid == report.kernels[i].stream_id,
        report_activities(report)[i].args is Some,
        report_activities(report)[i].args->0.get("grid"@) == Some(
            JsonModel::Array(
                seq![
                    json::whole(report.kernels[i].grid_x as int),
                    json::whole(report.kernels[i].grid_y as int),
                    json::whole(report.kernels[i].grid_z as int),
                ],
            ),
        ),
        report_activities(report)[i].args->0.get("block"@) == Some(
            JsonModel::Array(
                seq![
                    json::whole(report.kernels[i].block_x as int),
                    json::whole(report.kernels[i].block_y as int),
                    json::whole(report.kernels[i].block_z as int),
                ],
            ),
        ),
        report_activities(report)[i].args->0.get("correlation"@) == Some(
            json::whole(report.kernels[i].correlation_id as int),
        ),
        report_activities(report)[i].args->0.get("registers_per_thread"@) == Some(
            json::whole(report.kernels[i].regs as int),
        ),
        report_activities(report)[i].args->0.get("shared_memory"@) == Some(
            json::whole(report.kernels[i].static_sm + report.kernels[i].dynamic_sm),
        ),
        report_activities(report)[i].args->0->Object_0.len() == 5,
        string_table(report.strings).contains_key(report.kernels[i].demangled) ==> report_activities(
            report,
        )[i].name == string_table(report.strings)[report.kernels[i].demangled],
        !string_table(report.strings).contains_key(report.kernels[i].demangled) && string_table(
            report.strings,
        ).contains_key(report.kernels[i].short) ==> report_activities(report)[i].name == string_table(
            report.strings,
        )[report.kernels[i].short],
        !string_table(report.strings).contains_key(report.kernels[i].demangled) && !string_table(
            report.strings,
        ).contains_key(report.kernels[i].short) ==> report_activities(report)[i].name == "kernel"@ + "_"@
            + text::signed_decimal(report.kernels[i].demangled as int),
{
    let a = report_activities(report)[i];
    let fields = a.args->0->Object_0;
    lemma_argument_names_ascend();
    json::lemma_names_ascend(fields);
    json::lemma_found_by_name(fields, 0);
    json::lemma_found_by_name(fields, 1);
    json::lemma_found_by_name(fields, 2);
    json::lemma_found_by_name(fields, 3);
    json::lemma_found_by_name(fields, 4);
}

/// The activity of the runtime row at `i` holds what the row does: its times from the start of the
/// trace, the process and thread of its global thread id, and its correlation id, which is the external
/// id too. It is named by its name id, or a number where that has no text.
pub proof fn law_runtime_row_is_converted(report: ReportModel, i: int, k: int)
    requires
        0 <= i < report.runtime.len(),
        k == report.kernels.len() + i,
    ensures
        report_activities(report)[k].cat == "cuda_runtime"@,
        report_activities(report)[k].ts == report.runtime[i].start - base_of(report.minima),
        report_activities(report)[k].dur == report.runtime[i].end - report.runtime[i].start,
        report_activities(report)[k].pid == process_of(report.runtime[i].global_tid as int),
        report_activities(report)[k].tid == thread_of(report.runtime[i].global_tid as int),
        report_activities(report)[k].args is Some,
        report_activities(report)[k].args->0.get("correlation"@) == Some(
            json::whole(report.runtime[i].correlation_id as int),
        ),
        report_activities(report)[k].args->0.get("External id"@) == Some(
            json::whole(report.runtime[i].correlation_id as int),
        ),
        report_activities(report)[k].args->0->Object_0.len() == 2,
        string_table(report.strings).contains_key(report.runtime[i].name_id) ==> report_activities(
            report,
        )[k].name == string_table(report.strings)[report.runtime[i].name_id],
        !string_table(report.strings).contains_key(report.runtime[i].name_id) ==> report_activities(
            report,
        )[k].name == "runtime"@ + "_"@ + text::signed_decimal(report.runtime[i].name_id as int),
{
    let a = report_activities(report)[k];
    assert(a == runtime_activity(
        report.runtime[i],
        string_table(report.strings),
        base_of(report.minima),
    ));
    let fields = a.args->0->Object_0;
    lemma_argument_names_ascend();
    json::lemma_names_ascend(fields);
    json::lemma_found_by_name(fields, 0);
    json::lemma_found_by_name(fields, 1);
}

/// The activity of the memory copy at `i` holds what the row does: its times from the start of the
/// trace, its device and stream, and in its arguments the bytes, the kind and the correlation id.
pub proof fn law_memcpy_row_is_converted(report: ReportModel, i: int, k: int)
    requires
        0 <= i < report.memcpy.len(),
        k == report.kernels.len() + report.runtime.len() + i,
    ensures
        report_activities(report)[k].cat == "gpu_memcpy"@,
        report_activities(report)[k].name == "Memcpy "@ + kind_name(report.memcpy[i].copy_kind as int),
        report_activities(report)[k].ts == report.memcpy[i].start - base_of(report.minima),
        report_activities(report)[k].dur == report.memcpy[i].end - report.memcpy[i].start,
        report_activities(report)[k].pid == report.memcpy[i].device_id,
        report_activities(report)[k].tid == report.memcpy[i].stream_id,
        report_activities(report)[k].args is Some,
        report_activities(report)[k].args->0.get("bytes"@) == Some(
            json::whole(report.memcpy[i].bytes as int),
        ),
        report_activities(report)[k].args->0.get("copy_kind"@) == Some(
            JsonModel::Str(kind_name(report.memcpy[i].copy_kind as int)),
        ),
        report_activities(report)[k].args->0.get("correlation"@) == Some(
            json::whole(report.memcpy[i].correlation_id as int),
        ),
        report_activities(report)[k].args->0->Object_0.len() == 3,
{
    let a = report_activities(report)[k];
    assert(a == memcpy_activity(report.memcpy[i], base_of(report.minima)));
    let fields = a.args->0->Object_0;
    lemma_argument_names_ascend();
    json::lemma_names_ascend(fields);
    json::lemma_found_by_name(fields, 0);
    json::lemma_found_by_name(fields, 1);
    json::lemma_found_by_name(fields, 2);
}

/// The activity of the memory fill at `i` holds what the row does: its times from the start of the
/// trace, its device and stream, and in its arguments the bytes, the correlation id and the value.
pub proof fn law_memset_row_is_converted(report: ReportModel, i: int, k: int)
    requires
        0 <= i < report.memset.len(),
        k == report.kernels.len() + report.runtime.len() + report.memcpy.len() + i,
    ensures
        report_activities(report)[k].cat == "gpu_memset"@,
        report_activities(report)[k].name == "Memset"@,
        report_activities(report)[k].ts == report.memset[i].start - base_of(report.minima),
        report_activities(report)[k].dur == report.memset[i].end - report.memset[i].start,
        report_activities(report)[k].pid == report.memset[i].device_id,
        report_activities(report)[k].tid == report.memset[i].stream_id,
        report_activities(report)[k].args is Some,
        report_activities(report)[k].args->0.get("bytes"@) == Some(
            json::whole(report.memset[i].bytes as int),
        ),
        report_activities(report)[k].args->0.get("correlation"@) == Some(
            json::whole(report.memset[i].correlation_id as int),
        ),
        report_activities(report)[k].args->0.get("value"@) == Some(
            json::whole(report.memset[i].value as int),
        ),
        report_activities(report)[k].args->0->Object_0.len() == 3,
{
    let a = report_activities(report)[k];
    assert(a == memset_activity(report.memset[i], base_of(report.minima)));
    let fields = a.args->0->Object_0;
    lemma_argument_names_ascend();
    json::lemma_names_ascend(fields);
    json::lemma_found_by_name(fields, 0);
    json::lemma_found_by_name(fields, 1);
    json::lemma_found_by_name(fields, 2);
}

/// The activity of the annotated range at `i` holds what the row does: its times from the start of the
/// trace, and the process and thread of its global thread id, and no arguments. It is named by its
/// text, or `nvtx` where it has none.
pub proof fn law_nvtx_row_is_converted(report: ReportModel, i: int, k: int)
    requires
        0 <= i < report.nvtx.len(),
        k == report.kernels.len() + report.runtime.len() + report.memcpy.len() + report.memset.len() + i,
    ensures
        report_activities(report)[k].cat == "nvtx"@,
        report_activities(report)[k].ts == report.nvtx[i].start - base_of(report.minima),
        report_activities(report)[k].dur == report.nvtx[i].end - report.nvtx[i].start,
        report_activities(report)[k].pid == process_of(report.nvtx[i].global_tid as int),
        report_activities(report)[k].tid == thread_of(report.nvtx[i].global_tid as int),
        report_activities(report)[k].args is None,
        report.nvtx[i].text_id is Some && string_table(report.strings).contains_key(
            report.nvtx[i].text_id->0,
        ) ==> report_activities(report)[k].name == string_table(
            report.strings,
        )[report.nvtx[i].text_id->0],
        report.nvtx[i].text_id is None || !string_table(report.strings).contains_key(
            report.nvtx[i].text_id->0,
        ) ==> report_activities(report)[k].name == "nvtx"@,
{
    assert(report_activities(report)[k] == nvtx_activity(
        report.nvtx[i],
        string_table(report.strings),
        base_of(report.minima),
    ));
}

/// The trace of activities holds an event for each, in their order, with the activity's category, name,
/// process, thread, times and arguments, and says that it is complete.
pub proof fn law_event_holds_the_activity(timed: Seq<(Activity, Times)>, i: int)
    requires
        0 <= i < timed.len(),
    ensures
        event_documents(timed).len() == timed.len(),
        event_documents(timed)[i].get("ph"@) == Some(JsonModel::Str("X"@)),
        event_documents(timed)[i].get("cat"@) == Some(JsonModel::Str(timed[i].0@.cat)),
        event_documents(timed)[i].get("name"@) == Some(JsonModel::Str(timed[i].0@.name)),
        event_documents(timed)[i].get("pid"@) == Some(json::whole(timed[i].0@.pid)),
        event_documents(timed)[i].get("tid"@) == Some(json::whole(timed[i].0@.tid)),
        event_documents(timed)[i].get("ts"@) == Some(JsonModel::Number(timed[i].1@.ts)),
        event_documents(timed)[i].get("dur"@) == Some(JsonModel::Number(timed[i].1@.dur)),
        event_documents(timed)[i].get("args"@) == timed[i].0@.args,
        events::trace_of(event_documents(timed)) == JsonModel::Object(
            seq![("traceEvents"@, JsonModel::Array(event_documents(timed)))],
        ),
{
    let a = timed[i].0@;
    let event = event_documents(timed)[i];
    let fields = event->Object_0;
    let shift: int = if a.args is Some {
        1
    } else {
        0
    };
    lemma_event_names_ascend();
    json::lemma_names_ascend(fields);
    json::lemma_found_by_name(fields, shift);
    json::lemma_found_by_name(fields, shift + 1);
    json::lemma_found_by_name(fields, shift + 2);
    json::lemma_found_by_name(fields, shift + 3);
    json::lemma_found_by_name(fields, shift + 4);
    json::lemma_found_by_name(fields, shift + 5);
    json::lemma_found_by_name(fields, shift + 6);
    if a.args is Some {
        json::lemma_found_by_name(fields, 0);
    } else {
        assert forall|j: int| 0 <= j < fields.len() implies (#[trigger] fields[j]).0 != "args"@ by {
            if j > 0 {
                assert(order::text_less(fields[0].0, fields[j].0));
                order::lemma_text_transitive("args"@, fields[0].0, fields[j].0);
            }
            order::lemma_text_irreflexive("args"@);
        }
        json::law_lookup_finds_the_first_field(fields, "args"@, 0);
    }
}

/// A report is in range exactly if, in each of its rows, the start counted from that of the trace and
/// the duration are 64-bit numbers, and so is the shared memory of each kernel.
pub proof fn law_range_is_of_all_rows(report: ReportModel)
    ensures
        in_range(report) <==> (forall|i: int| #![trigger report.kernels[i]]
            0 <= i < report.kernels.len() ==> i64::MIN <= report.kernels[i].start - base_of(report.minima)
                <= i64::MAX && i64::MIN <= report.kernels[i].end - report.kernels[i].start <= i64::MAX
                && i64::MIN <= report.kernels[i].static_sm + report.kernels[i].dynamic_sm <= i64::MAX) && (
        forall|i: int| #![trigger report.runtime[i]]
            0 <= i < report.runtime.len() ==> i64::MIN <= report.runtime[i].start - base_of(report.minima)
                <= i64::MAX && i64::MIN <= report.runtime[i].end - report.runtime[i].start <= i64::MAX) && (
        forall|i: int| #![trigger report.memcpy[i]]
            0 <= i < report.memcpy.len() ==> i64::MIN <= report.memcpy[i].start - base_of(report.minima)
                <= i64::MAX && i64::MIN <= report.memcpy[i].end - report.memcpy[i].start <= i64::MAX) && (
        forall|i: int| #![trigger report.memset[i]]
            0 <= i < report.memset.len() ==> i64::MIN <= report.memset[i].start - base_of(report.minima)
                <= i64::MAX && i64::MIN <= report.memset[i].end - report.memset[i].start <= i64::MAX) && (
        forall|i: int| #![trigger report.nvtx[i]]
            0 <= i < report.nvtx.len() ==> i64::MIN <= report.nvtx[i].start - base_of(report.minima)
                <= i64::MAX && i64::MIN <= report.nvtx[i].end - report.nvtx[i].start <= i64::MAX),
{
}

} // verus!
