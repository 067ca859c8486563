//! Merging Chrome traces into one.

use std::collections::HashMap;
use vstd::prelude::*;
use crate::events;
use crate::json;
use crate::json::{Json, JsonModel};
use crate::order;
use crate::text;
use crate::util;

verus! {

broadcast use vstd::std_specs::hash::group_hash_axioms;

/// How far apart the process ids of two files that follow each other are moved.
pub const PID_OFFSET_STEP: i64 = 1_000_000;

/// How many files can be merged: the distance of the last of them still fits 64 bits.
pub const MAX_FILES: u64 = 9_223_372_036_855;

// ---------------------------------------------------------------------------------------------
// Events

/// How far the process ids of a file are moved: not at all if it is the only file.
pub open spec fn pid_offset(files: nat, index: nat) -> int {
    if files > 1 {
        index * PID_OFFSET_STEP
    } else {
        0
    }
}

/// The process id that an event names, if it is a whole number.
pub open spec fn named_pid(event: JsonModel) -> Option<i64> {
    match event.get("pid"@) {
        Some(v) => v.as_i64(),
        None => None,
    }
}

/// The process that an event belongs to: process 0 if it names none.
pub open spec fn pid_of(event: JsonModel) -> int {
    match named_pid(event) {
        Some(pid) => pid as int,
        None => 0,
    }
}

/// An object with another value in a field that it has.
pub open spec fn with_field(object: JsonModel, key: Seq<char>, value: JsonModel) -> JsonModel {
    match object {
        JsonModel::Object(fields) => JsonModel::Object(
            fields.update(json::field_index(fields, key) as int, (key, value)),
        ),
        _ => object,
    }
}

/// An event with its process id moved.
pub open spec fn shifted(event: JsonModel, offset: int) -> JsonModel {
    match named_pid(event) {
        Some(pid) => if offset != 0 {
            with_field(event, "pid"@, json::whole(pid + offset))
        } else {
            event
        },
        None => event,
    }
}

/// Whether the process id of an event can be moved so far.
pub open spec fn can_shift(event: JsonModel, offset: int) -> bool {
    match named_pid(event) {
        Some(pid) => i64::MIN <= pid + offset <= i64::MAX,
        None => true,
    }
}

/// Events with their process ids moved.
pub open spec fn all_shifted(events: Seq<JsonModel>, offset: int) -> Seq<JsonModel> {
    Seq::new(events.len(), |i: int| shifted(events[i], offset))
}

/// Whether the process ids of all events can be moved so far.
pub open spec fn can_shift_all(events: Seq<JsonModel>, offset: int) -> bool {
    forall|i: int| 0 <= i < events.len() ==> can_shift(#[trigger] events[i], offset)
}

/// The category of an event, if it has one.
pub open spec fn category(event: JsonModel) -> Option<Seq<char>> {
    match event.get("cat"@) {
        Some(JsonModel::Str(cat)) => if cat.len() > 0 {
            Some(cat)
        } else {
            None
        },
        _ => None,
    }
}

/// Whether a field of an event holds that text.
pub open spec fn holds(event: JsonModel, key: Seq<char>, value: Seq<char>) -> bool {
    event.get(key) == Some(JsonModel::Str(value))
}

/// Whether an event tells where a process is shown.
pub open spec fn is_sort_index(event: JsonModel) -> bool {
    holds(event, "ph"@, "M"@) && holds(event, "name"@, "process_sort_index"@)
}

/// Whether events of a category belong to the CPU.
pub open spec fn is_cpu(cat: Seq<char>) -> bool {
    cat == "cpu_op"@ || cat == "cuda_runtime"@ || cat == "cuda_driver"@
}

/// Whether events of a category belong to the GPU.
pub open spec fn is_gpu(cat: Seq<char>) -> bool {
    cat == "kernel"@ || cat == "gpu_memcpy"@ || cat == "gpu_memset"@ || cat == "gpu_user_annotation"@
}

// ---------------------------------------------------------------------------------------------
// The merged trace

/// The events that do not tell where a process is shown.
pub open spec fn kept(events: Seq<JsonModel>) -> Seq<JsonModel>
    decreases events.len(),
{
    if events.len() == 0 {
        seq![]
    } else if is_sort_index(events.last()) {
        kept(events.drop_last())
    } else {
        kept(events.drop_last()).push(events.last())
    }
}

/// The processes that events with a category belong to, each once, as they first appear.
pub open spec fn processes(events: Seq<JsonModel>) -> Seq<int>
    decreases events.len(),
{
    if events.len() == 0 {
        seq![]
    } else {
        let before = processes(events.drop_last());
        if category(events.last()) is Some && !before.contains(pid_of(events.last())) {
            before.push(pid_of(events.last()))
        } else {
            before
        }
    }
}

/// Whether an event is of a process and of a CPU category.
pub open spec fn shows_cpu(event: JsonModel, pid: int) -> bool {
    pid_of(event) == pid && (category(event) matches Some(cat) && is_cpu(cat))
}

/// Whether an event is of a process and of a GPU category.
pub open spec fn shows_gpu(event: JsonModel, pid: int) -> bool {
    pid_of(event) == pid && (category(event) matches Some(cat) && is_gpu(cat))
}

/// Whether a process has events of a CPU category.
pub open spec fn has_cpu(events: Seq<JsonModel>, pid: int) -> bool {
    exists|i: int| 0 <= i < events.len() && shows_cpu(#[trigger] events[i], pid)
}

/// Whether a process has events of a GPU category.
pub open spec fn has_gpu(events: Seq<JsonModel>, pid: int) -> bool {
    exists|i: int| 0 <= i < events.len() && shows_gpu(#[trigger] events[i], pid)
}

/// Where a process is shown: CPU processes before GPU processes, and those before any other.
pub open spec fn sort_index(cpu: bool, gpu: bool) -> int {
    if cpu {
        0
    } else if gpu {
        1
    } else {
        2
    }
}

/// Where a process is shown, by its events.
pub open spec fn process_index(events: Seq<JsonModel>, pid: int) -> int {
    sort_index(has_cpu(events, pid), has_gpu(events, pid))
}

/// The event that tells where a process is shown.
pub open spec fn sort_event(pid: int, index: int) -> JsonModel {
    JsonModel::Object(
        seq![
            ("args"@, JsonModel::Object(seq![("sort_index"@, json::whole(index))])),
            ("name"@, JsonModel::Str("process_sort_index"@)),
            ("ph"@, JsonModel::Str("M"@)),
            ("pid"@, json::whole(pid)),
            ("tid"@, json::whole(0)),
        ],
    )
}

/// The events that tell where the processes are shown.
pub open spec fn sort_events(events: Seq<JsonModel>) -> Seq<JsonModel> {
    let pids = processes(events);
    Seq::new(pids.len(), |i: int| sort_event(pids[i], process_index(events, pids[i])))
}

/// The merged trace of the events of all files.
pub open spec fn merged(events: Seq<JsonModel>) -> JsonModel {
    events::trace_of(kept(events) + sort_events(events))
}

// ---------------------------------------------------------------------------------------------
// Files

/// Why a file cannot be merged.
#[derive(Debug)]
pub enum MergeError {
    /// It starts as a gzip stream does, and could not be decompressed.
    Decompress(std::io::Error),
    /// Its content is no JSON document.
    Parse(serde_json::Error),
    /// The document is not one that has fields.
    NotAnObject,
    /// The document has no array of events.
    MissingEvents,
    /// The process id of some event cannot be moved so far.
    PidOutOfRange,
}

/// Why a file cannot be merged, without the outside error.
pub enum MergeFault {
    Decompress,
    Parse,
    NotAnObject,
    MissingEvents,
    PidOutOfRange,
}

impl MergeError {
    /// The kind of fault.
    pub open spec fn fault(self) -> MergeFault {
        match self {
            MergeError::Decompress(_) => MergeFault::Decompress,
            MergeError::Parse(_) => MergeFault::Parse,
            MergeError::NotAnObject => MergeFault::NotAnObject,
            MergeError::MissingEvents => MergeFault::MissingEvents,
            MergeError::PidOutOfRange => MergeFault::PidOutOfRange,
        }
    }
}

/// The events of a document. A null document has none, as an object without them; a document
/// that is neither has no fields to look into.
pub open spec fn events_of(document: JsonModel) -> Result<Seq<JsonModel>, MergeFault> {
    match document {
        JsonModel::Null => Err(MergeFault::MissingEvents),
        JsonModel::Object(_) => match document.get("traceEvents"@) {
            Some(JsonModel::Array(events)) => Ok(events),
            _ => Err(MergeFault::MissingEvents),
        },
        _ => Err(MergeFault::NotAnObject),
    }
}

/// The events of a file.
pub open spec fn file_events(data: Seq<u8>) -> Result<Seq<JsonModel>, MergeFault> {
    match util::file_content(data) {
        Some(content) => match json::json_parsed(content) {
            Some(document) => events_of(document),
            None => Err(MergeFault::Parse),
        },
        None => Err(MergeFault::Decompress),
    }
}

/// The events that a file adds to the merged trace.
pub open spec fn added_events(data: Seq<u8>, offset: int) -> Result<Seq<JsonModel>, MergeFault> {
    match file_events(data) {
        Ok(events) => if can_shift_all(events, offset) {
            Ok(all_shifted(events, offset))
        } else {
            Err(MergeFault::PidOutOfRange)
        },
        Err(fault) => Err(fault),
    }
}

/// The contents of files.
pub open spec fn contents(files: Seq<Vec<u8>>) -> Seq<Seq<u8>> {
    Seq::new(files.len(), |i: int| files[i]@)
}

/// The events of the first `n` files, or the first file that cannot be merged and why.
pub open spec fn collected(files: Seq<Seq<u8>>, n: nat) -> Result<Seq<JsonModel>, (nat, MergeFault)>
    decreases n,
{
    if n == 0 {
        Ok(seq![])
    } else {
        let i = (n - 1) as nat;
        match collected(files, i) {
            Ok(before) => match added_events(files[i as int], pid_offset(files.len(), i)) {
                Ok(events) => Ok(before + events),
                Err(fault) => Err((i, fault)),
            },
            Err(e) => Err(e),
        }
    }
}

/// Takes the events out of a document.
pub fn take_events(document: Json) -> (r: Result<Vec<Json>, MergeError>)
    ensures
        match r {
            Ok(events) => events_of(document@) == Ok::<Seq<JsonModel>, MergeFault>(
                json::documents(events@),
            ),
            Err(e) => events_of(document@) == Err::<Seq<JsonModel>, MergeFault>(e.fault()),
        },
{
    match document {
        Json::Null => Err(MergeError::MissingEvents),
        Json::Object(fields) => {
            proof {
                json::lemma_object_view(fields);
            }
            let mut fields = fields;
            let i = json::find_field(&fields, "traceEvents");
            if i < fields.len() {
                let (_, value) = fields.remove(i);
                match value {
                    Json::Array(events) => {
                        proof {
                            json::lemma_array_view(events);
                        }
                        Ok(events)
                    },
                    _ => Err(MergeError::MissingEvents),
                }
            } else {
                Err(MergeError::MissingEvents)
            }
        },
        _ => Err(MergeError::NotAnObject),
    }
}

/// The process id that an event names, if it is a whole number.
fn read_pid(event: &Json) -> (r: Option<i64>)
    ensures
        r == named_pid(event@),
{
    match event.get("pid") {
        Some(v) => v.as_i64(),
        None => None,
    }
}

/// Tells whether a field of an event holds that text.
fn field_is(event: &Json, key: &str, value: &str) -> (r: bool)
    ensures
        r == holds(event@, key@, value@),
{
    match event.get(key) {
        Some(v) => match v.as_str() {
            Some(s) => text::same(s, value),
            None => false,
        },
        None => false,
    }
}

/// Moves the process id of an event.
pub fn shift_pid(event: Json, offset: i64) -> (r: Json)
    requires
        can_shift(event@, offset as int),
    ensures
        r@ == shifted(event@, offset as int),
{
    if offset == 0 {
        return event;
    }
    match read_pid(&event) {
        Some(pid) => match event {
            Json::Object(fields) => {
                proof {
                    json::lemma_object_view(fields);
                }
                let ghost old_fields = json::fields_of(fields@);
                let mut fields = fields;
                let i = json::find_field(&fields, "pid");
                fields.set(i, (text::copy_of("pid"), Json::from_i64(pid + offset)));
                proof {
                    json::lemma_object_view(fields);
                    assert(json::fields_of(fields@) =~= old_fields.update(
                        i as int,
                        ("pid"@, json::whole(pid + offset)),
                    ));
                }
                Json::Object(fields)
            },
            other => other,
        },
        None => event,
    }
}

/// Tells whether the process ids of all events can be moved so far.
fn fits_all(events: &Vec<Json>, offset: i64) -> (r: bool)
    ensures
        r == can_shift_all(json::documents(events@), offset as int),
{
    for i in 0..events.len()
        invariant
            forall|j: int|
                0 <= j < i ==> can_shift(#[trigger] json::documents(events@)[j], offset as int),
    {
        assert(json::documents(events@)[i as int] == events@[i as int]@);
        match read_pid(&events[i]) {
            Some(pid) => if pid.checked_add(offset).is_none() {
                return false;
            },
            None => {},
        }
    }
    true
}

/// The event that tells where a process is shown.
fn make_sort_event(pid: i64, cpu: bool, gpu: bool) -> (r: Json)
    ensures
        r@ == sort_event(pid as int, sort_index(cpu, gpu)),
{
    let index: i64 = if cpu {
        0
    } else if gpu {
        1
    } else {
        2
    };
    let mut args: Vec<(String, Json)> = Vec::new();
    args.push((text::copy_of("sort_index"), Json::from_i64(index)));
    let ghost args_view = json::fields_of(args@);
    proof {
        json::lemma_object_view(args);
        assert(args_view =~= seq![("sort_index"@, json::whole(index as int))]);
    }
    let mut fields: Vec<(String, Json)> = Vec::new();
    fields.push((text::copy_of("args"), Json::Object(args)));
    fields.push((text::copy_of("name"), Json::from_text("process_sort_index")));
    fields.push((text::copy_of("ph"), Json::from_text("M")));
    fields.push((text::copy_of("pid"), Json::from_i64(pid)));
    fields.push((text::copy_of("tid"), Json::from_i64(0)));
    proof {
        json::lemma_object_view(fields);
        assert(json::fields_of(fields@) =~= sort_event(
            pid as int,
            sort_index(cpu, gpu),
        )->Object_0);
    }
    Json::Object(fields)
}

// ---------------------------------------------------------------------------------------------
// Merging

/// A process of the merged trace.
struct Process {
    pid: i64,
    cpu: bool,
    gpu: bool,
}

/// Whether processes are those of the events, with what the events show of them.
spec fn describes(found: Seq<Process>, events: Seq<JsonModel>) -> bool {
    &&& found.len() == processes(events).len()
    &&& forall|i: int|
        0 <= i < found.len() ==> {
            &&& (#[trigger] found[i]).pid == processes(events)[i]
            &&& found[i].cpu == has_cpu(events, found[i].pid as int)
            &&& found[i].gpu == has_gpu(events, found[i].pid as int)
        }
}

/// Whether a map leads from each process to where it stands.
spec fn leads(index: Map<i64, usize>, found: Seq<Process>) -> bool {
    &&& forall|i: int|
        0 <= i < found.len() ==> index.dom().contains((#[trigger] found[i]).pid) && index[found[i].pid]
            == i
    &&& forall|pid: i64| #[trigger]
        index.dom().contains(pid) ==> index[pid] < found.len() && found[index[pid] as int].pid == pid
}

/// What a merge has come to: how many files there are, how many were added, and their events.
pub struct MergerModel {
    pub files: nat,
    pub added: nat,
    pub events: Seq<JsonModel>,
}

/// A merge of files that are added one after the other.
pub struct Merger {
    files: usize,
    added: usize,
    kept_events: Vec<Json>,
    found: Vec<Process>,
    index: HashMap<i64, usize>,
    seen: Ghost<Seq<JsonModel>>,
}

impl View for Merger {
    type V = MergerModel;

    closed spec fn view(&self) -> MergerModel {
        MergerModel { files: self.files as nat, added: self.added as nat, events: self.seen@ }
    }
}

/// One more event shows what it shows, and nothing of other processes.
proof fn lemma_one_more(events: Seq<JsonModel>, event: JsonModel, pid: int)
    ensures
        has_cpu(events.push(event), pid) == (has_cpu(events, pid) || shows_cpu(event, pid)),
        has_gpu(events.push(event), pid) == (has_gpu(events, pid) || shows_gpu(event, pid)),
        processes(events.push(event)) == if category(event) is Some && !processes(events).contains(
            pid_of(event),
        ) {
            processes(events).push(pid_of(event))
        } else {
            processes(events)
        },
        kept(events.push(event)) == if is_sort_index(event) {
            kept(events)
        } else {
            kept(events).push(event)
        },
{
    let more = events.push(event);
    let n = events.len() as int;
    assert(more.drop_last() =~= events);
    if has_cpu(more, pid) {
        let i = choose|i: int| 0 <= i < more.len() && shows_cpu(#[trigger] more[i], pid);
        if i < n {
            assert(shows_cpu(events[i], pid));
        }
    }
    if has_cpu(events, pid) {
        let i = choose|i: int| 0 <= i < n && shows_cpu(#[trigger] events[i], pid);
        assert(shows_cpu(more[i], pid));
    }
    if has_gpu(more, pid) {
        let i = choose|i: int| 0 <= i < more.len() && shows_gpu(#[trigger] more[i], pid);
        if i < n {
            assert(shows_gpu(events[i], pid));
        }
    }
    if has_gpu(events, pid) {
        let i = choose|i: int| 0 <= i < n && shows_gpu(#[trigger] events[i], pid);
        assert(shows_gpu(more[i], pid));
    }
    if shows_cpu(event, pid) {
        assert(shows_cpu(more[n], pid));
    }
    if shows_gpu(event, pid) {
        assert(shows_gpu(more[n], pid));
    }
}

/// A process that no event with a category belongs to shows nothing.
proof fn lemma_unknown_process(events: Seq<JsonModel>, pid: int)
    requires
        !processes(events).contains(pid),
    ensures
        !has_cpu(events, pid),
        !has_gpu(events, pid),
    decreases events.len(),
{
    if events.len() > 0 {
        let head = events.drop_last();
        let last = events.last();
        assert(events =~= head.push(last));
        if processes(head).contains(pid) {
            let i = processes(head).index_of(pid);
            assert(processes(events)[i] == pid);
        }
        if category(last) is Some && pid_of(last) == pid {
            assert(processes(events)[processes(events).len() - 1] == pid);
        }
        lemma_unknown_process(head, pid);
        lemma_one_more(head, last, pid);
    }
}

impl Merger {
    /// Whether what is held agrees with the events that were added.
    pub closed spec fn wf(&self) -> bool {
        &&& self.files <= MAX_FILES
        &&& json::documents(self.kept_events@) == kept(self.seen@)
        &&& describes(self.found@, self.seen@)
        &&& leads(self.index@, self.found@)
    }

    /// A merge of so many files, of which none was added yet.
    pub fn new(files: usize) -> (r: Merger)
        requires
            files <= MAX_FILES,
        ensures
            r.wf(),
            r@ == (MergerModel { files: files as nat, added: 0, events: seq![] }),
    {
        let r = Merger {
            files,
            added: 0,
            kept_events: Vec::new(),
            found: Vec::new(),
            index: HashMap::new(),
            seen: Ghost(Seq::empty()),
        };
        assert(json::documents(r.kept_events@) =~= kept(r.seen@));
        r
    }

    /// Notes the process of an event with a category.
    fn note(&mut self, pid: i64, cpu: bool, gpu: bool)
        requires
            leads(old(self).index@, old(self).found@),
        ensures
            leads(final(self).index@, final(self).found@),
            final(self).files == old(self).files,
            final(self).added == old(self).added,
            final(self).kept_events == old(self).kept_events,
            final(self).seen == old(self).seen,
            old(self).index@.dom().contains(pid) ==> final(self).found@ == old(self).found@.update(
                old(self).index@[pid] as int,
                (Process {
                    pid,
                    cpu: old(self).found@[old(self).index@[pid] as int].cpu || cpu,
                    gpu: old(self).found@[old(self).index@[pid] as int].gpu || gpu,
                }),
            ),
            !old(self).index@.dom().contains(pid) ==> final(self).found@ == old(self).found@.push(
                (Process { pid, cpu, gpu }),
            ),
    {
        let at: Option<usize> = match self.index.get(&pid) {
            Some(i) => Some(*i),
            None => None,
        };
        match at {
            Some(i) => {
                let p = Process { pid, cpu: self.found[i].cpu || cpu, gpu: self.found[i].gpu || gpu };
                self.found.set(i, p);
            },
            None => {
                let n: usize = self.found.len();
                self.found.push(Process { pid, cpu, gpu });
                self.index.insert(pid, n);
            },
        }
    }

    /// Adds an event as it is.
    fn record(&mut self, event: Json)
        requires
            old(self).wf(),
        ensures
            final(self).wf(),
            final(self).files == old(self).files,
            final(self).added == old(self).added,
            final(self).seen@ == old(self).seen@.push(event@),
    {
        let ghost before = self.seen@;
        let ghost model = event@;
        let ghost found_before = self.found@;
        let ghost index_before = self.index@;
        let cat: Option<(bool, bool)> = match event.get("cat") {
            Some(v) => match v.as_str() {
                Some(s) => if s.is_empty() {
                    None
                } else {
                    let cpu = text::same(s, "cpu_op") || text::same(s, "cuda_runtime") || text::same(
                        s,
                        "cuda_driver",
                    );
                    let gpu = text::same(s, "kernel") || text::same(s, "gpu_memcpy") || text::same(
                        s,
                        "gpu_memset",
                    ) || text::same(s, "gpu_user_annotation");
                    Some((cpu, gpu))
                },
                None => None,
            },
            None => None,
        };
        assert(cat is Some <==> category(model) is Some);
        assert(cat matches Some((cpu, gpu)) ==> (category(model) matches Some(c) && cpu == is_cpu(c)
            && gpu == is_gpu(c)));
        let pid: i64 = match read_pid(&event) {
            Some(pid) => pid,
            None => 0,
        };
        if let Some((cpu, gpu)) = cat {
            self.note(pid, cpu, gpu);
        }
        let stripped = field_is(&event, "ph", "M") && field_is(&event, "name", "process_sort_index");
        if !stripped {
            let ghost kept_before = json::documents(self.kept_events@);
            self.kept_events.push(event);
            assert(json::documents(self.kept_events@) =~= kept_before.push(model));
        }
        self.seen = Ghost(before.push(model));
        proof {
            lemma_one_more(before, model, pid as int);
            assert(processes(before).contains(pid as int) == index_before.dom().contains(pid)) by {
                if processes(before).contains(pid as int) {
                    let i = processes(before).index_of(pid as int);
                    assert(found_before[i].pid == pid);
                }
                if index_before.dom().contains(pid) {
                    let i = index_before[pid] as int;
                    assert(processes(before)[i] == found_before[i].pid);
                }
            }
            if !processes(before).contains(pid as int) {
                lemma_unknown_process(before, pid as int);
            }
            assert forall|i: int| 0 <= i < self.found@.len() implies {
                &&& (#[trigger] self.found@[i]).pid == processes(self.seen@)[i]
                &&& self.found@[i].cpu == has_cpu(self.seen@, self.found@[i].pid as int)
                &&& self.found@[i].gpu == has_gpu(self.seen@, self.found@[i].pid as int)
            } by {
                lemma_one_more(before, model, self.found@[i].pid as int);
                if i < found_before.len() {
                    assert(found_before[i].pid == processes(before)[i]);
                }
            }
        }
    }

    /// Adds the events of the next file. Where there is more than one file, process ids are
    /// moved so that those of different files are kept apart.
    pub fn add_events(&mut self, events: Vec<Json>)
        requires
            old(self).wf(),
            old(self)@.added < old(self)@.files,
            can_shift_all(
                json::documents(events@),
                pid_offset(old(self)@.files, old(self)@.added),
            ),
        ensures
            final(self).wf(),
            final(self)@ == (MergerModel {
                files: old(self)@.files,
                added: old(self)@.added + 1,
                events: old(self)@.events + all_shifted(
                    json::documents(events@),
                    pid_offset(old(self)@.files, old(self)@.added),
                ),
            }),
    {
        let offset = self.offset();
        let ghost all = events@;
        let ghost models = json::documents(all);
        let ghost out = all_shifted(models, offset as int);
        let ghost before = self.seen@;
        for event in it: events
            invariant
                it.seq() == all,
                models == json::documents(all),
                out == all_shifted(models, offset as int),
                can_shift_all(models, offset as int),
                self.wf(),
                self.files == old(self).files,
                self.added == old(self).added,
                self.seen@ == before + out.take(it.index()),
        {
            assert(models[it.index()] == event@);
            self.record(shift_pid(event, offset));
            assert(self.seen@ =~= before + out.take(it.index() + 1));
        }
        assert(out.take(out.len() as int) =~= out);
        self.added = self.added + 1;
    }

    /// How far the process ids of the next file are moved.
    fn offset(&self) -> (r: i64)
        requires
            self.wf(),
            self@.added < self@.files,
        ensures
            r == pid_offset(self@.files, self@.added),
    {
        if self.files > 1 {
            self.added as i64 * PID_OFFSET_STEP
        } else {
            0
        }
    }

    /// Adds the next file, given its content. Where it cannot be merged nothing changes.
    pub fn add_file(&mut self, data: Vec<u8>) -> (r: Result<(), MergeError>)
        requires
            old(self).wf(),
            old(self)@.added < old(self)@.files,
        ensures
            final(self).wf(),
            match r {
                Ok(()) => added_events(
                    data@,
                    pid_offset(old(self)@.files, old(self)@.added),
                ) matches Ok(events) && final(self)@ == (MergerModel {
                    files: old(self)@.files,
                    added: old(self)@.added + 1,
                    events: old(self)@.events + events,
                }),
                Err(e) => added_events(data@, pid_offset(old(self)@.files, old(self)@.added)) == Err::<
                    Seq<JsonModel>,
                    MergeFault,
                >(e.fault()) && final(self)@ == old(self)@,
            },
    {
        let content = match util::open_reader(data) {
            Ok(content) => content,
            Err(e) => {
                return Err(MergeError::Decompress(e));
            },
        };
        let document = match Json::parse(&content) {
            Ok(document) => document,
            Err(e) => {
                return Err(MergeError::Parse(e));
            },
        };
        let events = match take_events(document) {
            Ok(events) => events,
            Err(e) => {
                return Err(e);
            },
        };
        if !fits_all(&events, self.offset()) {
            return Err(MergeError::PidOutOfRange);
        }
        self.add_events(events);
        Ok(())
    }

    /// The merged trace.
    pub fn finish(self) -> (r: Json)
        requires
            self.wf(),
        ensures
            r@ == merged(self@.events),
    {
        let ghost seen = self.seen@;
        let ghost tail = sort_events(seen);
        let mut events = self.kept_events;
        let found = self.found;
        assert(tail.take(0) =~= seq![]);
        assert(json::documents(events@) =~= kept(seen) + tail.take(0));
        for i in 0..found.len()
            invariant
                describes(found@, seen),
                tail == sort_events(seen),
                json::documents(events@) == kept(seen) + tail.take(i as int),
        {
            let ghost before = json::documents(events@);
            assert(found@[i as int].pid == processes(seen)[i as int]);
            let event = make_sort_event(found[i].pid, found[i].cpu, found[i].gpu);
            let ghost added = event@;
            assert(added == tail[i as int]);
            events.push(event);
            assert(json::documents(events@) =~= before.push(added));
            assert(tail.take(i + 1) =~= tail.take(i as int).push(added));
        }
        assert(tail.take(tail.len() as int) =~= tail);
        events::make_trace(events)
    }
}

/// Merges the contents of multiple trace files into a single Chrome trace. The first file that
/// cannot be merged is reported by its index.
///
/// CPU processes are sorted before GPU processes using `process_sort_index` metadata events. CPU
/// processes are identified by having categories like `cpu_op`/`cuda_runtime`; GPU processes have
/// `kernel`/`gpu_memcpy`. When merging multiple files, pids are offset to avoid collisions.
pub fn merge_traces(files: Vec<Vec<u8>>) -> (r: Result<Json, (usize, MergeError)>)
    requires
        files@.len() <= MAX_FILES,
    ensures
        match r {
            Ok(document) => collected(contents(files@), files@.len()) matches Ok(events)
                && document@ == merged(events),
            Err((i, e)) => collected(contents(files@), files@.len()) == Err::<
                Seq<JsonModel>,
                (nat, MergeFault),
            >((i as nat, e.fault())),
        },
{
    let ghost all = files@;
    let ghost data = contents(all);
    let mut merger = Merger::new(files.len());
    let mut index: usize = 0;
    for file in it: files
        invariant
            it.seq() == all,
            data == contents(all),
            index == it.index(),
            all.len() <= MAX_FILES,
            merger.wf(),
            merger@.files == all.len(),
            merger@.added == index,
            collected(data, index as nat) == Ok::<Seq<JsonModel>, (nat, MergeFault)>(
                merger@.events,
            ),
    {
        assert(data[index as int] == file@);
        match merger.add_file(file) {
            Ok(()) => {
                index = index + 1;
            },
            Err(e) => {
                proof {
                    lemma_first_fault(data, (index + 1) as nat, data.len());
                }
                return Err((index, e));
            },
        }
    }
    Ok(merger.finish())
}

/// Once a file cannot be merged, the files behind it do not matter.
proof fn lemma_first_fault(files: Seq<Seq<u8>>, n: nat, m: nat)
    requires
        n <= m,
        collected(files, n) is Err,
    ensures
        collected(files, m) == collected(files, n),
    decreases m,
{
    if n < m {
        lemma_first_fault(files, n, (m - 1) as nat);
    }
}

// ---------------------------------------------------------------------------------------------
// Laws

/// A field that is replaced holds the new value, and the others hold what they held.
proof fn lemma_with_field(object: JsonModel, key: Seq<char>, value: JsonModel, other: Seq<char>)
    requires
        object.get(key) is Some,
    ensures
        with_field(object, key, value).get(key) == Some(value),
        other != key ==> with_field(object, key, value).get(other) == object.get(other),
{
    let fields = object->Object_0;
    let at = json::field_index(fields, key);
    let new_fields = with_field(object, key, value)->Object_0;
    lemma_index_found(fields, key);
    json::lemma_field_index(new_fields, key, at);
    if other != key {
        lemma_index_found(fields, other);
        json::lemma_field_index(new_fields, other, json::field_index(fields, other));
    }
}

/// The index of a field is the first at which a field of that name stands.
proof fn lemma_index_found(fields: Seq<(Seq<char>, JsonModel)>, key: Seq<char>)
    ensures
        json::field_index(fields, key) <= fields.len(),
        forall|i: int| 0 <= i < json::field_index(fields, key) ==> (#[trigger] fields[i]).0 != key,
        json::field_index(fields, key) < fields.len() ==> fields[json::field_index(fields, key) as int].0
            == key,
{
    json::lemma_index_is_first(fields, key);
}

/// Moving the process id of an event moves it by the offset, and changes nothing else of it.
pub proof fn law_only_the_pid_moves(event: JsonModel, offset: int, key: Seq<char>)
    requires
        can_shift(event, offset),
    ensures
        named_pid(event) matches Some(pid) ==> pid_of(shifted(event, offset)) == pid + offset,
        named_pid(event) is None ==> shifted(event, offset) == event,
        key != "pid"@ ==> shifted(event, offset).get(key) == event.get(key),
        category(shifted(event, offset)) == category(event),
        is_sort_index(shifted(event, offset)) == is_sort_index(event),
{
    reveal_strlit("pid");
    reveal_strlit("cat");
    reveal_strlit("ph");
    reveal_strlit("name");
    assert("pid"@.len() == 3 && "pid"@[0] == 'p');
    assert("cat"@[0] == 'c');
    assert("ph"@.len() == 2);
    assert("name"@.len() == 4);
    if let Some(pid) = named_pid(event) {
        let value = json::whole(pid + offset);
        lemma_with_field(event, "pid"@, value, key);
        lemma_with_field(event, "pid"@, value, "cat"@);
        lemma_with_field(event, "pid"@, value, "ph"@);
        lemma_with_field(event, "pid"@, value, "name"@);
    }
}

/// The process ids of a single file stay as they are, and so do those of the first of several.
pub proof fn law_first_file_keeps_its_pids(files: nat, events: Seq<JsonModel>)
    ensures
        all_shifted(events, pid_offset(files, 0)) == events,
        files <= 1 ==> forall|i: nat| #[trigger] pid_offset(files, i) == 0,
{
    assert(all_shifted(events, pid_offset(files, 0)) =~= events);
}

/// Process ids that are less than a step apart do not collide: events of two files that are merged
/// belong to different processes.
pub proof fn law_pids_do_not_collide(
    files: nat,
    i: nat,
    j: nat,
    a: JsonModel,
    b: JsonModel,
)
    requires
        i < files,
        j < files,
        i != j,
        named_pid(a) is Some,
        named_pid(b) is Some,
        -PID_OFFSET_STEP < named_pid(a)->0 - named_pid(b)->0 < PID_OFFSET_STEP,
        can_shift(a, pid_offset(files, i)),
        can_shift(b, pid_offset(files, j)),
    ensures
        pid_of(shifted(a, pid_offset(files, i))) != pid_of(shifted(b, pid_offset(files, j))),
{
    law_only_the_pid_moves(a, pid_offset(files, i), "pid"@);
    law_only_the_pid_moves(b, pid_offset(files, j), "pid"@);
}

/// Processes are listed once each, and are those that events with a category belong to.
pub proof fn law_processes_are_those_with_categories(events: Seq<JsonModel>)
    ensures
        forall|i: int, j: int|
            0 <= i < j < processes(events).len() ==> #[trigger] processes(events)[i]
                != #[trigger] processes(events)[j],
        forall|pid: int| #[trigger]
            processes(events).contains(pid) <==> exists|i: int|
                0 <= i < events.len() && category(#[trigger] events[i]) is Some && pid_of(events[i])
                    == pid,
    decreases events.len(),
{
    if events.len() > 0 {
        let head = events.drop_last();
        let last = events.last();
        let before = processes(head);
        let after = processes(events);
        let n = events.len() as int;
        law_processes_are_those_with_categories(head);
        assert forall|i: int, j: int| 0 <= i < j < after.len() implies #[trigger] after[i]
            != #[trigger] after[j] by {
            assert(after[i] == before[i]);
            if j < before.len() {
                assert(after[j] == before[j]);
            } else {
                assert(before.contains(before[i]));
            }
        }
        assert forall|pid: int| #[trigger] after.contains(pid) implies exists|i: int|
            0 <= i < n && category(#[trigger] events[i]) is Some && pid_of(events[i]) == pid by {
            if before.contains(pid) {
                let i = choose|i: int|
                    0 <= i < head.len() && category(#[trigger] head[i]) is Some && pid_of(head[i]) == pid;
                assert(events[i] == head[i]);
            } else {
                let k = after.index_of(pid);
                if k < before.len() {
                    assert(before[k] == pid);
                }
                assert(events[n - 1] == last);
            }
        }
        assert forall|pid: int|
            (exists|i: int|
                0 <= i < n && category(#[trigger] events[i]) is Some && pid_of(events[i])
                    == pid) implies #[trigger] after.contains(pid) by {
            let i = choose|i: int|
                0 <= i < n && category(#[trigger] events[i]) is Some && pid_of(events[i]) == pid;
            if i < n - 1 {
                assert(head[i] == events[i]);
                assert(before.contains(pid));
            }
            if before.contains(pid) {
                assert(after[before.index_of(pid)] == pid);
            } else {
                assert(after[after.len() - 1] == pid);
            }
        }
    }
}

/// CPU processes are shown before GPU processes, and those before the others: a process with
/// events of a CPU category comes before one without, and of those without, one with events of a
/// GPU category before one with neither.
pub proof fn law_cpu_before_gpu(events: Seq<JsonModel>, p: int, q: int)
    ensures
        has_cpu(events, p) && !has_cpu(events, q) ==> process_index(events, p) < process_index(
            events,
            q,
        ),
        !has_cpu(events, p) && has_gpu(events, p) && !has_cpu(events, q) && !has_gpu(events, q)
            ==> process_index(events, p) < process_index(events, q),
{
}

/// The merged trace tells where a process is shown only through the events that are added, one for
/// each process: those that the files hold are left out, and all other events stay in order.
pub proof fn law_sort_indices_are_replaced(events: Seq<JsonModel>)
    ensures
        forall|i: int| 0 <= i < kept(events).len() ==> !is_sort_index(#[trigger] kept(events)[i]),
        forall|i: int|
            0 <= i < sort_events(events).len() ==> is_sort_index(#[trigger] sort_events(events)[i])
                && category(sort_events(events)[i]) is None,
        sort_events(events).len() == processes(events).len(),
        kept(events) == events.filter(|e: JsonModel| !is_sort_index(e)),
    decreases events.len(),
{
    let tail = sort_events(events);
    assert forall|i: int| 0 <= i < tail.len() implies is_sort_index(#[trigger] tail[i]) && category(
        tail[i],
    ) is None by {
        let pid = processes(events)[i];
        lemma_sort_event(pid, process_index(events, pid));
    }
    let keep = |e: JsonModel| !is_sort_index(e);
    reveal(Seq::filter);
    if events.len() > 0 {
        law_sort_indices_are_replaced(events.drop_last());
        assert forall|i: int| 0 <= i < kept(events).len() implies !is_sort_index(
            #[trigger] kept(events)[i],
        ) by {
            if i < kept(events.drop_last()).len() {
                assert(kept(events)[i] == kept(events.drop_last())[i]);
            }
        }
    }
}

/// Events that only tell where processes are shown, and have no category, add nothing.
proof fn lemma_sort_events_add_nothing(events: Seq<JsonModel>, more: Seq<JsonModel>, pid: int)
    requires
        forall|i: int|
            0 <= i < more.len() ==> is_sort_index(#[trigger] more[i]) && category(more[i]) is None,
    ensures
        kept(events + more) == kept(events),
        processes(events + more) == processes(events),
        has_cpu(events + more, pid) == has_cpu(events, pid),
        has_gpu(events + more, pid) == has_gpu(events, pid),
    decreases more.len(),
{
    if more.len() == 0 {
        assert(events + more =~= events);
    } else {
        let head = more.drop_last();
        lemma_sort_events_add_nothing(events, head, pid);
        assert(more[more.len() - 1] == more.last());
        assert(events + more =~= (events + head).push(more.last()));
        lemma_one_more(events + head, more.last(), pid);
    }
}

/// Leaving out events that tell where processes are shown leaves out no process, where those events
/// have no category.
proof fn lemma_kept_events_show_the_same(events: Seq<JsonModel>, pid: int)
    requires
        forall|i: int|
            0 <= i < events.len() && is_sort_index(#[trigger] events[i]) ==> category(events[i]) is None,
    ensures
        kept(kept(events)) == kept(events),
        processes(kept(events)) == processes(events),
        has_cpu(kept(events), pid) == has_cpu(events, pid),
        has_gpu(kept(events), pid) == has_gpu(events, pid),
    decreases events.len(),
{
    if events.len() > 0 {
        let head = events.drop_last();
        let last = events.last();
        assert(events[events.len() - 1] == last);
        assert(events =~= head.push(last));
        lemma_kept_events_show_the_same(head, pid);
        lemma_one_more(head, last, pid);
        lemma_one_more(kept(head), last, pid);
    }
}

/// Merging a merged trace again changes nothing. Where an event that tells where a process is shown
/// has a category itself, its process is known by an event that the merged trace leaves out.
pub proof fn law_merging_again_changes_nothing(events: Seq<JsonModel>)
    requires
        forall|i: int|
            0 <= i < events.len() && is_sort_index(#[trigger] events[i]) ==> category(events[i]) is None,
    ensures
        events_of(merged(events)) matches Ok(again) && merged(
            all_shifted(again, pid_offset(1, 0)),
        ) == merged(events),
{
    let again = kept(events) + sort_events(events);
    let fields = merged(events)->Object_0;
    json::lemma_field_index(fields, "traceEvents"@, 0);
    assert(events_of(merged(events)) == Ok::<Seq<JsonModel>, MergeFault>(again));
    assert(all_shifted(again, pid_offset(1, 0)) =~= again);
    law_sort_indices_are_replaced(events);
    lemma_sort_events_add_nothing(kept(events), sort_events(events), 0);
    lemma_kept_events_show_the_same(events, 0);
    let pids = processes(events);
    assert(sort_events(again).len() == sort_events(events).len());
    assert forall|i: int| 0 <= i < pids.len() implies sort_events(again)[i] == sort_events(events)[i] by {
        lemma_sort_events_add_nothing(kept(events), sort_events(events), pids[i]);
        lemma_kept_events_show_the_same(events, pids[i]);
    }
    assert(sort_events(again) =~= sort_events(events));
}

/// The event that is added for a process tells where it is shown, and has no category.
proof fn lemma_sort_event(pid: int, index: int)
    ensures
        is_sort_index(sort_event(pid, index)),
        category(sort_event(pid, index)) is None,
{
    reveal_strlit("args");
    reveal_strlit("name");
    reveal_strlit("ph");
    reveal_strlit("pid");
    reveal_strlit("tid");
    reveal_strlit("cat");
    let fields = sort_event(pid, index)->Object_0;
    assert("args"@[0] == 'a' && "name"@[0] == 'n' && "cat"@[0] == 'c' && "tid"@[0] == 't' && "pid"@[0]
        == 'p' && "ph"@[0] == 'p');
    assert("cat"@.len() == 3 && "ph"@.len() == 2);
    json::lemma_field_index(fields, "name"@, 1);
    json::lemma_field_index(fields, "ph"@, 2);
    json::lemma_field_index(fields, "cat"@, 5);
}

/// Moving the process id of an event keeps it as `serde_json` holds it.
pub proof fn law_shifted_event_is_ordered(event: JsonModel, offset: int)
    requires
        json::ordered(event),
        can_shift(event, offset),
    ensures
        json::ordered(shifted(event, offset)),
{
    if let Some(pid) = named_pid(event) {
        if offset != 0 {
            let fields = event->Object_0;
            let at = json::field_index(fields, "pid"@) as int;
            let after = shifted(event, offset)->Object_0;
            lemma_index_found(fields, "pid"@);
            json::lemma_ordered_fields(fields);
            json::lemma_ordered_fields(after);
            assert forall|i: int, j: int| 0 <= i < j < after.len() implies order::text_less(
                (#[trigger] after[i]).0,
                (#[trigger] after[j]).0,
            ) by {
                assert(after[i].0 == fields[i].0 && after[j].0 == fields[j].0);
            }
            assert forall|i: int| 0 <= i < after.len() implies json::ordered((#[trigger] after[i]).1) by {
                if i != at {
                    assert(after[i] == fields[i]);
                    assert(json::ordered(fields[i].1));
                }
            }
        }
    }
}

/// The event that is added for a process is as `serde_json` holds it.
proof fn lemma_sort_event_is_ordered(pid: int, index: int)
    requires
        i64::MIN <= pid <= i64::MAX,
        0 <= index <= 2,
    ensures
        json::ordered(sort_event(pid, index)),
{
    reveal_strlit("args");
    reveal_strlit("name");
    reveal_strlit("ph");
    reveal_strlit("pid");
    reveal_strlit("tid");
    let args = JsonModel::Object(seq![("sort_index"@, json::whole(index))]);
    json::lemma_ordered_fields(args->Object_0);
    assert(json::ordered(args->Object_0[0].1));
    let fields = sort_event(pid, index)->Object_0;
    assert forall|i: int, j: int| 0 <= i < j < fields.len() implies order::text_less(
        (#[trigger] fields[i]).0,
        (#[trigger] fields[j]).0,
    ) by {
        let a = fields[i].0;
        let b = fields[j].0;
        assert(a[0] == "args"@[0] || a[0] == "name"@[0] || a[0] == "ph"@[0] || a[0] == "pid"@[0]);
        if i == 2 && j == 3 {
            order::lemma_text_less_at(a, b, 1);
        } else {
            order::lemma_text_less_at(a, b, 0);
        }
    }
    json::lemma_ordered_fields(fields);
    assert forall|i: int| 0 <= i < fields.len() implies json::ordered((#[trigger] fields[i]).1) by {
        assert(i == 0 || i == 1 || i == 2 || i == 3 || i == 4);
    }
}

/// The processes of events are named by 64-bit numbers.
proof fn lemma_processes_fit(events: Seq<JsonModel>)
    ensures
        forall|i: int|
            0 <= i < processes(events).len() ==> i64::MIN <= #[trigger] processes(events)[i] <= i64::MAX,
    decreases events.len(),
{
    if events.len() > 0 {
        lemma_processes_fit(events.drop_last());
        let before = processes(events.drop_last());
        assert forall|i: int| 0 <= i < processes(events).len() implies i64::MIN
            <= #[trigger] processes(events)[i] <= i64::MAX by {
            if i < before.len() {
                assert(processes(events)[i] == before[i]);
            }
        }
    }
}

/// A merged trace is written as it is: where the events are as `serde_json` holds them, so is the
/// merged trace, and it is held without change.
pub proof fn law_merged_trace_is_written_as_it_is(events: Seq<JsonModel>)
    requires
        forall|i: int| 0 <= i < events.len() ==> json::ordered(#[trigger] events[i]),
    ensures
        json::ordered(merged(events)),
        json::stored(merged(events)) == merged(events),
    decreases events.len(),
{
    let tail = sort_events(events);
    let all = kept(events) + tail;
    lemma_kept_is_ordered(events);
    lemma_processes_fit(events);
    assert forall|i: int| 0 <= i < all.len() implies json::ordered(#[trigger] all[i]) by {
        if i < kept(events).len() {
            assert(all[i] == kept(events)[i]);
        } else {
            let k = i - kept(events).len();
            let pid = processes(events)[k];
            lemma_sort_event_is_ordered(pid, process_index(events, pid));
            assert(all[i] == tail[k]);
        }
    }
    events::lemma_trace_is_ordered(all);
    json::law_ordered_documents_are_kept(merged(events));
}

/// Leaving out events leaves the others as they are.
proof fn lemma_kept_is_ordered(events: Seq<JsonModel>)
    requires
        forall|i: int| 0 <= i < events.len() ==> json::ordered(#[trigger] events[i]),
    ensures
        forall|i: int| 0 <= i < kept(events).len() ==> json::ordered(#[trigger] kept(events)[i]),
    decreases events.len(),
{
    if events.len() > 0 {
        let head = events.drop_last();
        assert forall|i: int| 0 <= i < head.len() implies json::ordered(#[trigger] head[i]) by {
            assert(json::ordered(events[i]));
        }
        lemma_kept_is_ordered(head);
        assert(json::ordered(events[events.len() - 1]));
        assert forall|i: int| 0 <= i < kept(events).len() implies json::ordered(
            #[trigger] kept(events)[i],
        ) by {
            if i < kept(head).len() {
                assert(kept(events)[i] == kept(head)[i]);
            }
        }
    }
}

// ---------------------------------------------------------------------------------------------
// What a merged trace holds

/// Process ids of the files of a merge are a million apart, from those of the first file on, which
/// stay; those of a single file stay.
pub proof fn law_files_are_a_million_apart(files: nat, i: nat)
    ensures
        pid_offset(files, 0) == 0,
        files <= 1 ==> pid_offset(files, i) == 0,
        files > 1 ==> pid_offset(files, i + 1) == pid_offset(files, i) + 1_000_000,
{
    assert((i + 1) * 1_000_000 == i * 1_000_000 + 1_000_000);
}

/// An event belongs to the process that its field `pid` names as a whole number, and to process 0 if
/// it names none. It has the category that its field `cat` names, unless that is empty.
pub proof fn law_process_and_category_are_fields(event: JsonModel, pid: i64, cat: Seq<char>)
    ensures
        event.get("pid"@) is Some && event.get("pid"@)->0.as_i64() == Some(pid) ==> pid_of(event) == pid,
        event.get("pid"@) is None || event.get("pid"@)->0.as_i64() is None ==> pid_of(event) == 0,
        category(event) == Some(cat) <==> event.get("cat"@) == Some(JsonModel::Str(cat)) && (cat.len() != 0),
{
}

/// Moving an event by an offset other than zero replaces a `pid` that is a whole number by one that is
/// so much greater. Everything else of the event stays, and so does an event without such a `pid`.
pub proof fn law_moved_event_holds_the_moved_pid(
    event: JsonModel,
    offset: int,
    pid: i64,
    key: Seq<char>,
)
    requires
        i64::MIN <= pid + offset <= i64::MAX,
    ensures
        event.get("pid"@) is Some && event.get("pid"@)->0.as_i64() == Some(pid) ==> shifted(
            event,
            offset,
        ).get("pid"@) is Some && shifted(event, offset).get("pid"@)->0.as_i64() == Some(
            (pid + offset) as i64,
        ),
        event.get("pid"@) is None || event.get("pid"@)->0.as_i64() is None ==> shifted(event, offset)
            == event,
        event.get("pid"@) is Some && event.get("pid"@)->0.as_i64() == Some(pid) && key != "pid"@
            ==> shifted(event, offset).get(key) == event.get(key),
        shifted(event, 0) == event,
        event matches JsonModel::Object(fields) ==> (shifted(event, offset) matches JsonModel::Object(
            after,
        ) && after.len() == fields.len()),
{
    if event.get("pid"@) is Some && event.get("pid"@)->0.as_i64() == Some(pid) && offset != 0 {
        let value = json::whole(pid + offset);
        lemma_with_field(event, "pid"@, value, key);
        json::law_whole_reads_back(pid + offset);
    }
}

/// What a merged trace leaves out: of the events of the files exactly those whose `ph` is `M` and whose
/// `name` is `process_sort_index`. All others are in it, in their order, before the events that are
/// added.
pub proof fn law_merged_trace_keeps_all_other_events(events: Seq<JsonModel>)
    ensures
        merged(events) == JsonModel::Object(
            seq![("traceEvents"@, JsonModel::Array(kept(events) + sort_events(events)))],
        ),
        kept(events) == events.filter(
            |e: JsonModel|
                !(e.get("ph"@) == Some(JsonModel::Str("M"@)) && e.get("name"@) == Some(
                    JsonModel::Str("process_sort_index"@),
                )),
        ),
    decreases events.len(),
{
    reveal(Seq::filter);
    if events.len() > 0 {
        law_merged_trace_keeps_all_other_events(events.drop_last());
    }
}

/// An event of the files whose `ph` is not `M`, or whose `name` is not `process_sort_index`, is in the
/// merged trace.
pub proof fn law_other_event_is_in_the_merged_trace(events: Seq<JsonModel>, i: int)
    requires
        0 <= i < events.len(),
        events[i].get("ph"@) != Some(JsonModel::Str("M"@)) || events[i].get("name"@) != Some(
            JsonModel::Str("process_sort_index"@),
        ),
    ensures
        exists|k: int| 0 <= k < kept(events).len() && #[trigger] kept(events)[k] == events[i],
    decreases events.len(),
{
    let head = events.drop_last();
    if i < head.len() {
        law_other_event_is_in_the_merged_trace(head, i);
        let k = choose|k: int| 0 <= k < kept(head).len() && #[trigger] kept(head)[k] == head[i];
        assert(kept(events)[k] == events[i]);
    } else {
        assert(kept(events)[kept(events).len() - 1] == events[i]);
    }
}

/// A process is of the CPU exactly if an event of it has one of the three CPU categories, and of the
/// GPU exactly if one has one of the four GPU categories.
pub proof fn law_processes_are_told_by_categories(events: Seq<JsonModel>, pid: int)
    ensures
        has_cpu(events, pid) <==> exists|i: int|
            0 <= i < events.len() && pid_of(#[trigger] events[i]) == pid && (events[i].get("cat"@) == Some(
                JsonModel::Str("cpu_op"@),
            ) || events[i].get("cat"@) == Some(JsonModel::Str("cuda_runtime"@)) || events[i].get("cat"@)
                == Some(JsonModel::Str("cuda_driver"@))),
        has_gpu(events, pid) <==> exists|i: int|
            0 <= i < events.len() && pid_of(#[trigger] events[i]) == pid && (events[i].get("cat"@) == Some(
                JsonModel::Str("kernel"@),
            ) || events[i].get("cat"@) == Some(JsonModel::Str("gpu_memcpy"@)) || events[i].get("cat"@)
                == Some(JsonModel::Str("gpu_memset"@)) || events[i].get("cat"@) == Some(
                JsonModel::Str("gpu_user_annotation"@),
            )),
{
    reveal_strlit("cpu_op");
    reveal_strlit("cuda_runtime");
    reveal_strlit("cuda_driver");
    reveal_strlit("kernel");
    reveal_strlit("gpu_memcpy");
    reveal_strlit("gpu_memset");
    reveal_strlit("gpu_user_annotation");
    if has_cpu(events, pid) {
        let i = choose|i: int| 0 <= i < events.len() && shows_cpu(#[trigger] events[i], pid);
        assert(pid_of(events[i]) == pid);
    }
    if has_gpu(events, pid) {
        let i = choose|i: int| 0 <= i < events.len() && shows_gpu(#[trigger] events[i], pid);
        assert(pid_of(events[i]) == pid);
    }
    assert forall|i: int|
        0 <= i < events.len() && pid_of(#[trigger] events[i]) == pid && (events[i].get("cat"@) == Some(
            JsonModel::Str("cpu_op"@),
        ) || events[i].get("cat"@) == Some(JsonModel::Str("cuda_runtime"@)) || events[i].get("cat"@)
            == Some(JsonModel::Str("cuda_driver"@))) implies has_cpu(events, pid) by {
        assert(shows_cpu(events[i], pid));
    }
    assert forall|i: int|
        0 <= i < events.len() && pid_of(#[trigger] events[i]) == pid && (events[i].get("cat"@) == Some(
            JsonModel::Str("kernel"@),
        ) || events[i].get("cat"@) == Some(JsonModel::Str("gpu_memcpy"@)) || events[i].get("cat"@)
            == Some(JsonModel::Str("gpu_memset"@)) || events[i].get("cat"@) == Some(
            JsonModel::Str("gpu_user_annotation"@),
        )) implies has_gpu(events, pid) by {
        assert(shows_gpu(events[i], pid));
    }
}

/// The event that is added for the process at `i`: it is a `process_sort_index` of that process, with
/// 0 for one of the CPU, 1 for one of the GPU alone, and 2 for any other.
pub proof fn law_added_event_tells_the_place(events: Seq<JsonModel>, i: int)
    requires
        0 <= i < processes(events).len(),
    ensures
        sort_events(events).len() == processes(events).len(),
        sort_events(events)[i].get("ph"@) == Some(JsonModel::Str("M"@)),
        sort_events(events)[i].get("name"@) == Some(JsonModel::Str("process_sort_index"@)),
        sort_events(events)[i].get("pid"@) == Some(json::whole(processes(events)[i])),
        sort_events(events)[i].get("tid"@) == Some(json::whole(0)),
        sort_events(events)[i].get("args"@) is Some,
        has_cpu(events, processes(events)[i]) ==> sort_events(events)[i].get("args"@)->0.get(
            "sort_index"@,
        ) == Some(json::whole(0)),
        !has_cpu(events, processes(events)[i]) && has_gpu(events, processes(events)[i]) ==> sort_events(
            events,
        )[i].get("args"@)->0.get("sort_index"@) == Some(json::whole(1)),
        !has_cpu(events, processes(events)[i]) && !has_gpu(events, processes(events)[i]) ==> sort_events(
            events,
        )[i].get("args"@)->0.get("sort_index"@) == Some(json::whole(2)),
{
    let pid = processes(events)[i];
    let index = process_index(events, pid);
    let fields = sort_event(pid, index)->Object_0;
    lemma_processes_fit(events);
    assert(i64::MIN <= processes(events)[i] <= i64::MAX);
    lemma_sort_event_is_ordered(pid, index);
    json::lemma_found_by_name(fields, 0);
    json::lemma_found_by_name(fields, 1);
    json::lemma_found_by_name(fields, 2);
    json::lemma_found_by_name(fields, 3);
    json::lemma_found_by_name(fields, 4);
    let args = fields[0].1->Object_0;
    assert(json::names_ascend(args));
    json::lemma_found_by_name(args, 0);
}

/// What a file adds: its content is a JSON object whose `traceEvents` are an array, and those events
/// stand behind those of the files before it, with their process ids moved.
pub proof fn law_file_adds_its_events(files: Seq<Seq<u8>>, n: nat)
    requires
        n < files.len(),
        collected(files, n + 1) is Ok,
    ensures
        collected(files, n) is Ok,
        util::file_content(files[n as int]) is Some,
        json::json_parsed(util::file_content(files[n as int])->0) is Some,
        json::json_parsed(util::file_content(files[n as int])->0)->0 is Object,
        json::json_parsed(util::file_content(files[n as int])->0)->0.get("traceEvents"@) is Some,
        json::json_parsed(util::file_content(files[n as int])->0)->0.get("traceEvents"@)->0 is Array,
        collected(files, n + 1)->Ok_0 == collected(files, n)->Ok_0 + all_shifted(
            json::json_parsed(util::file_content(files[n as int])->0)->0.get("traceEvents"@)->0->Array_0,
            if files.len() > 1 {
                n as int * 1_000_000
            } else {
                0
            },
        ),
        collected(files, 0) == Ok::<Seq<JsonModel>, (nat, MergeFault)>(Seq::empty()),
{
}

/// Moving events moves each of them, in their places.
pub proof fn law_events_are_moved_one_by_one(events: Seq<JsonModel>, offset: int, i: int)
    requires
        0 <= i < events.len(),
    ensures
        all_shifted(events, offset).len() == events.len(),
        all_shifted(events, offset)[i] == shifted(events[i], offset),
{
}

/// What a merge that fails says: the first file that cannot be merged, and why. All files before it
/// can be merged.
pub proof fn law_fault_is_of_the_first_bad_file(files: Seq<Seq<u8>>, n: nat)
    requires
        n <= files.len(),
        collected(files, n) is Err,
    ensures
        collected(files, n)->Err_0.0 < n,
        collected(files, collected(files, n)->Err_0.0) is Ok,
        match collected(files, n)->Err_0.1 {
            MergeFault::Decompress => util::file_content(
                files[collected(files, n)->Err_0.0 as int],
            ) is None,
            MergeFault::Parse => util::file_content(files[collected(files, n)->Err_0.0 as int]) is Some
                && json::json_parsed(
                util::file_content(files[collected(files, n)->Err_0.0 as int])->0,
            ) is None,
            MergeFault::PidOutOfRange => util::file_content(
                files[collected(files, n)->Err_0.0 as int],
            ) is Some && json::json_parsed(
                util::file_content(files[collected(files, n)->Err_0.0 as int])->0,
            ) is Some && events_of(
                json::json_parsed(
                    util::file_content(files[collected(files, n)->Err_0.0 as int])->0,
                )->0,
            ) is Ok,
            fault => util::file_content(files[collected(files, n)->Err_0.0 as int]) is Some
                && json::json_parsed(
                util::file_content(files[collected(files, n)->Err_0.0 as int])->0,
            ) is Some && events_of(
                json::json_parsed(
                    util::file_content(files[collected(files, n)->Err_0.0 as int])->0,
                )->0,
            ) == Err::<Seq<JsonModel>, MergeFault>(fault),
        },
    decreases n,
{
    if n > 0 && collected(files, (n - 1) as nat) is Err {
        law_fault_is_of_the_first_bad_file(files, (n - 1) as nat);
    }
}

/// Which documents have events: objects with an array under `traceEvents`. A null document and any
/// other object miss them, and what is neither is no object.
pub proof fn law_events_are_the_trace_events_array(document: JsonModel, events: Seq<JsonModel>)
    ensures
        events_of(document) == Ok::<Seq<JsonModel>, MergeFault>(events) <==> document is Object
            && document.get("traceEvents"@) == Some(JsonModel::Array(events)),
        events_of(document) == Err::<Seq<JsonModel>, MergeFault>(MergeFault::NotAnObject) <==> !(
        document is Object) && !(document is Null),
        events_of(document) == Err::<Seq<JsonModel>, MergeFault>(MergeFault::MissingEvents) <==> document is Null
            || (document is Object && !(document.get("traceEvents"@) is Some && document.get(
            "traceEvents"@,
        )->0 is Array)),
{
}

/// A file whose events can be read is refused exactly if some process id would leave the range of
/// 64-bit numbers.
pub proof fn law_only_pids_out_of_range_are_refused(data: Seq<u8>, offset: int)
    requires
        file_events(data) is Ok,
    ensures
        added_events(data, offset) is Err <==> exists|i: int|
            0 <= i < file_events(data)->Ok_0.len() && (#[trigger] file_events(data)->Ok_0[i]).get(
                "pid"@,
            ) is Some && file_events(data)->Ok_0[i].get("pid"@)->0.as_i64() is Some && !(i64::MIN
                <= file_events(data)->Ok_0[i].get("pid"@)->0.as_i64()->0 + offset <= i64::MAX),
{
    let events = file_events(data)->Ok_0;
    if !can_shift_all(events, offset) {
        let i = choose|i: int| 0 <= i < events.len() && !can_shift(#[trigger] events[i], offset);
        assert(events[i].get("pid"@) is Some);
    } else {
        assert forall|i: int| 0 <= i < events.len() implies can_shift(#[trigger] events[i], offset) by {}
    }
}

/// The events of a trace that was made a document are found in it again.
pub proof fn law_events_of_a_trace_are_found_again(trace: Seq<JsonModel>)
    ensures
        events_of(events::trace_of(trace)) == Ok::<Seq<JsonModel>, MergeFault>(trace),
{
    events::law_trace_is_its_events(trace, "traceEvents"@);
}

/// An error tells which fault it is.
pub proof fn law_errors_tell_the_fault(e: MergeError)
    ensures
        e is Decompress <==> e.fault() is Decompress,
        e is Parse <==> e.fault() is Parse,
        e is NotAnObject <==> e.fault() is NotAnObject,
        e is MissingEvents <==> e.fault() is MissingEvents,
        e is PidOutOfRange <==> e.fault() is PidOutOfRange,
{
}

} // verus!
