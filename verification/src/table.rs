//! Statistics of kernel durations, and the markdown table that compares traces.
//!
//! A duration is a double-precision number. Here it stands by its rank, an integer that orders
//! it among other durations, and is found again by its position.

use vstd::prelude::*;
use crate::kernels;
use crate::kernels::{KernelId, KernelKey};
use crate::order;
use crate::text;

verus! {

// ---------------------------------------------------------------------------------------------
// Statistics

/// The rank of a double-precision number with these bits: zero for zero, and the other numbers
/// on both sides of it in their order.
pub open spec fn rank_of(bits: u64) -> int {
    if bits < 0x8000_0000_0000_0000 {
        bits as int
    } else {
        0x8000_0000_0000_0000 - bits
    }
}

/// The rank of a duration, from the bits of the double-precision number.
pub fn duration_rank(bits: u64) -> (r: i64)
    ensures
        r == rank_of(bits),
{
    if bits < 0x8000_0000_0000_0000 {
        bits as i64
    } else {
        -((bits - 0x8000_0000_0000_0000) as i64)
    }
}

/// The positions that hold the median: one, or the two whose mean it is.
#[derive(Debug, Clone, Copy, PartialEq, Eq)]
pub enum Median {
    /// There is no duration.
    Empty,
    /// The duration in the middle.
    One(usize),
    /// The two durations in the middle.
    Two(usize, usize),
}

/// The median of positions in the order of their durations.
pub open spec fn is_median(sorted: Seq<int>, m: Median) -> bool {
    let n = sorted.len() as int;
    if n == 0 {
        m == Median::Empty
    } else if n % 2 == 1 {
        m matches Median::One(p) && p == sorted[n / 2]
    } else {
        m matches Median::Two(p, q) && p == sorted[n / 2 - 1] && q == sorted[n / 2]
    }
}

/// Computes p50 (the median) of positions in the order of their durations.
pub fn percentile50(sorted: &[usize]) -> (r: Median)
    ensures
        is_median(order::positions(sorted@), r),
{
    let n: usize = sorted.len();
    if n == 0 {
        return Median::Empty;
    }
    if n % 2 == 1 {
        Median::One(sorted[n / 2])
    } else {
        Median::Two(sorted[n / 2 - 1], sorted[n / 2])
    }
}

/// Statistics of a kernel in a single trace, by the positions of its durations.
#[derive(Debug)]
pub struct KernelStats {
    /// The positions in the order of their durations; the total is summed in this order.
    pub sorted: Vec<usize>,
    /// The median.
    pub p50: Median,
    /// The longest duration, if there is one.
    pub max: Option<usize>,
}

/// The ranks as integers.
pub open spec fn rank_values(ranks: Seq<i64>) -> Seq<int> {
    Seq::new(ranks.len(), |i: int| ranks[i] as int)
}

/// Sorts the durations of a kernel and finds the median and the longest.
pub fn compute_stats(ranks: &[i64]) -> (r: KernelStats)
    ensures
        order::positions(r.sorted@) == order::sorted_positions(rank_values(ranks@)),
        is_median(order::sorted_positions(rank_values(ranks@)), r.p50),
        match r.max {
            Some(p) => ranks@.len() > 0 && p == order::sorted_positions(rank_values(ranks@)).last(),
            None => ranks@.len() == 0,
        },
{
    let sorted = order::sort_positions(ranks);
    assert(order::ranks(ranks@) =~= rank_values(ranks@));
    proof {
        order::law_stable_order(rank_values(ranks@), ranks@.len());
    }
    let p50 = percentile50(&sorted);
    let max = if sorted.len() == 0 {
        None
    } else {
        assert(order::positions(sorted@).last() == sorted@.last());
        Some(sorted[sorted.len() - 1])
    };
    KernelStats { sorted, p50, max }
}

/// The sorted positions put durations in their order, so the last is the longest, and those in
/// the middle have no longer one before them and no shorter one behind.
pub proof fn law_stats_follow_the_order(ranks: Seq<int>)
    ensures
        forall|i: int, j: int|
            0 <= i <= j < ranks.len() ==> ranks[#[trigger] order::sorted_positions(ranks)[i]]
                <= ranks[#[trigger] order::sorted_positions(ranks)[j]],
        forall|p: int|
            0 <= p < ranks.len() ==> #[trigger] ranks[p] <= ranks[order::sorted_positions(ranks).last()],
{
    let sorted = order::sorted_positions(ranks);
    let n = ranks.len() as int;
    order::law_stable_order(ranks, ranks.len());
    assert forall|i: int, j: int| 0 <= i <= j < n implies ranks[#[trigger] sorted[i]]
        <= ranks[#[trigger] sorted[j]] by {
        if i < j {
            assert(order::precedes(ranks, sorted[i], sorted[j]));
        }
    }
    assert forall|p: int| 0 <= p < n implies #[trigger] ranks[p] <= ranks[sorted.last()] by {
        assert(sorted.contains(p));
        let i = sorted.index_of(p);
        assert(ranks[sorted[i]] <= ranks[sorted[n - 1]]);
    }
}

// ---------------------------------------------------------------------------------------------
// Markdown

/// A text in which each `|` has a `\` before it.
pub open spec fn escaped(s: Seq<char>) -> Seq<char>
    decreases s.len(),
{
    if s.len() == 0 {
        seq![]
    } else if s.last() == '|' {
        escaped(s.drop_last()) + seq!['\\', '|']
    } else {
        escaped(s.drop_last()).push(s.last())
    }
}

/// Escapes pipe characters in markdown table cells.
pub fn escape_md(s: &str) -> (r: String)
    ensures
        r@ == escaped(s@),
{
    let chars = text::chars_of(s);
    let mut r = String::new();
    for i in 0..chars.len()
        invariant
            chars@ == s@,
            r@ == escaped(s@.take(i as int)),
    {
        assert(s@.take(i + 1).drop_last() == s@.take(i as int));
        if chars[i] == '|' {
            r.push('\\');
        }
        r.push(chars[i]);
        assert(r@ =~= escaped(s@.take(i + 1)));
    }
    assert(s@.take(s@.len() as int) == s@);
    r
}

/// No bare pipe can end a table cell: in an escaped text each `|` has a `\` before it, and
/// without pipes a text stays as it is.
pub proof fn law_escaped_text_has_no_bare_pipe(s: Seq<char>)
    ensures
        forall|i: int|
            0 <= i < escaped(s).len() && #[trigger] escaped(s)[i] == '|' ==> i > 0 && escaped(s)[i - 1]
                == '\\',
        !s.contains('|') ==> escaped(s) == s,
    decreases s.len(),
{
    if s.len() > 0 {
        let head = s.drop_last();
        law_escaped_text_has_no_bare_pipe(head);
        assert forall|i: int| 0 <= i < escaped(s).len() && #[trigger] escaped(s)[i] == '|' implies i > 0
            && escaped(s)[i - 1] == '\\' by {
            if i < escaped(head).len() {
                assert(escaped(s)[i] == escaped(head)[i]);
            }
        }
        if !s.contains('|') {
            assert(s[s.len() - 1] == s.last());
            assert(!head.contains('|')) by {
                if head.contains('|') {
                    assert(s[head.index_of('|')] == '|');
                }
            }
            assert(escaped(s) =~= s);
        }
    }
}

// ---------------------------------------------------------------------------------------------
// The table

/// What the table says of a kernel in one trace.
#[derive(Debug)]
pub struct KernelSummary {
    pub id: KernelId,
    /// The ranks of the durations, one for each time that the kernel ran.
    pub ranks: Vec<i64>,
    /// The median in milliseconds, as the table shows it.
    pub p50: String,
    /// The longest duration in milliseconds, as the table shows it.
    pub max: String,
    /// The total in milliseconds, as the table shows it.
    pub total: String,
}

/// The kernels of one trace.
#[derive(Debug)]
pub struct TraceColumn {
    pub name: String,
    pub kernels: Vec<KernelSummary>,
}

/// What is known of a kernel in one trace.
pub struct SummaryModel {
    pub id: KernelKey,
    pub ranks: Seq<int>,
    pub p50: Seq<char>,
    pub max: Seq<char>,
    pub total: Seq<char>,
}

/// What is known of one trace.
pub struct ColumnModel {
    pub name: Seq<char>,
    pub kernels: Seq<SummaryModel>,
}

impl View for KernelSummary {
    type V = SummaryModel;

    open spec fn view(&self) -> SummaryModel {
        SummaryModel {
            id: self.id@,
            ranks: rank_values(self.ranks@),
            p50: self.p50@,
            max: self.max@,
            total: self.total@,
        }
    }
}

/// The summaries that a vector holds.
pub open spec fn summaries(v: Seq<KernelSummary>) -> Seq<SummaryModel> {
    Seq::new(v.len(), |i: int| v[i]@)
}

impl View for TraceColumn {
    type V = ColumnModel;

    open spec fn view(&self) -> ColumnModel {
        ColumnModel { name: self.name@, kernels: summaries(self.kernels@) }
    }
}

/// The traces that a slice holds.
pub open spec fn columns(v: Seq<TraceColumn>) -> Seq<ColumnModel> {
    Seq::new(v.len(), |i: int| v[i]@)
}

/// What a trace says of a kernel, if the kernel ran in it.
pub open spec fn summary_of(kernels: Seq<SummaryModel>, id: KernelKey) -> Option<SummaryModel>
    decreases kernels.len(),
{
    if kernels.len() == 0 {
        None
    } else if kernels[0].id == id {
        Some(kernels[0])
    } else {
        summary_of(kernels.skip(1), id)
    }
}

/// Kernels in their order, with those of a trace among them.
pub open spec fn with_kernels(keys: Seq<KernelKey>, kernels: Seq<SummaryModel>) -> Seq<KernelKey>
    decreases kernels.len(),
{
    if kernels.len() == 0 {
        keys
    } else {
        kernels::insert_key(with_kernels(keys, kernels.drop_last()), kernels.last().id)
    }
}

/// The kernels of all traces in their order, each once.
pub open spec fn all_kernels(traces: Seq<ColumnModel>) -> Seq<KernelKey>
    decreases traces.len(),
{
    if traces.len() == 0 {
        seq![]
    } else {
        with_kernels(all_kernels(traces.drop_last()), traces.last().kernels)
    }
}

/// The rank of the longest duration, or zero if there is none.
pub open spec fn longest_rank(ranks: Seq<int>) -> int {
    if ranks.len() == 0 {
        0
    } else {
        ranks[order::sorted_positions(ranks).last()]
    }
}

/// The rank of the longest duration of a kernel in any trace, and zero at least.
pub open spec fn row_rank(traces: Seq<ColumnModel>, id: KernelKey) -> int
    decreases traces.len(),
{
    if traces.len() == 0 {
        0
    } else {
        let before = row_rank(traces.drop_last(), id);
        match summary_of(traces.last().kernels, id) {
            Some(s) => if longest_rank(s.ranks) > before {
                longest_rank(s.ranks)
            } else {
                before
            },
            None => before,
        }
    }
}

/// How often a kernel ran in the trace in which it ran most often.
pub open spec fn row_count(traces: Seq<ColumnModel>, id: KernelKey) -> nat
    decreases traces.len(),
{
    if traces.len() == 0 {
        0
    } else {
        let before = row_count(traces.drop_last(), id);
        match summary_of(traces.last().kernels, id) {
            Some(s) => if s.ranks.len() > before {
                s.ranks.len()
            } else {
                before
            },
            None => before,
        }
    }
}

/// The ranks by which kernels are put in rows, the highest first.
pub open spec fn row_ranks(traces: Seq<ColumnModel>) -> Seq<order::Descending<int>> {
    let keys = all_kernels(traces);
    Seq::new(keys.len(), |i: int| order::Descending(row_rank(traces, keys[i])))
}

/// The kernels in the order of the rows: by their longest duration, the longest first.
pub open spec fn row_kernels(traces: Seq<ColumnModel>) -> Seq<KernelKey> {
    let keys = all_kernels(traces);
    let sorted = order::sorted_positions(row_ranks(traces));
    Seq::new(keys.len(), |i: int| keys[sorted[i]])
}

/// The cells of one trace in the row of a kernel: empty if the kernel did not run in it.
pub open spec fn cells_text(trace: ColumnModel, id: KernelKey) -> Seq<char> {
    match summary_of(trace.kernels, id) {
        Some(s) => " "@ + s.p50 + " | "@ + s.max + " | "@ + s.total + " |"@,
        None => " | | |"@,
    }
}

/// The cells of the traces in the row of a kernel.
pub open spec fn all_cells(traces: Seq<ColumnModel>, id: KernelKey) -> Seq<char>
    decreases traces.len(),
{
    if traces.len() == 0 {
        seq![]
    } else {
        all_cells(traces.drop_last(), id) + cells_text(traces.last(), id)
    }
}

/// The row of a kernel.
pub open spec fn row_text(traces: Seq<ColumnModel>, id: KernelKey) -> Seq<char> {
    "| `["@ + text::decimal(row_count(traces, id)) + "] "@ + escaped(id.name) + "` | `"@ + escaped(
        id.grid,
    ) + "` | `"@ + escaped(id.input_shapes) + "` |"@ + all_cells(traces, id)
}

/// The headings of the columns of traces.
pub open spec fn headings(traces: Seq<ColumnModel>) -> Seq<char>
    decreases traces.len(),
{
    if traces.len() == 0 {
        seq![]
    } else {
        let name = traces.last().name;
        headings(traces.drop_last()) + (" "@ + name + " p50 (ms) | "@ + name + " max (ms) | "@ + name
            + " total (ms) |"@)
    }
}

/// The rule below the headings of the columns of traces.
pub open spec fn rules(n: nat) -> Seq<char>
    decreases n,
{
    if n == 0 {
        seq![]
    } else {
        rules((n - 1) as nat) + " ---: | ---: | ---: |"@
    }
}

/// The lines of the table: headings, a rule, and a row for each kernel.
pub open spec fn table_lines(traces: Seq<ColumnModel>) -> Seq<Seq<char>> {
    let rows = row_kernels(traces);
    seq![
        "| Kernel | Grid | Input Shapes |"@ + headings(traces),
        "| --- | --- | --- |"@ + rules(traces.len()),
    ] + Seq::new(rows.len(), |i: int| row_text(traces, rows[i]))
}

/// The table that compares traces.
pub open spec fn table_text(traces: Seq<ColumnModel>) -> Seq<char> {
    if all_kernels(traces).len() == 0 {
        "No GPU kernel events found in any trace.\n"@
    } else {
        text::join(table_lines(traces), "\n"@) + "\n"@
    }
}

/// The summary of a kernel, as an optional view.
pub open spec fn summary_view(v: Option<&KernelSummary>) -> Option<SummaryModel> {
    match v {
        Some(s) => Some(s@),
        None => None,
    }
}

/// The first summary of that kernel is the one that counts.
proof fn lemma_summary_of(kernels: Seq<SummaryModel>, id: KernelKey, k: int)
    requires
        0 <= k <= kernels.len(),
        forall|i: int| 0 <= i < k ==> (#[trigger] kernels[i]).id != id,
        k < kernels.len() ==> kernels[k].id == id,
    ensures
        summary_of(kernels, id) == if k < kernels.len() {
            Some(kernels[k])
        } else {
            None
        },
    decreases k,
{
    if k > 0 {
        assert(kernels[0].id != id);
        let rest = kernels.skip(1);
        assert forall|i: int| 0 <= i < k - 1 implies (#[trigger] rest[i]).id != id by {
            assert(rest[i] == kernels[i + 1]);
        }
        lemma_summary_of(rest, id, k - 1);
    }
}

/// What a trace says of a kernel, if the kernel ran in it.
fn find_summary<'a>(trace: &'a TraceColumn, id: &KernelId) -> (r: Option<&'a KernelSummary>)
    ensures
        summary_view(r) == summary_of(trace@.kernels, id@),
{
    let mut i: usize = 0;
    while i < trace.kernels.len()
        invariant
            i <= trace.kernels@.len(),
            forall|j: int| 0 <= j < i ==> (#[trigger] trace@.kernels[j]).id != id@,
        decreases trace.kernels@.len() - i,
    {
        assert(trace@.kernels[i as int] == trace.kernels@[i as int]@);
        if kernels::same_kernel(&trace.kernels[i].id, id) {
            proof {
                lemma_summary_of(trace@.kernels, id@, i as int);
            }
            return Some(&trace.kernels[i]);
        }
        i += 1;
    }
    proof {
        lemma_summary_of(trace@.kernels, id@, i as int);
    }
    None
}

/// The kernels of all traces in their order, each once.
fn collect_kernels(traces: &[TraceColumn]) -> (r: Vec<KernelId>)
    ensures
        kernels::keys_in(r@) == all_kernels(columns(traces@)),
        kernels::ascending(kernels::keys_in(r@)),
{
    let mut found: Vec<KernelId> = Vec::new();
    let ghost all = columns(traces@);
    assert(kernels::keys_in(found@) =~= seq![]);
    for i in 0..traces.len()
        invariant
            all == columns(traces@),
            kernels::keys_in(found@) == all_kernels(all.take(i as int)),
            kernels::ascending(kernels::keys_in(found@)),
    {
        let ghost before = kernels::keys_in(found@);
        let ghost here = all[i as int].kernels;
        let trace = &traces[i];
        assert(here == summaries(trace.kernels@));
        assert(here.take(0) =~= seq![]);
        for j in 0..trace.kernels.len()
            invariant
                here == summaries(trace.kernels@),
                kernels::keys_in(found@) == with_kernels(before, here.take(j as int)),
                kernels::ascending(kernels::keys_in(found@)),
        {
            let id = &trace.kernels[j].id;
            let (at, present) = kernels::locate(&found, id);
            let ghost keys = kernels::keys_in(found@);
            proof {
                assert(here.take(j + 1).drop_last() =~= here.take(j as int));
                assert(here.take(j + 1).last().id == id@);
                kernels::lemma_insert_ascending(keys, id@);
            }
            if !present {
                found.insert(at, id.copy());
                proof {
                    kernels::lemma_insert_key(keys, id@, at as int);
                    assert(kernels::keys_in(found@) =~= keys.insert(at as int, id@));
                }
            } else {
                proof {
                    kernels::lemma_insert_present(keys, at as int);
                }
            }
        }
        proof {
            assert(here.take(here.len() as int) =~= here);
            assert(all.take(i + 1).drop_last() =~= all.take(i as int));
            assert(all.take(i + 1).last() == all[i as int]);
        }
    }
    assert(all.take(all.len() as int) =~= all);
    found
}

/// The rank of the longest duration, or zero if there is none.
fn longest(ranks: &[i64]) -> (r: i64)
    ensures
        r == longest_rank(rank_values(ranks@)),
{
    let stats = compute_stats(ranks);
    proof {
        order::law_stable_order(rank_values(ranks@), ranks@.len());
    }
    match stats.max {
        Some(p) => {
            let ghost sorted = order::sorted_positions(rank_values(ranks@));
            assert(p == sorted[sorted.len() - 1]);
            ranks[p]
        },
        None => 0,
    }
}

/// The rank of the longest duration of a kernel in any trace, and zero at least.
fn rank_of_row(traces: &[TraceColumn], id: &KernelId) -> (r: i64)
    ensures
        r == row_rank(columns(traces@), id@),
{
    let ghost all = columns(traces@);
    let mut rank: i64 = 0;
    for i in 0..traces.len()
        invariant
            all == columns(traces@),
            rank == row_rank(all.take(i as int), id@),
    {
        proof {
            assert(all.take(i + 1).drop_last() =~= all.take(i as int));
            assert(all.take(i + 1).last() == traces@[i as int]@);
        }
        if let Some(s) = find_summary(&traces[i], id) {
            let here = longest(&s.ranks);
            if here > rank {
                rank = here;
            }
        }
    }
    assert(all.take(all.len() as int) =~= all);
    rank
}

/// How often a kernel ran in the trace in which it ran most often.
fn count_of_row(traces: &[TraceColumn], id: &KernelId) -> (r: usize)
    ensures
        r == row_count(columns(traces@), id@),
{
    let ghost all = columns(traces@);
    let mut count: usize = 0;
    for i in 0..traces.len()
        invariant
            all == columns(traces@),
            count == row_count(all.take(i as int), id@),
    {
        proof {
            assert(all.take(i + 1).drop_last() =~= all.take(i as int));
            assert(all.take(i + 1).last() == traces@[i as int]@);
        }
        if let Some(s) = find_summary(&traces[i], id) {
            if s.ranks.len() > count {
                count = s.ranks.len();
            }
        }
    }
    assert(all.take(all.len() as int) =~= all);
    count
}

/// The headings of the table.
fn header_line(traces: &[TraceColumn]) -> (r: String)
    ensures
        r@ == "| Kernel | Grid | Input Shapes |"@ + headings(columns(traces@)),
{
    let ghost all = columns(traces@);
    let mut r = String::new();
    r.append("| Kernel | Grid | Input Shapes |");
    assert(r@ =~= "| Kernel | Grid | Input Shapes |"@ + headings(all.take(0)));
    for i in 0..traces.len()
        invariant
            all == columns(traces@),
            r@ == "| Kernel | Grid | Input Shapes |"@ + headings(all.take(i as int)),
    {
        let name = traces[i].name.as_str();
        proof {
            assert(all.take(i + 1).drop_last() =~= all.take(i as int));
            assert(all.take(i + 1).last().name == name@);
        }
        r.append(" ");
        r.append(name);
        r.append(" p50 (ms) | ");
        r.append(name);
        r.append(" max (ms) | ");
        r.append(name);
        r.append(" total (ms) |");
        assert(r@ =~= "| Kernel | Grid | Input Shapes |"@ + headings(all.take(i + 1)));
    }
    assert(all.take(all.len() as int) =~= all);
    r
}

/// The rule below the headings of the table.
fn rule_line(n: usize) -> (r: String)
    ensures
        r@ == "| --- | --- | --- |"@ + rules(n as nat),
{
    let mut r = String::new();
    r.append("| --- | --- | --- |");
    assert(r@ =~= "| --- | --- | --- |"@ + rules(0));
    for i in 0..n
        invariant
            r@ == "| --- | --- | --- |"@ + rules(i as nat),
    {
        r.append(" ---: | ---: | ---: |");
        assert(r@ =~= "| --- | --- | --- |"@ + rules((i + 1) as nat));
    }
    r
}

/// The row of a kernel.
fn row_line(traces: &[TraceColumn], id: &KernelId) -> (r: String)
    ensures
        r@ == row_text(columns(traces@), id@),
{
    let ghost all = columns(traces@);
    let count = text::unsigned_text(count_of_row(traces, id) as u64);
    let mut r = String::new();
    r.append("| `[");
    r.append(count.as_str());
    r.append("] ");
    r.append(escape_md(id.name.as_str()).as_str());
    r.append("` | `");
    r.append(escape_md(id.grid.as_str()).as_str());
    r.append("` | `");
    r.append(escape_md(id.input_shapes.as_str()).as_str());
    r.append("` |");
    let ghost start = r@;
    assert(r@ =~= start + all_cells(all.take(0), id@));
    for i in 0..traces.len()
        invariant
            all == columns(traces@),
            r@ == start + all_cells(all.take(i as int), id@),
    {
        proof {
            assert(all.take(i + 1).drop_last() =~= all.take(i as int));
            assert(all.take(i + 1).last() == traces@[i as int]@);
        }
        match find_summary(&traces[i], id) {
            Some(s) => {
                r.append(" ");
                r.append(s.p50.as_str());
                r.append(" | ");
                r.append(s.max.as_str());
                r.append(" | ");
                r.append(s.total.as_str());
                r.append(" |");
            },
            None => {
                r.append(" | | |");
            },
        }
        assert(r@ =~= start + all_cells(all.take(i + 1), id@));
    }
    assert(all.take(all.len() as int) =~= all);
    assert(r@ =~= row_text(all, id@));
    r
}

/// Generates a markdown comparison table across multiple traces.
///
/// Each trace gets three sub-columns: p50, max, total (all in ms). Rows show
/// `[num_instances] kernel_name` and are sorted by max execution time descending.
pub fn generate_comparison_table(traces: &[TraceColumn]) -> (r: String)
    ensures
        r@ == table_text(columns(traces@)),
{
    let ghost all = columns(traces@);
    let ids = collect_kernels(traces);
    if ids.len() == 0 {
        return text::copy_of("No GPU kernel events found in any trace.\n");
    }
    let ghost keys = all_kernels(all);
    let mut ranks: Vec<order::Descending<i64>> = Vec::new();
    for i in 0..ids.len()
        invariant
            all == columns(traces@),
            keys == kernels::keys_in(ids@),
            ranks@.len() == i,
            forall|j: int|
                0 <= j < i ==> (#[trigger] ranks@[j]).0 == row_rank(all, keys[j]),
    {
        assert(keys[i as int] == ids@[i as int]@);
        ranks.push(order::Descending(rank_of_row(traces, &ids[i])));
    }
    let sorted = order::sort_positions(&ranks);
    let ghost rows = row_kernels(all);
    proof {
        assert(order::ranks(ranks@) =~= row_ranks(all));
        order::law_stable_order(row_ranks(all), keys.len());
    }
    let mut lines: Vec<String> = Vec::new();
    lines.push(header_line(traces));
    lines.push(rule_line(traces.len()));
    for i in 0..sorted.len()
        invariant
            all == columns(traces@),
            keys == kernels::keys_in(ids@),
            keys == all_kernels(all),
            rows == row_kernels(all),
            order::positions(sorted@) == order::sorted_positions(row_ranks(all)),
            order::is_order(row_ranks(all), order::positions(sorted@), 0, keys.len() as int),
            text::texts(lines@) == table_lines(all).take(i + 2),
    {
        let p: usize = sorted[i];
        assert(order::positions(sorted@)[i as int] == p);
        assert(rows[i as int] == ids@[p as int]@);
        let ghost before = text::texts(lines@);
        lines.push(row_line(traces, &ids[p]));
        assert(table_lines(all)[i + 2] == row_text(all, rows[i as int]));
        assert(text::texts(lines@) =~= before.push(row_text(all, rows[i as int])));
        assert(text::texts(lines@) =~= table_lines(all).take(i + 3));
    }
    assert(table_lines(all).take(table_lines(all).len() as int) =~= table_lines(all));
    let mut r = text::join_texts(&lines, "\n");
    r.append("\n");
    r
}

// ---------------------------------------------------------------------------------------------
// Laws

/// The kernels of the traces come in their order, and are those that ran in some trace.
pub proof fn law_table_lists_the_kernels(traces: Seq<ColumnModel>)
    ensures
        kernels::ascending(all_kernels(traces)),
        forall|k: KernelKey| #[trigger]
            all_kernels(traces).contains(k) <==> exists|t: int|
                0 <= t < traces.len() && summary_of((#[trigger] traces[t]).kernels, k) is Some,
    decreases traces.len(),
{
    if traces.len() > 0 {
        let head = traces.drop_last();
        let last = traces.last().kernels;
        law_table_lists_the_kernels(head);
        lemma_with_kernels(all_kernels(head), last);
        assert forall|k: KernelKey| #[trigger] all_kernels(traces).contains(k) implies exists|t: int|
            0 <= t < traces.len() && summary_of((#[trigger] traces[t]).kernels, k) is Some by {
            if summary_of(last, k) is Some {
                assert(summary_of(traces[traces.len() - 1].kernels, k) is Some);
            } else {
                assert(all_kernels(head).contains(k));
                let t = choose|t: int|
                    0 <= t < head.len() && summary_of((#[trigger] head[t]).kernels, k) is Some;
                assert(summary_of(traces[t].kernels, k) is Some);
            }
        }
        assert forall|k: KernelKey|
            (exists|t: int|
                0 <= t < traces.len() && summary_of(
                    (#[trigger] traces[t]).kernels,
                    k,
                ) is Some) implies #[trigger] all_kernels(traces).contains(k) by {
            let t = choose|t: int|
                0 <= t < traces.len() && summary_of((#[trigger] traces[t]).kernels, k) is Some;
            if t < head.len() {
                assert(summary_of(head[t].kernels, k) is Some);
                assert(all_kernels(head).contains(k));
            }
        }
    }
}

/// Putting the kernels of a trace among others keeps their order, and adds those and no other.
proof fn lemma_with_kernels(keys: Seq<KernelKey>, ran: Seq<SummaryModel>)
    requires
        kernels::ascending(keys),
    ensures
        kernels::ascending(with_kernels(keys, ran)),
        forall|k: KernelKey| #[trigger]
            with_kernels(keys, ran).contains(k) <==> keys.contains(k) || summary_of(ran, k) is Some,
    decreases ran.len(),
{
    if ran.len() > 0 {
        let head = ran.drop_last();
        let before = with_kernels(keys, head);
        lemma_with_kernels(keys, head);
        kernels::lemma_insert_ascending(before, ran.last().id);
        assert forall|k: KernelKey| #[trigger] with_kernels(keys, ran).contains(k) <==> keys.contains(k)
            || summary_of(ran, k) is Some by {
            lemma_summary_of_last(ran, k);
            assert(before.contains(k) <==> keys.contains(k) || summary_of(head, k) is Some);
        }
    }
}

/// A trace says something of a kernel if its last summary does, or those before.
proof fn lemma_summary_of_last(ran: Seq<SummaryModel>, k: KernelKey)
    requires
        ran.len() > 0,
    ensures
        summary_of(ran, k) is Some <==> ran.last().id == k || summary_of(ran.drop_last(), k) is Some,
    decreases ran.len(),
{
    reveal_with_fuel(summary_of, 2);
    if ran.len() > 1 && ran[0].id != k {
        lemma_summary_of_last(ran.skip(1), k);
        assert(ran.skip(1).drop_last() =~= ran.drop_last().skip(1));
    }
}

/// The rows are the kernels that ran, each once, by the longest duration in any trace: the
/// longest first, and those whose longest durations rank the same in their own order.
pub proof fn law_rows_descend(traces: Seq<ColumnModel>)
    ensures
        row_kernels(traces).len() == all_kernels(traces).len(),
        forall|k: KernelKey| #[trigger]
            row_kernels(traces).contains(k) <==> all_kernels(traces).contains(k),
        forall|i: int, j: int|
            0 <= i < j < row_kernels(traces).len() ==> {
                let a = #[trigger] row_kernels(traces)[i];
                let b = #[trigger] row_kernels(traces)[j];
                ||| row_rank(traces, a) > row_rank(traces, b)
                ||| row_rank(traces, a) == row_rank(traces, b) && kernels::key_less(a, b)
            },
{
    let keys = all_kernels(traces);
    let rows = row_kernels(traces);
    let ranks = row_ranks(traces);
    let sorted = order::sorted_positions(ranks);
    law_table_lists_the_kernels(traces);
    order::law_stable_order(ranks, keys.len());
    assert forall|k: KernelKey| #[trigger] rows.contains(k) implies keys.contains(k) by {
        let i = rows.index_of(k);
        assert(keys[sorted[i]] == k);
    }
    assert forall|k: KernelKey| keys.contains(k) implies #[trigger] rows.contains(k) by {
        let p = keys.index_of(k);
        assert(sorted.contains(p));
        assert(rows[sorted.index_of(p)] == k);
    }
    assert forall|i: int, j: int| 0 <= i < j < rows.len() implies {
        let a = #[trigger] rows[i];
        let b = #[trigger] rows[j];
        ||| row_rank(traces, a) > row_rank(traces, b)
        ||| row_rank(traces, a) == row_rank(traces, b) && kernels::key_less(a, b)
    } by {
        let p = sorted[i];
        let q = sorted[j];
        assert(order::precedes(ranks, p, q));
        if p < q {
            assert(kernels::key_less(keys[p], keys[q]));
        }
    }
}

/// The longest duration of a kernel in a trace ranks no higher than the kernel's row, and the
/// row's rank is zero or that of the longest duration in some trace.
pub proof fn law_row_rank_is_the_longest(traces: Seq<ColumnModel>, id: KernelKey)
    ensures
        row_rank(traces, id) >= 0,
        forall|t: int| #![trigger traces[t]]
            0 <= t < traces.len() ==> match summary_of(traces[t].kernels, id) {
                Some(s) => longest_rank(s.ranks) <= row_rank(traces, id),
                None => true,
            },
        row_rank(traces, id) == 0 || exists|t: int| #![trigger traces[t]]
            0 <= t < traces.len() && match summary_of(traces[t].kernels, id) {
                Some(s) => longest_rank(s.ranks) == row_rank(traces, id),
                None => false,
            },
    decreases traces.len(),
{
    if traces.len() > 0 {
        let head = traces.drop_last();
        let n = traces.len() as int;
        law_row_rank_is_the_longest(head, id);
        assert forall|t: int| #![trigger traces[t]] 0 <= t < n implies match summary_of(
            traces[t].kernels,
            id,
        ) {
            Some(s) => longest_rank(s.ranks) <= row_rank(traces, id),
            None => true,
        } by {
            if t < n - 1 {
                assert(head[t] == traces[t]);
            }
        }
        if row_rank(traces, id) != 0 {
            if row_rank(traces, id) == row_rank(head, id) {
                let t = choose|t: int| #![trigger head[t]]
                    0 <= t < head.len() && match summary_of(head[t].kernels, id) {
                        Some(s) => longest_rank(s.ranks) == row_rank(head, id),
                        None => false,
                    };
                assert(traces[t] == head[t]);
            } else {
                assert(traces[n - 1] == traces.last());
            }
        }
    }
}

/// Where a kernel did not run in a trace, the cells of that trace are left empty.
pub proof fn law_missing_kernel_leaves_cells_empty(trace: ColumnModel, id: KernelKey)
    ensures
        summary_of(trace.kernels, id) is None ==> cells_text(trace, id) == " | | |"@,
        (forall|i: int| 0 <= i < trace.kernels.len() ==> (#[trigger] trace.kernels[i]).id != id)
            <==> summary_of(trace.kernels, id) is None,
    decreases trace.kernels.len(),
{
    let ran = trace.kernels;
    if ran.len() > 0 {
        let rest = ColumnModel { name: trace.name, kernels: ran.skip(1) };
        law_missing_kernel_leaves_cells_empty(rest, id);
        if summary_of(ran, id) is None {
            assert forall|i: int| 0 <= i < ran.len() implies (#[trigger] ran[i]).id != id by {
                if i > 0 {
                    assert(rest.kernels[i - 1].id != id);
                }
            }
        } else if ran[0].id != id {
            let i = choose|i: int| 0 <= i < rest.kernels.len() && (#[trigger] rest.kernels[i]).id == id;
            assert(ran[i + 1].id == id);
        }
    }
}

// ---------------------------------------------------------------------------------------------
// What the table says

/// The median stands in the middle: as many positions stand before it as behind it, or before the
/// first of the two as behind the second.
pub proof fn law_median_is_in_the_middle(sorted: Seq<int>, m: Median)
    requires
        is_median(sorted, m),
    ensures
        m is Empty <==> sorted.len() == 0,
        m matches Median::One(p) ==> exists|k: int|
            0 <= k < sorted.len() && #[trigger] sorted[k] == p && k == sorted.len() - 1 - k,
        m matches Median::Two(p, q) ==> exists|k: int|
            0 <= k < sorted.len() - 1 && #[trigger] sorted[k] == p && sorted[k + 1] == q && k
                == sorted.len() - 2 - k,
{
    let n = sorted.len() as int;
    if m is One {
        assert(sorted[n / 2] == m->One_0);
    }
    if m is Two {
        assert(sorted[n / 2 - 1] == m->Two_0);
    }
}

/// The rank of the longest duration is reached by one and exceeded by none, and is zero where there
/// is no duration.
pub proof fn law_longest_rank_is_the_greatest(ranks: Seq<int>)
    ensures
        ranks.len() == 0 ==> longest_rank(ranks) == 0,
        forall|p: int| 0 <= p < ranks.len() ==> #[trigger] ranks[p] <= longest_rank(ranks),
        ranks.len() > 0 ==> exists|p: int| 0 <= p < ranks.len() && #[trigger] ranks[p] == longest_rank(ranks),
{
    law_stats_follow_the_order(ranks);
    order::law_stable_order(ranks, ranks.len());
    if ranks.len() > 0 {
        let sorted = order::sorted_positions(ranks);
        let p = sorted[sorted.len() - 1];
        assert(ranks[p] == longest_rank(ranks));
    }
}

/// The rank of a number that is not below zero is its bits, so such numbers rank as they are ordered;
/// with the sign bit set, a number ranks as far below zero as without it above.
pub proof fn law_rank_keeps_the_order(a: u64, b: u64)
    requires
        a < 0x8000_0000_0000_0000,
        b < 0x8000_0000_0000_0000,
    ensures
        rank_of(a) < rank_of(b) <==> a < b,
        rank_of(a) == a,
        rank_of((a + 0x8000_0000_0000_0000) as u64) == -rank_of(a),
{
}

/// Escaping goes character by character: `|` becomes `\\|`, and any other stays.
pub proof fn law_escaping_is_by_character(a: Seq<char>, b: Seq<char>, c: char)
    ensures
        escaped(a + b) == escaped(a) + escaped(b),
        escaped(seq![c]) == if c == '|' {
            seq!['\\', '|']
        } else {
            seq![c]
        },
        escaped(Seq::<char>::empty()) == Seq::<char>::empty(),
    decreases b.len(),
{
    reveal_with_fuel(escaped, 2);
    assert(seq![c].drop_last() =~= Seq::<char>::empty());
    assert(escaped(seq![c]) =~= if c == '|' {
        seq!['\\', '|']
    } else {
        seq![c]
    });
    if b.len() == 0 {
        assert(a + b =~= a);
        assert(escaped(b) =~= Seq::<char>::empty());
        assert(escaped(a) + escaped(b) =~= escaped(a));
    } else {
        law_escaping_is_by_character(a, b.drop_last(), c);
        assert((a + b).drop_last() =~= a + b.drop_last());
        assert(escaped(a + b) =~= escaped(a) + escaped(b));
    }
}

/// What a trace says of a kernel is its first summary of that kernel.
pub proof fn law_summary_is_of_the_kernel(kernels: Seq<SummaryModel>, id: KernelKey)
    ensures
        summary_of(kernels, id) matches Some(s) ==> s.id == id && exists|i: int|
            0 <= i < kernels.len() && #[trigger] kernels[i] == s && forall|j: int|
                0 <= j < i ==> (#[trigger] kernels[j]).id != id,
        summary_of(kernels, id) is None ==> forall|i: int|
            0 <= i < kernels.len() ==> (#[trigger] kernels[i]).id != id,
    decreases kernels.len(),
{
    if kernels.len() > 0 {
        let rest = kernels.skip(1);
        if kernels[0].id != id {
            law_summary_is_of_the_kernel(rest, id);
            if summary_of(kernels, id) is Some {
                let s = summary_of(kernels, id)->0;
                let i = choose|i: int|
                    0 <= i < rest.len() && #[trigger] rest[i] == s && forall|j: int|
                        0 <= j < i ==> (#[trigger] rest[j]).id != id;
                assert(kernels[i + 1] == s);
                assert forall|j: int| 0 <= j < i + 1 implies (#[trigger] kernels[j]).id != id by {
                    if j > 0 {
                        assert(rest[j - 1].id != id);
                    }
                }
            } else {
                assert forall|i: int| 0 <= i < kernels.len() implies (#[trigger] kernels[i]).id != id by {
                    if i > 0 {
                        assert(rest[i - 1].id != id);
                    }
                }
            }
        } else {
            assert(kernels[0] == summary_of(kernels, id)->0);
        }
    }
}

/// The instance count of a row is not below the number of runs in any trace, and is reached in some
/// trace unless it is zero.
pub proof fn law_row_count_is_the_most(traces: Seq<ColumnModel>, id: KernelKey)
    ensures
        forall|t: int| #![trigger traces[t]]
            0 <= t < traces.len() ==> match summary_of(traces[t].kernels, id) {
                Some(s) => s.ranks.len() <= row_count(traces, id),
                None => true,
            },
        row_count(traces, id) == 0 || exists|t: int| #![trigger traces[t]]
            0 <= t < traces.len() && match summary_of(traces[t].kernels, id) {
                Some(s) => s.ranks.len() == row_count(traces, id),
                None => false,
            },
    decreases traces.len(),
{
    if traces.len() > 0 {
        let head = traces.drop_last();
        let n = traces.len() as int;
        law_row_count_is_the_most(head, id);
        assert forall|t: int| #![trigger traces[t]] 0 <= t < n implies match summary_of(
            traces[t].kernels,
            id,
        ) {
            Some(s) => s.ranks.len() <= row_count(traces, id),
            None => true,
        } by {
            if t < n - 1 {
                assert(head[t] == traces[t]);
            }
        }
        if row_count(traces, id) != 0 {
            if row_count(traces, id) == row_count(head, id) {
                let t = choose|t: int| #![trigger head[t]]
                    0 <= t < head.len() && match summary_of(head[t].kernels, id) {
                        Some(s) => s.ranks.len() == row_count(head, id),
                        None => false,
                    };
                assert(traces[t] == head[t]);
            } else {
                assert(traces[n - 1] == traces.last());
            }
        }
    }
}

/// The columns of a table are those of its traces, side by side: a trace adds three headings, three
/// rules, and to each row three cells, which are the p50, the longest and the total of the kernel in
/// that trace, or empty.
pub proof fn law_columns_stand_side_by_side(traces: Seq<ColumnModel>, trace: ColumnModel, id: KernelKey)
    ensures
        headings(traces.push(trace)) == headings(traces) + (" "@ + trace.name + " p50 (ms) | "@
            + trace.name + " max (ms) | "@ + trace.name + " total (ms) |"@),
        headings(Seq::empty()) == Seq::<char>::empty(),
        rules(traces.len() + 1) == rules(traces.len()) + " ---: | ---: | ---: |"@,
        rules(0) == Seq::<char>::empty(),
        all_cells(Seq::empty(), id) == Seq::<char>::empty(),
        summary_of(trace.kernels, id) matches Some(s) ==> all_cells(traces.push(trace), id) == all_cells(
            traces,
            id,
        ) + (" "@ + s.p50 + " | "@ + s.max + " | "@ + s.total + " |"@),
        summary_of(trace.kernels, id) is None ==> all_cells(traces.push(trace), id) == all_cells(
            traces,
            id,
        ) + " | | |"@,
{
    assert(traces.push(trace).drop_last() =~= traces);
}

/// The lines of a table: the headings, the rule, and for each kernel, from the one with the longest
/// duration on, its count, name, grid and shapes and the cells of the traces.
pub proof fn law_table_has_a_row_for_each_kernel(traces: Seq<ColumnModel>, i: int)
    requires
        0 <= i < row_kernels(traces).len(),
    ensures
        table_lines(traces).len() == row_kernels(traces).len() + 2,
        table_lines(traces)[0] == "| Kernel | Grid | Input Shapes |"@ + headings(traces),
        table_lines(traces)[1] == "| --- | --- | --- |"@ + rules(traces.len()),
        table_lines(traces)[i + 2] == "| `["@ + text::decimal(row_count(traces, row_kernels(traces)[i]))
            + "] "@ + escaped(row_kernels(traces)[i].name) + "` | `"@ + escaped(
            row_kernels(traces)[i].grid,
        ) + "` | `"@ + escaped(row_kernels(traces)[i].input_shapes) + "` |"@ + all_cells(
            traces,
            row_kernels(traces)[i],
        ),
{
}

/// A table is its lines, each with a newline behind it, up to any of them; without kernels it is a
/// sentence.
pub proof fn law_table_is_its_lines(traces: Seq<ColumnModel>)
    ensures
        all_kernels(traces).len() == 0 ==> table_text(traces)
            == "No GPU kernel events found in any trace.\n"@,
        all_kernels(traces).len() > 0 ==> text::ends_lines(table_lines(traces), table_text(traces)),
{
    reveal_strlit("\n");
    assert("\n"@ =~= seq!['\n']);
    if all_kernels(traces).len() > 0 {
        text::lemma_joined_lines(table_lines(traces));
    }
}

} // verus!
