//! GPU kernels: what identifies a kernel, how its shapes are written, and the order of kernels.

use vstd::prelude::*;
use crate::json;
use crate::json::{Json, JsonModel};
use crate::order;
use crate::text;

verus! {

// ---------------------------------------------------------------------------------------------
// Shapes

/// A value for people to read: arrays with `, ` between their items, texts without quotes, and
/// anything else as JSON.
pub open spec fn value_text(v: JsonModel) -> Seq<char>
    decreases v,
{
    match v {
        JsonModel::Array(items) => seq!['['] + text::join(value_texts(items), ", "@) + seq![']'],
        JsonModel::Number(n) => json::number_text(n),
        JsonModel::Str(s) => s,
        other => json::json_text(other),
    }
}

/// Values for people to read.
pub open spec fn value_texts(items: Seq<JsonModel>) -> Seq<Seq<char>>
    decreases items,
{
    if items.len() == 0 {
        seq![]
    } else {
        value_texts(items.drop_last()).push(value_text(items[items.len() - 1]))
    }
}

/// The dimensions of one input: those of a scalar, which has none, are written as `1`.
pub open spec fn dimension_text(v: JsonModel) -> Seq<char> {
    if v == JsonModel::Array(seq![]) {
        "1"@
    } else {
        value_text(v)
    }
}

/// The dimensions of the inputs of an operator.
pub open spec fn dimensions_text(v: JsonModel) -> Seq<char> {
    match v {
        JsonModel::Array(items) => seq!['['] + text::join(
            Seq::new(items.len(), |i: int| dimension_text(items[i])),
            ", "@,
        ) + seq![']'],
        other => value_text(other),
    }
}

/// Input dimensions are written as any value is, but for scalars: where no input is one, they are
/// written alike.
pub proof fn law_only_scalars_are_written_as_one(v: JsonModel)
    requires
        v matches JsonModel::Array(items) ==> !items.contains(JsonModel::Array(seq![])),
    ensures
        dimensions_text(v) == value_text(v),
{
    if let JsonModel::Array(items) = v {
        lemma_value_texts(items);
        assert forall|i: int| 0 <= i < items.len() implies dimension_text(items[i]) == value_text(
            items[i],
        ) by {
            assert(items.contains(items[i]));
        }
        assert(Seq::new(items.len(), |i: int| dimension_text(items[i])) =~= value_texts(items));
    }
}

/// Values for people to read are written one by one.
proof fn lemma_value_texts(items: Seq<JsonModel>)
    ensures
        value_texts(items).len() == items.len(),
        forall|i: int| 0 <= i < items.len() ==> #[trigger] value_texts(items)[i] == value_text(items[i]),
    decreases items.len(),
{
    if items.len() > 0 {
        let head = items.drop_last();
        lemma_value_texts(head);
        assert forall|i: int| 0 <= i < items.len() implies #[trigger] value_texts(items)[i] == value_text(
            items[i],
        ) by {
            if i < head.len() {
                assert(value_texts(items)[i] == value_texts(head)[i]);
            }
        }
    }
}

fn bracketed(parts: &Vec<String>) -> (r: String)
    ensures
        r@ == seq!['['] + text::join(text::texts(parts@), ", "@) + seq![']'],
{
    let mut r = String::new();
    r.push('[');
    r.append(text::join_texts(parts, ", ").as_str());
    r.push(']');
    assert(r@ =~= seq!['['] + text::join(text::texts(parts@), ", "@) + seq![']']);
    r
}

/// Formats a JSON value into a readable string (for grids, shapes, etc.).
pub fn format_value(v: &Json) -> (r: String)
    ensures
        r@ == value_text(v@),
    decreases v,
{
    match v {
        Json::Array(items) => {
            let ghost all = json::documents(items@);
            let mut parts: Vec<String> = Vec::new();
            for i in 0..items.len()
                invariant
                    *v == Json::Array(*items),
                    all == json::documents(items@),
                    text::texts(parts@) == value_texts(all.take(i as int)),
            {
                assert(decreases_to!(*v => v->Array_0));
                assert(decreases_to!(*items => items@));
                assert(decreases_to!(items@ => items@[i as int]));
                let ghost before = text::texts(parts@);
                parts.push(format_value(&items[i]));
                proof {
                    assert(all.take(i + 1).drop_last() == all.take(i as int));
                    assert(text::texts(parts@) == before.push(value_text(items@[i as int]@)));
                }
            }
            proof {
                json::lemma_array_view(*items);
                assert(all.take(all.len() as int) == all);
            }
            bracketed(&parts)
        },
        Json::Number(n) => n.to_text(),
        Json::Str(s) => text::copy_of(s.as_str()),
        other => other.to_text(),
    }
}

fn format_dimension(v: &Json) -> (r: String)
    ensures
        r@ == dimension_text(v@),
{
    match v {
        Json::Array(inner) => {
            proof {
                json::lemma_array_view(*inner);
            }
            if inner.len() == 0 {
                assert(json::documents(inner@) == Seq::<JsonModel>::empty());
                text::copy_of("1")
            } else {
                assert(v@->Array_0.len() > 0);
                format_value(v)
            }
        },
        _ => format_value(v),
    }
}

/// Formats input dimensions, converting empty sub-arrays (scalars) to `1`.
/// E.g. `[[1024, 128], [], [128, 256], []]` becomes `[[1024, 128], 1, [128, 256], 1]`.
pub fn format_input_dims(v: &Json) -> (r: String)
    ensures
        r@ == dimensions_text(v@),
{
    match v {
        Json::Array(items) => {
            let mut parts: Vec<String> = Vec::new();
            for i in 0..items.len()
                invariant
                    parts@.len() == i,
                    forall|k: int| 0 <= k < i ==> (#[trigger] parts@[k])@ == dimension_text(items@[k]@),
            {
                parts.push(format_dimension(&items[i]));
            }
            proof {
                json::lemma_array_view(*items);
                let all = json::documents(items@);
                assert(text::texts(parts@) =~= Seq::new(all.len(), |i: int| dimension_text(all[i])));
            }
            bracketed(&parts)
        },
        _ => format_value(v),
    }
}

// ---------------------------------------------------------------------------------------------
// Identity

/// Unique identifier for a GPU kernel invocation.
#[derive(Debug, Clone, PartialEq, Eq, Hash, PartialOrd, Ord)]
pub struct KernelId {
    pub name: String,
    pub grid: String,
    pub input_shapes: String,
}

/// What identifies a kernel.
pub struct KernelKey {
    pub name: Seq<char>,
    pub grid: Seq<char>,
    pub input_shapes: Seq<char>,
}

impl View for KernelId {
    type V = KernelKey;

    open spec fn view(&self) -> KernelKey {
        KernelKey { name: self.name@, grid: self.grid@, input_shapes: self.input_shapes@ }
    }
}

impl KernelId {
    /// The name, the grid and the input shapes, with ` | ` between each two.
    pub fn to_string(&self) -> (r: String)
        ensures
            r@ == self@.name + " | "@ + self@.grid + " | "@ + self@.input_shapes,
    {
        let mut r = self.name.clone();
        r.append(" | ");
        r.append(self.grid.as_str());
        r.append(" | ");
        r.append(self.input_shapes.as_str());
        r
    }

    /// The same identifier in a value of its own.
    pub fn copy(&self) -> (r: KernelId)
        ensures
            r@ == self@,
    {
        KernelId {
            name: self.name.clone(),
            grid: self.grid.clone(),
            input_shapes: self.input_shapes.clone(),
        }
    }
}

/// The order of kernels: by name, then by grid, then by input shapes.
pub open spec fn key_less(a: KernelKey, b: KernelKey) -> bool {
    ||| order::text_less(a.name, b.name)
    ||| a.name == b.name && order::text_less(a.grid, b.grid)
    ||| a.name == b.name && a.grid == b.grid && order::text_less(a.input_shapes, b.input_shapes)
}

/// The order of kernels is total.
pub proof fn lemma_key_total(a: KernelKey, b: KernelKey)
    ensures
        key_less(a, b) || key_less(b, a) || a == b,
{
    order::lemma_text_total(a.name, b.name);
    order::lemma_text_total(a.grid, b.grid);
    order::lemma_text_total(a.input_shapes, b.input_shapes);
}

/// The order of kernels is transitive.
pub proof fn lemma_key_transitive(a: KernelKey, b: KernelKey, c: KernelKey)
    requires
        key_less(a, b),
        key_less(b, c),
    ensures
        key_less(a, c),
{
    if order::text_less(a.name, b.name) && order::text_less(b.name, c.name) {
        order::lemma_text_transitive(a.name, b.name, c.name);
    }
    if order::text_less(a.grid, b.grid) && order::text_less(b.grid, c.grid) {
        order::lemma_text_transitive(a.grid, b.grid, c.grid);
    }
    if order::text_less(a.input_shapes, b.input_shapes) && order::text_less(
        b.input_shapes,
        c.input_shapes,
    ) {
        order::lemma_text_transitive(a.input_shapes, b.input_shapes, c.input_shapes);
    }
}

/// No kernel comes before itself, nor two each before the other.
pub proof fn lemma_key_asymmetric(a: KernelKey, b: KernelKey)
    requires
        key_less(a, b),
    ensures
        !key_less(b, a),
        a != b,
{
    order::lemma_text_irreflexive(a.name);
    order::lemma_text_irreflexive(a.grid);
    order::lemma_text_irreflexive(a.input_shapes);
    if key_less(b, a) {
        lemma_key_transitive(a, b, a);
    }
}

/// Tells whether two identifiers are of the same kernel.
pub fn same_kernel(a: &KernelId, b: &KernelId) -> (r: bool)
    ensures
        r == (a@ == b@),
{
    text::same(a.name.as_str(), b.name.as_str()) && text::same(a.grid.as_str(), b.grid.as_str())
        && text::same(a.input_shapes.as_str(), b.input_shapes.as_str())
}

/// Tells whether one kernel comes before another.
pub fn is_key_less(a: &KernelId, b: &KernelId) -> (r: bool)
    ensures
        r == key_less(a@, b@),
{
    if !text::same(a.name.as_str(), b.name.as_str()) {
        return order::is_text_less(a.name.as_str(), b.name.as_str());
    }
    proof {
        order::lemma_text_irreflexive(a.name@);
    }
    if !text::same(a.grid.as_str(), b.grid.as_str()) {
        return order::is_text_less(a.grid.as_str(), b.grid.as_str());
    }
    proof {
        order::lemma_text_irreflexive(a.grid@);
    }
    order::is_text_less(a.input_shapes.as_str(), b.input_shapes.as_str())
}

/// Whether kernels come in their order, each once.
pub open spec fn ascending(keys: Seq<KernelKey>) -> bool {
    forall|i: int, j: int|
        0 <= i < j < keys.len() ==> key_less(#[trigger] keys[i], #[trigger] keys[j])
}

/// Kernels in their order, with one more where it belongs unless it is among them.
pub open spec fn insert_key(keys: Seq<KernelKey>, k: KernelKey) -> Seq<KernelKey>
    decreases keys.len(),
{
    if keys.len() == 0 || key_less(keys.last(), k) {
        keys.push(k)
    } else if keys.last() == k {
        keys
    } else {
        insert_key(keys.drop_last(), k).push(keys.last())
    }
}

/// Where a kernel belongs is told by what comes before and after it.
pub proof fn lemma_insert_key(keys: Seq<KernelKey>, k: KernelKey, i: int)
    requires
        0 <= i <= keys.len(),
        forall|j: int| 0 <= j < i ==> key_less(#[trigger] keys[j], k),
        forall|j: int| i <= j < keys.len() ==> key_less(k, #[trigger] keys[j]),
    ensures
        insert_key(keys, k) == keys.insert(i, k),
    decreases keys.len(),
{
    if i == keys.len() {
        if keys.len() > 0 {
            assert(key_less(keys[i - 1], k));
        }
        assert(keys.insert(i, k) =~= keys.push(k));
    } else {
        let head = keys.drop_last();
        assert(key_less(k, keys[keys.len() - 1]));
        lemma_key_asymmetric(k, keys.last());
        lemma_insert_key(head, k, i);
        assert(keys.insert(i, k) =~= head.insert(i, k).push(keys.last()));
    }
}

/// A kernel that is among others in their order is not put among them again.
pub proof fn lemma_insert_present(keys: Seq<KernelKey>, i: int)
    requires
        ascending(keys),
        0 <= i < keys.len(),
    ensures
        insert_key(keys, keys[i]) == keys,
    decreases keys.len(),
{
    let k = keys[i];
    if i < keys.len() - 1 {
        let head = keys.drop_last();
        assert(key_less(keys[i], keys[keys.len() - 1]));
        lemma_key_asymmetric(k, keys.last());
        assert(ascending(head)) by {
            assert forall|a: int, b: int| 0 <= a < b < head.len() implies key_less(
                #[trigger] head[a],
                #[trigger] head[b],
            ) by {
                assert(key_less(keys[a], keys[b]));
            }
        }
        lemma_insert_present(head, i);
        assert(keys =~= head.push(keys.last()));
    } else {
        order::lemma_text_irreflexive(k.name);
        order::lemma_text_irreflexive(k.grid);
        order::lemma_text_irreflexive(k.input_shapes);
    }
}

/// Putting a kernel among others keeps their order, and adds that kernel and no other.
pub proof fn lemma_insert_ascending(keys: Seq<KernelKey>, k: KernelKey)
    requires
        ascending(keys),
    ensures
        ascending(insert_key(keys, k)),
        insert_key(keys, k).contains(k),
        forall|x: KernelKey| keys.contains(x) ==> #[trigger] insert_key(keys, k).contains(x),
        forall|x: KernelKey| #[trigger] insert_key(keys, k).contains(x) ==> x == k || keys.contains(x),
    decreases keys.len(),
{
    let out = insert_key(keys, k);
    if keys.len() == 0 || key_less(keys.last(), k) {
        assert(out[keys.len() as int] == k);
        assert forall|x: KernelKey| keys.contains(x) implies #[trigger] out.contains(x) by {
            assert(out[keys.index_of(x)] == x);
        }
        assert forall|i: int, j: int| 0 <= i < j < out.len() implies key_less(
            #[trigger] out[i],
            #[trigger] out[j],
        ) by {
            assert(out[i] == keys[i]);
            if j == keys.len() {
                if i < keys.len() - 1 {
                    assert(key_less(keys[i], keys[keys.len() - 1]));
                    lemma_key_transitive(keys[i], keys.last(), k);
                }
            } else {
                assert(out[j] == keys[j]);
            }
        }
    } else if keys.last() == k {
        assert(keys[keys.len() - 1] == k);
    } else {
        let head = keys.drop_last();
        let last = keys.last();
        let rest = insert_key(head, k);
        assert(ascending(head)) by {
            assert forall|a: int, b: int| 0 <= a < b < head.len() implies key_less(
                #[trigger] head[a],
                #[trigger] head[b],
            ) by {
                assert(key_less(keys[a], keys[b]));
            }
        }
        lemma_insert_ascending(head, k);
        lemma_key_total(k, last);
        assert(out[rest.index_of(k)] == k);
        assert forall|x: KernelKey| keys.contains(x) implies #[trigger] out.contains(x) by {
            let i = keys.index_of(x);
            if i < head.len() {
                assert(head[i] == x);
                assert(head.contains(x));
                assert(rest.contains(x));
                assert(out[rest.index_of(x)] == x);
            } else {
                assert(out[rest.len() as int] == x);
            }
        }
        assert forall|x: KernelKey| #[trigger] out.contains(x) implies x == k || keys.contains(x) by {
            let i = out.index_of(x);
            if i < rest.len() {
                assert(rest[i] == x);
                assert(rest.contains(x));
                if head.contains(x) {
                    assert(keys[head.index_of(x)] == x);
                }
            } else {
                assert(keys[keys.len() - 1] == x);
            }
        }
        assert forall|i: int, j: int| 0 <= i < j < out.len() implies key_less(
            #[trigger] out[i],
            #[trigger] out[j],
        ) by {
            assert(out[i] == rest[i]);
            if j < rest.len() {
                assert(out[j] == rest[j]);
            } else {
                assert(rest.contains(rest[i]));
                if rest[i] != k {
                    let m = head.index_of(rest[i]);
                    assert(key_less(keys[m], keys[keys.len() - 1]));
                }
            }
        }
    }
}

/// A value that stands for a kernel.
pub trait Keyed: Sized {
    /// The kernel that the value stands for.
    spec fn key(self) -> KernelKey;

    /// The identifier of the kernel that the value stands for.
    fn kernel(&self) -> (r: &KernelId)
        ensures
            r@ == self.key(),
    ;
}

impl Keyed for KernelId {
    open spec fn key(self) -> KernelKey {
        self@
    }

    fn kernel(&self) -> (r: &KernelId) {
        self
    }
}

/// The kernels that values stand for.
pub open spec fn keys_in<K: Keyed>(v: Seq<K>) -> Seq<KernelKey> {
    Seq::new(v.len(), |i: int| v[i].key())
}

/// Where a kernel stands among others in their order, or where it belongs.
pub fn locate<K: Keyed>(found: &Vec<K>, id: &KernelId) -> (r: (usize, bool))
    requires
        ascending(keys_in(found@)),
    ensures
        r.0 <= found@.len(),
        forall|j: int| 0 <= j < r.0 ==> key_less(#[trigger] keys_in(found@)[j], id@),
        r.1 ==> r.0 < found@.len() && keys_in(found@)[r.0 as int] == id@,
        !r.1 ==> forall|j: int|
            r.0 <= j < found@.len() ==> key_less(id@, #[trigger] keys_in(found@)[j]),
{
    let ghost ids = keys_in(found@);
    let mut lo: usize = 0;
    let mut hi: usize = found.len();
    while lo < hi
        invariant
            ids == keys_in(found@),
            ascending(ids),
            lo <= hi <= found@.len(),
            forall|j: int| 0 <= j < lo ==> key_less(#[trigger] ids[j], id@),
            forall|j: int| hi <= j < ids.len() ==> key_less(id@, #[trigger] ids[j]),
        decreases hi - lo,
    {
        let mid: usize = lo + (hi - lo) / 2;
        assert(ids[mid as int] == found@[mid as int].key());
        if is_key_less(found[mid].kernel(), id) {
            assert forall|j: int| 0 <= j < mid + 1 implies key_less(#[trigger] ids[j], id@) by {
                if j < mid {
                    assert(key_less(ids[j], ids[mid as int]));
                    lemma_key_transitive(ids[j], ids[mid as int], id@);
                }
            }
            lo = mid + 1;
        } else if same_kernel(found[mid].kernel(), id) {
            return (mid, true);
        } else {
            proof {
                lemma_key_total(ids[mid as int], id@);
            }
            assert forall|j: int| mid <= j < ids.len() implies key_less(id@, #[trigger] ids[j]) by {
                if j > mid {
                    assert(key_less(ids[mid as int], ids[j]));
                    lemma_key_transitive(id@, ids[mid as int], ids[j]);
                }
            }
            hi = mid;
        }
    }
    (lo, false)
}

// ---------------------------------------------------------------------------------------------
// What the texts and the order are

/// A whole number is shown in decimal, a text as it is, and an array by its items in brackets: one
/// more item stands behind the others, after a comma and a space.
pub proof fn law_value_text_shows_items(items: Seq<JsonModel>, item: JsonModel, n: u64, i: i64, s: Seq<char>)
    ensures
        value_text(JsonModel::Number(json::NumberModel::PosInt(n))) == text::decimal(n as nat),
        i < 0 ==> value_text(JsonModel::Number(json::NumberModel::NegInt(i))) == seq!['-']
            + text::decimal((-i) as nat),
        value_text(JsonModel::Number(json::NumberModel::Float(s))) == s,
        value_text(JsonModel::Str(s)) == s,
        value_text(JsonModel::Null) == "null"@,
        value_text(JsonModel::Bool(true)) == "true"@,
        value_text(JsonModel::Bool(false)) == "false"@,
        value_text(JsonModel::Array(seq![])) == seq!['[', ']'],
        items.len() == 0 ==> value_text(JsonModel::Array(items.push(item))) == seq!['['] + value_text(
            item,
        ) + seq![']'],
        items.len() > 0 ==> value_text(JsonModel::Array(items.push(item))) == value_text(
            JsonModel::Array(items),
        ).drop_last() + seq![',', ' '] + value_text(item) + seq![']'],
{
    reveal_strlit(", ");
    assert(", "@ =~= seq![',', ' ']);
    let none = Seq::<JsonModel>::empty();
    lemma_value_texts(none);
    lemma_value_texts(items);
    assert(value_texts(none) =~= seq![]);
    assert(value_text(JsonModel::Array(seq![])) =~= seq!['[', ']']);
    let more = items.push(item);
    assert(more.drop_last() =~= items);
    assert(value_texts(more) =~= value_texts(items).push(value_text(item)));
    let before = value_texts(items);
    let after = value_texts(more);
    assert(after.drop_last() =~= before);
    if items.len() == 0 {
        assert(after.len() == 1);
        assert(text::join(after, ", "@) == value_text(item));
    } else {
        assert(text::join(after, ", "@) == text::join(before, ", "@) + ", "@ + value_text(item));
        assert(value_text(JsonModel::Array(items)).drop_last() =~= seq!['['] + text::join(before, ", "@));
    }
}

/// Input dimensions are those of the inputs in brackets: one more input stands behind the others as
/// its own text, or as `1` if it has no dimensions.
pub proof fn law_dimensions_show_inputs(items: Seq<JsonModel>, item: JsonModel, v: JsonModel)
    ensures
        !(v is Array) ==> dimensions_text(v) == value_text(v),
        dimensions_text(JsonModel::Array(seq![])) == seq!['[', ']'],
        items.len() == 0 ==> dimensions_text(JsonModel::Array(items.push(item))) == seq!['[']
            + if item == JsonModel::Array(seq![]) {
            seq!['1']
        } else {
            value_text(item)
        } + seq![']'],
        items.len() > 0 ==> dimensions_text(JsonModel::Array(items.push(item))) == dimensions_text(
            JsonModel::Array(items),
        ).drop_last() + seq![',', ' '] + if item == JsonModel::Array(seq![]) {
            seq!['1']
        } else {
            value_text(item)
        } + seq![']'],
{
    reveal_strlit(", ");
    reveal_strlit("1");
    assert(", "@ =~= seq![',', ' ']);
    assert("1"@ =~= seq!['1']);
    let none = Seq::<JsonModel>::empty();
    assert(Seq::new(none.len(), |i: int| dimension_text(none[i])) =~= seq![]);
    assert(dimensions_text(JsonModel::Array(seq![])) =~= seq!['[', ']']);
    let more = items.push(item);
    let before = Seq::new(items.len(), |i: int| dimension_text(items[i]));
    let after = Seq::new(more.len(), |i: int| dimension_text(more[i]));
    assert(after =~= before.push(dimension_text(item)));
    assert(after.drop_last() =~= before);
    if items.len() == 0 {
        assert(text::join(after, ", "@) == dimension_text(item));
    } else {
        assert(text::join(after, ", "@) == text::join(before, ", "@) + ", "@ + dimension_text(item));
        assert(dimensions_text(JsonModel::Array(items)).drop_last() =~= seq!['['] + text::join(
            before,
            ", "@,
        ));
    }
}

/// Kernels are ordered by name; those of the same name by grid, and those of the same grid too by
/// input shapes.
pub proof fn law_kernels_are_ordered_by_name_grid_and_shapes(a: KernelKey, b: KernelKey)
    ensures
        order::text_less(a.name, b.name) ==> key_less(a, b) && !key_less(b, a),
        a.name == b.name && order::text_less(a.grid, b.grid) ==> key_less(a, b) && !key_less(b, a),
        a.name == b.name && a.grid == b.grid ==> (key_less(a, b) <==> order::text_less(
            a.input_shapes,
            b.input_shapes,
        )),
        !key_less(a, a),
{
    order::lemma_text_irreflexive(a.name);
    order::lemma_text_irreflexive(a.grid);
    order::lemma_text_irreflexive(a.input_shapes);
    if order::text_less(a.name, b.name) {
        order::lemma_text_asymmetric(a.name, b.name);
    }
    if order::text_less(a.grid, b.grid) {
        order::lemma_text_asymmetric(a.grid, b.grid);
    }
}

} // verus!
