//! JSON documents: reading them from bytes through `serde_json`, looking into them, and
//! writing them in compact form.

use vstd::prelude::*;
use crate::order;
use crate::text;

verus! {

/// A JSON number that is not held as a whole number. It is known by its text, as `serde_json`
/// writes it.
#[derive(Debug)]
pub struct JsonFloat {
    value: serde_json::Value,
}

/// A JSON number.
#[derive(Debug)]
pub enum JsonNumber {
    /// A whole number from zero on.
    PosInt(u64),
    /// A whole number below zero.
    NegInt(i64),
    /// A number that is not held as a whole number.
    Float(JsonFloat),
}

/// A JSON document. An object holds its fields in the order in which they are written.
#[derive(Debug)]
pub enum Json {
    Null,
    Bool(bool),
    Number(JsonNumber),
    Str(String),
    Array(Vec<Json>),
    Object(Vec<(String, Json)>),
}

/// What a JSON number is.
pub enum NumberModel {
    PosInt(u64),
    NegInt(i64),
    Float(Seq<char>),
}

/// What a JSON document is.
pub enum JsonModel {
    Null,
    Bool(bool),
    Number(NumberModel),
    Str(Seq<char>),
    Array(Seq<JsonModel>),
    Object(Seq<(Seq<char>, JsonModel)>),
}

impl JsonFloat {
    #[verifier::type_invariant]
    spec fn is_float(self) -> bool {
        json_of(self.value) is Number && json_of(self.value)->Number_0 is Float
    }
}

impl View for JsonFloat {
    type V = Seq<char>;

    closed spec fn view(&self) -> Seq<char> {
        json_of(self.value)->Number_0->Float_0
    }
}

impl View for JsonNumber {
    type V = NumberModel;

    open spec fn view(&self) -> NumberModel {
        match *self {
            JsonNumber::PosInt(n) => NumberModel::PosInt(n),
            JsonNumber::NegInt(n) => NumberModel::NegInt(n),
            JsonNumber::Float(t) => NumberModel::Float(t@),
        }
    }
}

impl View for Json {
    type V = JsonModel;

    open spec fn view(&self) -> JsonModel
        decreases self,
    {
        match *self {
            Json::Null => JsonModel::Null,
            Json::Bool(b) => JsonModel::Bool(b),
            Json::Number(n) => JsonModel::Number(n@),
            Json::Str(s) => JsonModel::Str(s@),
            Json::Array(items) => JsonModel::Array(
                Seq::new(
                    items@.len(),
                    |i: int|
                        if 0 <= i < items@.len() {
                            items@[i].view()
                        } else {
                            arbitrary()
                        },
                ),
            ),
            Json::Object(fields) => JsonModel::Object(
                Seq::new(
                    fields@.len(),
                    |i: int|
                        if 0 <= i < fields@.len() {
                            (fields@[i].0@, fields@[i].1.view())
                        } else {
                            arbitrary()
                        },
                ),
            ),
        }
    }
}

/// The documents that a vector holds.
pub open spec fn documents(v: Seq<Json>) -> Seq<JsonModel> {
    Seq::new(v.len(), |i: int| v[i]@)
}

/// The fields that a vector holds.
pub open spec fn fields_of(v: Seq<(String, Json)>) -> Seq<(Seq<char>, JsonModel)> {
    Seq::new(v.len(), |i: int| (v[i].0@, v[i].1@))
}

/// An array is its items.
pub proof fn lemma_array_view(v: Vec<Json>)
    ensures
        Json::Array(v)@ == JsonModel::Array(documents(v@)),
{
    reveal_with_fuel(<Json as View>::view, 2);
    assert(Json::Array(v)@->Array_0 =~= documents(v@));
}

/// An object is its fields.
pub proof fn lemma_object_view(v: Vec<(String, Json)>)
    ensures
        Json::Object(v)@ == JsonModel::Object(fields_of(v@)),
{
    reveal_with_fuel(<Json as View>::view, 2);
    assert(Json::Object(v)@->Object_0 =~= fields_of(v@));
}

// ---------------------------------------------------------------------------------------------
// Looking into a document

/// The index of the first field named `key`, or the number of fields.
pub open spec fn field_index(fields: Seq<(Seq<char>, JsonModel)>, key: Seq<char>) -> nat
    decreases fields.len(),
{
    if fields.len() == 0 || fields[0].0 == key {
        0
    } else {
        1 + field_index(fields.skip(1), key)
    }
}

impl JsonModel {
    /// What the field `key` holds: nothing if this is no object or has no such field.
    pub open spec fn get(self, key: Seq<char>) -> Option<JsonModel> {
        match self {
            JsonModel::Object(fields) => {
                let i = field_index(fields, key);
                if i < fields.len() {
                    Some(fields[i as int].1)
                } else {
                    None
                }
            },
            _ => None,
        }
    }

    /// The number, if this is a whole number from zero on.
    pub open spec fn as_u64(self) -> Option<u64> {
        match self {
            JsonModel::Number(NumberModel::PosInt(n)) => Some(n),
            _ => None,
        }
    }

    /// The number, if this is a whole number that a signed 64-bit integer can hold.
    pub open spec fn as_i64(self) -> Option<i64> {
        match self {
            JsonModel::Number(NumberModel::PosInt(n)) => if n <= i64::MAX {
                Some(n as i64)
            } else {
                None
            },
            JsonModel::Number(NumberModel::NegInt(n)) => Some(n),
            _ => None,
        }
    }

    /// The text, if this is a text.
    pub open spec fn as_str(self) -> Option<Seq<char>> {
        match self {
            JsonModel::Str(s) => Some(s),
            _ => None,
        }
    }
}

/// The document of a field, as an optional view.
pub open spec fn view_of(v: Option<&Json>) -> Option<JsonModel> {
    match v {
        Some(j) => Some(j@),
        None => None,
    }
}

/// A whole number as a JSON number.
pub open spec fn whole(i: int) -> JsonModel {
    if i < 0 {
        JsonModel::Number(NumberModel::NegInt(i as i64))
    } else {
        JsonModel::Number(NumberModel::PosInt(i as u64))
    }
}

/// The first index at which a field of that name stands.
pub proof fn lemma_field_index(fields: Seq<(Seq<char>, JsonModel)>, key: Seq<char>, k: nat)
    requires
        k <= fields.len(),
        forall|i: int| 0 <= i < k ==> (#[trigger] fields[i]).0 != key,
        k < fields.len() ==> fields[k as int].0 == key,
    ensures
        field_index(fields, key) == k,
    decreases k,
{
    if k > 0 {
        assert(fields[0].0 != key);
        let rest = fields.skip(1);
        assert forall|i: int| 0 <= i < k - 1 implies (#[trigger] rest[i]).0 != key by {
            assert(rest[i] == fields[i + 1]);
        }
        lemma_field_index(rest, key, (k - 1) as nat);
    }
}

/// The index of the first field of a name, or the number of fields.
pub fn find_field(fields: &Vec<(String, Json)>, key: &str) -> (r: usize)
    ensures
        r == field_index(fields_of(fields@), key@),
        r <= fields@.len(),
{
    let mut i: usize = 0;
    while i < fields.len()
        invariant
            i <= fields@.len(),
            forall|j: int| 0 <= j < i ==> (#[trigger] fields_of(fields@)[j]).0 != key@,
        decreases fields@.len() - i,
    {
        if text::same(fields[i].0.as_str(), key) {
            proof {
                lemma_field_index(fields_of(fields@), key@, i as nat);
            }
            return i;
        }
        i += 1;
    }
    proof {
        lemma_field_index(fields_of(fields@), key@, i as nat);
    }
    i
}

impl Json {
    /// What the field `key` holds, if this is an object with such a field.
    pub fn get(&self, key: &str) -> (r: Option<&Json>)
        ensures
            view_of(r) == self@.get(key@),
    {
        match self {
            Json::Object(fields) => {
                proof {
                    lemma_object_view(*fields);
                }
                let i = find_field(fields, key);
                if i < fields.len() {
                    Some(&fields[i].1)
                } else {
                    None
                }
            },
            _ => None,
        }
    }

    /// The number, if this is a whole number from zero on.
    pub fn as_u64(&self) -> (r: Option<u64>)
        ensures
            r == self@.as_u64(),
    {
        match self {
            Json::Number(JsonNumber::PosInt(n)) => Some(*n),
            _ => None,
        }
    }

    /// The number, if this is a whole number that a signed 64-bit integer can hold.
    pub fn as_i64(&self) -> (r: Option<i64>)
        ensures
            r == self@.as_i64(),
    {
        match self {
            Json::Number(JsonNumber::PosInt(n)) => if *n <= i64::MAX as u64 {
                Some(*n as i64)
            } else {
                None
            },
            Json::Number(JsonNumber::NegInt(n)) => Some(*n),
            _ => None,
        }
    }

    /// The text, if this is a text.
    pub fn as_str(&self) -> (r: Option<&str>)
        ensures
            match r {
                Some(s) => self@.as_str() == Some(s@),
                None => self@.as_str() is None,
            },
    {
        match self {
            Json::Str(s) => Some(s.as_str()),
            _ => None,
        }
    }

    /// A whole number as a document.
    pub fn from_i64(i: i64) -> (r: Json)
        ensures
            r@ == whole(i as int),
    {
        if i < 0 {
            Json::Number(JsonNumber::NegInt(i))
        } else {
            Json::Number(JsonNumber::PosInt(i as u64))
        }
    }

    /// A text as a document.
    pub fn from_text(s: &str) -> (r: Json)
        ensures
            r@ == JsonModel::Str(s@),
    {
        Json::Str(text::copy_of(s))
    }
}

// ---------------------------------------------------------------------------------------------
// Reading

/// `serde_json::Value`: a JSON document as `serde_json` holds it.
#[verifier::external_type_specification]
#[verifier::external_body]
pub struct ExValue(serde_json::Value);

/// `serde_json::Error`: why `serde_json` could not read a document.
#[verifier::external_type_specification]
#[verifier::external_body]
pub struct ExJsonError(serde_json::Error);

/// `serde_json::Map`: the fields of an object as `serde_json` holds them.
#[verifier::external_type_specification]
#[verifier::external_body]
#[verifier::reject_recursive_types(K)]
#[verifier::reject_recursive_types(V)]
pub struct ExMap<K, V>(serde_json::Map<K, V>);

/// The fields that a `serde_json::Map` holds, in the order in which it hands them out.
pub uninterp spec fn map_fields(
    m: serde_json::Map<String, serde_json::Value>,
) -> Seq<(Seq<char>, JsonModel)>;

/// The document that a `serde_json::Value` holds. A number that is neither a `u64` nor an
/// `i64` is known by its text, and the fields of an object come in the order of its map.
pub uninterp spec fn json_of(v: serde_json::Value) -> JsonModel;

/// The document that `serde_json::from_slice` reads from bytes: none where it fails.
pub uninterp spec fn json_parsed(data: Seq<u8>) -> Option<JsonModel>;

/// A document as compact JSON, as `serde_json` writes it.
pub uninterp spec fn json_written(v: JsonModel) -> Seq<char>;

/// Whether fields come in the order of their names, each name once.
pub open spec fn names_ascend(fields: Seq<(Seq<char>, JsonModel)>) -> bool {
    forall|i: int, j: int|
        0 <= i < j < fields.len() ==> order::text_less(
            (#[trigger] fields[i]).0,
            (#[trigger] fields[j]).0,
        )
}

/// Fields in the order of their names, with one put where it belongs. It takes the place of one
/// with the same name.
pub open spec fn with_entry(
    fields: Seq<(Seq<char>, JsonModel)>,
    field: (Seq<char>, JsonModel),
) -> Seq<(Seq<char>, JsonModel)>
    decreases fields.len(),
{
    if fields.len() == 0 || order::text_less(fields.last().0, field.0) {
        fields.push(field)
    } else if fields.last().0 == field.0 {
        fields.drop_last().push(field)
    } else {
        with_entry(fields.drop_last(), field).push(fields.last())
    }
}

/// Fields as a map keeps them: in the order of their names, of those with the same name the last.
pub open spec fn map_of(fields: Seq<(Seq<char>, JsonModel)>) -> Seq<(Seq<char>, JsonModel)>
    decreases fields.len(),
{
    if fields.len() == 0 {
        seq![]
    } else {
        with_entry(map_of(fields.drop_last()), fields.last())
    }
}

/// A number as JSON.
pub open spec fn number_text(n: NumberModel) -> Seq<char> {
    match n {
        NumberModel::PosInt(n) => text::decimal(n as nat),
        NumberModel::NegInt(n) => text::signed_decimal(n as int),
        NumberModel::Float(t) => t,
    }
}

/// The JSON of a null, a truth value and a number.
pub open spec fn plain_text(v: JsonModel) -> Option<Seq<char>> {
    match v {
        JsonModel::Null => Some("null"@),
        JsonModel::Bool(b) => Some(
            if b {
                "true"@
            } else {
                "false"@
            },
        ),
        JsonModel::Number(n) => Some(number_text(n)),
        _ => None,
    }
}

/// The outermost layer of a `serde_json::Value`.
pub enum Layer {
    Null,
    Bool(bool),
    /// The value itself, which is a number.
    Number(serde_json::Value),
    Str(String),
    Array(Vec<serde_json::Value>),
    Object(Vec<(String, serde_json::Value)>),
}

/// The documents that values hold.
pub open spec fn values_of(v: Seq<serde_json::Value>) -> Seq<JsonModel> {
    Seq::new(v.len(), |i: int| json_of(v[i]))
}

/// The fields that named values hold.
pub open spec fn value_fields_of(v: Seq<(String, serde_json::Value)>) -> Seq<
    (Seq<char>, JsonModel),
> {
    Seq::new(v.len(), |i: int| (v[i].0@, json_of(v[i].1)))
}

/// What the outermost layer of a document says of the document.
pub open spec fn layer_of(layer: Layer, v: JsonModel) -> bool {
    match layer {
        Layer::Null => v == JsonModel::Null,
        Layer::Bool(b) => v == JsonModel::Bool(b),
        Layer::Number(n) => v is Number && json_of(n) == v,
        Layer::Str(s) => v == JsonModel::Str(s@),
        Layer::Array(items) => v == JsonModel::Array(values_of(items@)),
        Layer::Object(fields) => v == JsonModel::Object(value_fields_of(fields@)) && names_ascend(
            value_fields_of(fields@),
        ),
    }
}

/// `serde_json::from_slice` reads a whole document from bytes. Of what the bytes must look
/// like, and which document they then hold, nothing is stated but that both depend on the
/// bytes alone.
#[verifier::external_body]
fn parse_value(data: &[u8]) -> (r: Result<serde_json::Value, serde_json::Error>)
    ensures
        match r {
            Ok(v) => json_parsed(data@) == Some(json_of(v)),
            Err(_) => json_parsed(data@) is None,
        },
{
    serde_json::from_slice::<serde_json::Value>(data)
}

/// The variants of `serde_json::Value`: what a value holds is what its variant holds. The
/// fields of an object come in the order in which `serde_json::Map` hands them out, which is that
/// of their names, each name once.
#[verifier::external_body]
fn open_value(v: serde_json::Value) -> (layer: Layer)
    ensures
        layer_of(layer, json_of(v)),
{
    match v {
        serde_json::Value::Null => Layer::Null,
        serde_json::Value::Bool(b) => Layer::Bool(b),
        serde_json::Value::Number(n) => Layer::Number(serde_json::Value::Number(n)),
        serde_json::Value::String(s) => Layer::Str(s),
        serde_json::Value::Array(items) => Layer::Array(items),
        serde_json::Value::Object(fields) => Layer::Object(fields.into_iter().collect()),
    }
}

/// `serde_json::Value::as_u64` gives the number of a value that holds a whole number from
/// zero on, and nothing otherwise.
#[verifier::external_body]
fn value_as_u64(v: &serde_json::Value) -> (r: Option<u64>)
    ensures
        r == json_of(*v).as_u64(),
{
    v.as_u64()
}

/// `serde_json::Value::as_i64` gives the number of a value that holds a whole number within
/// the range of `i64`, and nothing otherwise. A number from zero on is held as such.
#[verifier::external_body]
fn value_as_i64(v: &serde_json::Value) -> (r: Option<i64>)
    ensures
        r == json_of(*v).as_i64(),
        r matches Some(n) ==> json_of(*v) == whole(n as int),
{
    v.as_i64()
}

/// `serde_json::Value::default` is a null value.
#[verifier::external_body]
fn null_value() -> (v: serde_json::Value)
    ensures
        json_of(v) == JsonModel::Null,
{
    serde_json::Value::default()
}

/// `serde_json::Value::from` makes a truth value a value that holds it.
#[verifier::external_body]
fn bool_value(b: bool) -> (v: serde_json::Value)
    ensures
        json_of(v) == JsonModel::Bool(b),
{
    serde_json::Value::from(b)
}

/// `serde_json::Value::from` makes an unsigned number a value that holds it.
#[verifier::external_body]
fn unsigned_value(n: u64) -> (v: serde_json::Value)
    ensures
        json_of(v) == whole(n as int),
{
    serde_json::Value::from(n)
}

/// `serde_json::Value::from` makes a signed number a value that holds it.
#[verifier::external_body]
fn signed_value(n: i64) -> (v: serde_json::Value)
    ensures
        json_of(v) == whole(n as int),
{
    serde_json::Value::from(n)
}

/// `serde_json::Value::from` makes a text a value that holds it.
#[verifier::external_body]
fn text_value(s: &str) -> (v: serde_json::Value)
    ensures
        json_of(v) == JsonModel::Str(s@),
{
    serde_json::Value::from(s)
}

/// `serde_json::Value::from` makes values an array of them, in their order.
#[verifier::external_body]
fn array_value(items: Vec<serde_json::Value>) -> (v: serde_json::Value)
    ensures
        json_of(v) == JsonModel::Array(values_of(items@)),
{
    serde_json::Value::from(items)
}

/// `serde_json::Map::new` makes a map without fields.
#[verifier::external_body]
fn new_map() -> (m: serde_json::Map<String, serde_json::Value>)
    ensures
        map_fields(m) == Seq::<(Seq<char>, JsonModel)>::empty(),
{
    serde_json::Map::new()
}

/// `serde_json::Map::insert` puts a field into a map, which keeps its fields in the order of their
/// names. Where a field of that name is there, it gets the new value.
#[verifier::external_body]
fn insert_field(
    m: &mut serde_json::Map<String, serde_json::Value>,
    key: String,
    value: serde_json::Value,
)
    ensures
        map_fields(*final(m)) == with_entry(map_fields(*old(m)), (key@, json_of(value))),
{
    m.insert(key, value);
}

/// `serde_json::Value::from` makes a map an object with its fields.
#[verifier::external_body]
fn map_value(m: serde_json::Map<String, serde_json::Value>) -> (v: serde_json::Value)
    ensures
        json_of(v) == JsonModel::Object(map_fields(m)),
{
    serde_json::Value::from(m)
}

/// Makes named values an object: its fields come in the order of their names, and of two with the
/// same name the later one stays.
fn object_value(fields: Vec<(String, serde_json::Value)>) -> (v: serde_json::Value)
    ensures
        json_of(v) == JsonModel::Object(map_of(value_fields_of(fields@))),
{
    let ghost all = fields@;
    let ghost models = value_fields_of(all);
    let mut m = new_map();
    for field in it: fields
        invariant
            it.seq() == all,
            models == value_fields_of(all),
            map_fields(m) == map_of(models.take(it.index())),
    {
        proof {
            let n = it.index();
            assert(models.take(n + 1).drop_last() =~= models.take(n));
            assert(models.take(n + 1).last() == (field.0@, json_of(field.1)));
        }
        let (key, value) = field;
        insert_field(&mut m, key, value);
    }
    assert(models.take(models.len() as int) =~= models);
    map_value(m)
}

/// `serde_json::Value::clone` gives a value that holds the same.
#[verifier::external_body]
fn copy_value(v: &serde_json::Value) -> (r: serde_json::Value)
    ensures
        json_of(r) == json_of(*v),
{
    v.clone()
}

/// `serde_json::Value::to_string` writes a value as compact JSON. A null, a truth value and a
/// number are written as their text; of what else it writes, nothing is stated but that it
/// depends on what the value holds alone.
#[verifier::external_body]
fn written(v: &serde_json::Value) -> (r: String)
    ensures
        r@ == json_written(json_of(*v)),
        plain_text(json_of(*v)) matches Some(t) ==> r@ == t,
{
    v.to_string()
}

fn number_of(v: serde_json::Value) -> (r: JsonNumber)
    requires
        json_of(v) is Number,
    ensures
        json_of(v) == JsonModel::Number(r@),
        ordered(JsonModel::Number(r@)),
{
    match value_as_u64(&v) {
        Some(n) => JsonNumber::PosInt(n),
        None => match value_as_i64(&v) {
            Some(n) => JsonNumber::NegInt(n),
            None => JsonNumber::Float(JsonFloat { value: v }),
        },
    }
}

impl Json {
    /// The document that a `serde_json::Value` holds.
    pub fn from_value(v: serde_json::Value) -> (r: Json)
        ensures
            r@ == json_of(v),
            ordered(r@),
        decreases json_of(v),
    {
        let ghost model = json_of(v);
        match open_value(v) {
            Layer::Null => Json::Null,
            Layer::Bool(b) => Json::Bool(b),
            Layer::Number(n) => Json::Number(number_of(n)),
            Layer::Str(s) => Json::Str(s),
            Layer::Array(items) => {
                let ghost all = items@;
                let mut out: Vec<Json> = Vec::new();
                for item in it: items
                    invariant
                        it.seq() == all,
                        model == json_of(v),
                        model == JsonModel::Array(values_of(all)),
                        out@.len() == it.index(),
                        forall|i: int| 0 <= i < out@.len() ==> (#[trigger] out@[i])@ == json_of(all[i]),
                        ordered_items(documents(out@)),
                {
                    assert(json_of(item) == values_of(all)[it.index()]);
                    assert(decreases_to!(model => model->Array_0));
                    assert(decreases_to!(model->Array_0 => model->Array_0[it.index()]));
                    let ghost before = documents(out@);
                    let document = Json::from_value(item);
                    let ghost added = document@;
                    out.push(document);
                    assert(documents(out@) =~= before.push(added));
                    assert(documents(out@).drop_last() =~= before);
                }
                proof {
                    lemma_array_view(out);
                    assert(documents(out@) =~= values_of(all));
                }
                Json::Array(out)
            },
            Layer::Object(fields) => {
                let ghost all = fields@;
                let mut out: Vec<(String, Json)> = Vec::new();
                for field in it: fields
                    invariant
                        it.seq() == all,
                        model == json_of(v),
                        model == JsonModel::Object(value_fields_of(all)),
                        ordered_fields(fields_of(out@)),
                        out@.len() == it.index(),
                        forall|i: int|
                            0 <= i < out@.len() ==> (#[trigger] out@[i]).0@ == all[i].0@ && out@[i].1@
                                == json_of(all[i].1),
                {
                    assert(json_of(field.1) == value_fields_of(all)[it.index()].1);
                    assert(decreases_to!(model => model->Object_0));
                    assert(decreases_to!(model->Object_0 => model->Object_0[it.index()]));
                    assert(decreases_to!(model->Object_0[it.index()] => model->Object_0[it.index()].1));
                    let (name, value) = field;
                    let ghost before = fields_of(out@);
                    let ghost key = name@;
                    let document = Json::from_value(value);
                    let ghost added = document@;
                    out.push((name, document));
                    assert(fields_of(out@) =~= before.push((key, added)));
                    assert(fields_of(out@).drop_last() =~= before);
                }
                proof {
                    lemma_object_view(out);
                    assert(fields_of(out@) =~= value_fields_of(all));
                }
                Json::Object(out)
            },
        }
    }

    /// Reads a document from bytes.
    pub fn parse(data: &[u8]) -> (r: Result<Json, serde_json::Error>)
        ensures
            match r {
                Ok(j) => json_parsed(data@) == Some(j@) && ordered(j@),
                Err(_) => json_parsed(data@) is None,
            },
    {
        match parse_value(data) {
            Ok(v) => Ok(Json::from_value(v)),
            Err(e) => Err(e),
        }
    }
}

// ---------------------------------------------------------------------------------------------
// Writing

/// Whether a document is as `serde_json` holds one: the fields of each object come in the order of
/// their names, each name once, and only a number below zero is held as one.
pub open spec fn ordered(v: JsonModel) -> bool
    decreases v,
{
    match v {
        JsonModel::Number(NumberModel::NegInt(n)) => n < 0,
        JsonModel::Array(items) => ordered_items(items),
        JsonModel::Object(fields) => names_ascend(fields) && ordered_fields(fields),
        _ => true,
    }
}

/// Whether all items of an array are ordered.
pub open spec fn ordered_items(items: Seq<JsonModel>) -> bool
    decreases items,
{
    items.len() == 0 || (ordered_items(items.drop_last()) && ordered(items[items.len() - 1]))
}

/// Whether the values of all fields of an object are ordered.
pub open spec fn ordered_fields(fields: Seq<(Seq<char>, JsonModel)>) -> bool
    decreases fields,
{
    fields.len() == 0 || (ordered_fields(fields.drop_last()) && ordered(fields[fields.len() - 1].1))
}

/// A document as `serde_json` holds it.
pub open spec fn stored(v: JsonModel) -> JsonModel
    decreases v,
{
    match v {
        JsonModel::Number(NumberModel::NegInt(n)) => whole(n as int),
        JsonModel::Array(items) => JsonModel::Array(stored_items(items)),
        JsonModel::Object(fields) => JsonModel::Object(map_of(stored_fields(fields))),
        other => other,
    }
}

/// The items of an array as `serde_json` holds them.
pub open spec fn stored_items(items: Seq<JsonModel>) -> Seq<JsonModel>
    decreases items,
{
    if items.len() == 0 {
        seq![]
    } else {
        stored_items(items.drop_last()).push(stored(items[items.len() - 1]))
    }
}

/// The fields of an object with their values as `serde_json` holds them.
pub open spec fn stored_fields(fields: Seq<(Seq<char>, JsonModel)>) -> Seq<(Seq<char>, JsonModel)>
    decreases fields,
{
    if fields.len() == 0 {
        seq![]
    } else {
        stored_fields(fields.drop_last()).push(
            (fields[fields.len() - 1].0, stored(fields[fields.len() - 1].1)),
        )
    }
}

/// A document as compact JSON.
pub open spec fn json_text(v: JsonModel) -> Seq<char> {
    match plain_text(v) {
        Some(t) => t,
        None => json_written(stored(v)),
    }
}

/// Names ascend if each comes before the next.
pub proof fn lemma_names_ascend(fields: Seq<(Seq<char>, JsonModel)>)
    requires
        forall|i: int|
            0 <= i < fields.len() - 1 ==> order::text_less((#[trigger] fields[i]).0, fields[i + 1].0),
    ensures
        names_ascend(fields),
    decreases fields.len(),
{
    if fields.len() > 1 {
        let head = fields.drop_last();
        let n = fields.len() - 1;
        assert forall|i: int| 0 <= i < head.len() - 1 implies order::text_less(
            (#[trigger] head[i]).0,
            head[i + 1].0,
        ) by {
            assert(order::text_less(fields[i].0, fields[i + 1].0));
        }
        lemma_names_ascend(head);
        assert forall|i: int, j: int| 0 <= i < j < fields.len() implies order::text_less(
            (#[trigger] fields[i]).0,
            (#[trigger] fields[j]).0,
        ) by {
            if j < n {
                assert(order::text_less(head[i].0, head[j].0));
            } else {
                assert(order::text_less(fields[n - 1].0, fields[n - 1 + 1].0));
                if i < n - 1 {
                    assert(order::text_less(head[i].0, head[n - 1].0));
                    order::lemma_text_transitive(fields[i].0, fields[n - 1].0, fields[n].0);
                }
            }
        }
    }
}

/// Items are ordered if each of them is.
pub proof fn lemma_ordered_items(items: Seq<JsonModel>)
    ensures
        ordered_items(items) <==> forall|i: int| 0 <= i < items.len() ==> ordered(#[trigger] items[i]),
    decreases items.len(),
{
    if items.len() > 0 {
        let head = items.drop_last();
        lemma_ordered_items(head);
        if ordered_items(items) {
            assert forall|i: int| 0 <= i < items.len() implies ordered(#[trigger] items[i]) by {
                if i < head.len() {
                    assert(ordered(head[i]));
                }
            }
        } else if ordered(items[items.len() - 1]) {
            let i = choose|i: int| 0 <= i < head.len() && !ordered(#[trigger] head[i]);
            assert(!ordered(items[i]));
        }
    }
}

/// The values of fields are ordered if each of them is.
pub proof fn lemma_ordered_fields(fields: Seq<(Seq<char>, JsonModel)>)
    ensures
        ordered_fields(fields) <==> forall|i: int|
            0 <= i < fields.len() ==> ordered((#[trigger] fields[i]).1),
    decreases fields.len(),
{
    if fields.len() > 0 {
        let head = fields.drop_last();
        lemma_ordered_fields(head);
        if ordered_fields(fields) {
            assert forall|i: int| 0 <= i < fields.len() implies ordered((#[trigger] fields[i]).1) by {
                if i < head.len() {
                    assert(ordered(head[i].1));
                }
            }
        } else if ordered(fields[fields.len() - 1].1) {
            let i = choose|i: int| 0 <= i < head.len() && !ordered((#[trigger] head[i]).1);
            assert(!ordered(fields[i].1));
        }
    }
}

/// Fields in the order of their names are kept by a map as they are.
proof fn lemma_map_of_ascending(fields: Seq<(Seq<char>, JsonModel)>)
    requires
        names_ascend(fields),
    ensures
        map_of(fields) == fields,
    decreases fields.len(),
{
    if fields.len() > 0 {
        let head = fields.drop_last();
        assert(names_ascend(head)) by {
            assert forall|i: int, j: int| 0 <= i < j < head.len() implies order::text_less(
                (#[trigger] head[i]).0,
                (#[trigger] head[j]).0,
            ) by {
                assert(order::text_less(fields[i].0, fields[j].0));
            }
        }
        lemma_map_of_ascending(head);
        if head.len() > 0 {
            let n = fields.len() - 1;
            assert(order::text_less(fields[n - 1].0, fields[n].0));
        }
        assert(fields =~= head.push(fields.last()));
    } else {
        assert(map_of(fields) =~= fields);
    }
}

/// What is read is written as it is: a document as `serde_json` holds one is held so again.
pub proof fn law_ordered_documents_are_kept(v: JsonModel)
    requires
        ordered(v),
    ensures
        stored(v) == v,
    decreases v,
{
    match v {
        JsonModel::Array(items) => {
            lemma_ordered_items_are_kept(items);
        },
        JsonModel::Object(fields) => {
            lemma_ordered_fields_are_kept(fields);
            lemma_map_of_ascending(fields);
        },
        _ => {},
    }
}

proof fn lemma_ordered_items_are_kept(items: Seq<JsonModel>)
    requires
        ordered_items(items),
    ensures
        stored_items(items) == items,
    decreases items,
{
    if items.len() > 0 {
        lemma_ordered_items_are_kept(items.drop_last());
        law_ordered_documents_are_kept(items[items.len() - 1]);
    }
    assert(stored_items(items) =~= items);
}

proof fn lemma_ordered_fields_are_kept(fields: Seq<(Seq<char>, JsonModel)>)
    requires
        ordered_fields(fields),
    ensures
        stored_fields(fields) == fields,
    decreases fields,
{
    if fields.len() > 0 {
        lemma_ordered_fields_are_kept(fields.drop_last());
        law_ordered_documents_are_kept(fields[fields.len() - 1].1);
    }
    assert(stored_fields(fields) =~= fields);
}

impl JsonFloat {
    /// The number that a `serde_json::Value` holds, if it is not held as a whole number.
    pub fn from_value(v: serde_json::Value) -> (r: Option<JsonFloat>)
        ensures
            match r {
                Some(f) => json_of(v) == JsonModel::Number(NumberModel::Float(f@)),
                None => !(json_of(v) matches JsonModel::Number(NumberModel::Float(_))),
            },
    {
        match open_value(v) {
            Layer::Number(n) => match number_of(n) {
                JsonNumber::Float(f) => Some(f),
                _ => None,
            },
            _ => None,
        }
    }
}

impl JsonNumber {
    /// The number as `serde_json` holds it.
    pub fn to_value(&self) -> (r: serde_json::Value)
        ensures
            json_of(r) == stored(JsonModel::Number(self@)),
    {
        match self {
            JsonNumber::PosInt(n) => unsigned_value(*n),
            JsonNumber::NegInt(n) => signed_value(*n),
            JsonNumber::Float(f) => {
                proof {
                    use_type_invariant(f);
                }
                copy_value(&f.value)
            },
        }
    }

    /// The number as JSON.
    pub fn to_text(&self) -> (r: String)
        ensures
            r@ == number_text(self@),
    {
        written(&self.to_value())
    }
}

impl Json {
    /// The document as `serde_json` holds it.
    pub fn to_value(&self) -> (r: serde_json::Value)
        ensures
            json_of(r) == stored(self@),
        decreases self,
    {
        match self {
            Json::Null => null_value(),
            Json::Bool(b) => bool_value(*b),
            Json::Number(n) => n.to_value(),
            Json::Str(s) => text_value(s.as_str()),
            Json::Array(items) => {
                let ghost all = documents(items@);
                let mut out: Vec<serde_json::Value> = Vec::new();
                assert(values_of(out@) =~= stored_items(all.take(0)));
                for i in 0..items.len()
                    invariant
                        *self == Json::Array(*items),
                        all == documents(items@),
                        values_of(out@) == stored_items(all.take(i as int)),
                {
                    assert(decreases_to!(*self => self->Array_0));
                    assert(decreases_to!(*items => items@));
                    assert(decreases_to!(items@ => items@[i as int]));
                    let ghost before = values_of(out@);
                    out.push(items[i].to_value());
                    proof {
                        assert(all.take(i + 1).drop_last() == all.take(i as int));
                        assert(values_of(out@) =~= before.push(stored(items@[i as int]@)));
                    }
                }
                proof {
                    lemma_array_view(*items);
                    assert(all.take(all.len() as int) == all);
                }
                array_value(out)
            },
            Json::Object(fields) => {
                let ghost all = fields_of(fields@);
                let mut out: Vec<(String, serde_json::Value)> = Vec::new();
                assert(value_fields_of(out@) =~= stored_fields(all.take(0)));
                for i in 0..fields.len()
                    invariant
                        *self == Json::Object(*fields),
                        all == fields_of(fields@),
                        value_fields_of(out@) == stored_fields(all.take(i as int)),
                {
                    assert(decreases_to!(*self => self->Object_0));
                    assert(decreases_to!(*fields => fields@));
                    assert(decreases_to!(fields@ => fields@[i as int]));
                    assert(decreases_to!(fields@[i as int] => fields@[i as int].1));
                    let ghost before = value_fields_of(out@);
                    out.push((text::copy_of(fields[i].0.as_str()), fields[i].1.to_value()));
                    proof {
                        assert(all.take(i + 1).drop_last() == all.take(i as int));
                        assert(value_fields_of(out@) =~= before.push(
                            (fields@[i as int].0@, stored(fields@[i as int].1@)),
                        ));
                    }
                }
                proof {
                    lemma_object_view(*fields);
                    assert(all.take(all.len() as int) == all);
                }
                object_value(out)
            },
        }
    }

    /// The document as compact JSON.
    pub fn to_text(&self) -> (r: String)
        ensures
            r@ == json_text(self@),
    {
        written(&self.to_value())
    }
}

// ---------------------------------------------------------------------------------------------
// What looking into a document gives

/// The index of a field is the first at which a field of that name stands.
pub proof fn lemma_index_is_first(fields: Seq<(Seq<char>, JsonModel)>, key: Seq<char>)
    ensures
        field_index(fields, key) <= fields.len(),
        forall|i: int| 0 <= i < field_index(fields, key) ==> (#[trigger] fields[i]).0 != key,
        field_index(fields, key) < fields.len() ==> fields[field_index(fields, key) as int].0 == key,
    decreases fields.len(),
{
    if fields.len() > 0 && fields[0].0 != key {
        let rest = fields.skip(1);
        lemma_index_is_first(rest, key);
        assert forall|i: int| 0 <= i < field_index(fields, key) implies (#[trigger] fields[i]).0 != key by {
            if i > 0 {
                assert(rest[i - 1].0 != key);
            }
        }
    }
}

/// Looking up a name in an object finds what the first field of that name holds, and nothing if no
/// field has it.
pub proof fn law_lookup_finds_the_first_field(
    fields: Seq<(Seq<char>, JsonModel)>,
    key: Seq<char>,
    i: int,
)
    ensures
        JsonModel::Object(fields).get(key) is None <==> forall|j: int|
            0 <= j < fields.len() ==> (#[trigger] fields[j]).0 != key,
        0 <= i < fields.len() && fields[i].0 == key && (forall|j: int|
            0 <= j < i ==> (#[trigger] fields[j]).0 != key) ==> JsonModel::Object(fields).get(key) == Some(
            fields[i].1,
        ),
{
    lemma_index_is_first(fields, key);
    let k = field_index(fields, key) as int;
    if k < fields.len() {
        assert(fields[k].0 == key);
    }
    if 0 <= i < fields.len() && fields[i].0 == key && (forall|j: int|
        0 <= j < i ==> (#[trigger] fields[j]).0 != key) {
        lemma_field_index(fields, key, i as nat);
    }
}

/// Only objects have fields, and each reading of a value tells what the value is.
pub proof fn law_readings_tell_the_value(v: JsonModel, key: Seq<char>, n: u64, i: i64, s: Seq<char>)
    ensures
        !(v is Object) ==> v.get(key) is None,
        v.as_u64() == Some(n) <==> v == JsonModel::Number(NumberModel::PosInt(n)),
        v.as_i64() == Some(i) <==> v == JsonModel::Number(NumberModel::NegInt(i)) || (i >= 0 && v
            == JsonModel::Number(NumberModel::PosInt(i as u64))),
        v.as_str() == Some(s) <==> v == JsonModel::Str(s),
{
}

/// A whole number as a document is read back as that number.
pub proof fn law_whole_reads_back(i: int)
    ensures
        i64::MIN <= i <= i64::MAX ==> whole(i).as_i64() == Some(i as i64),
        0 <= i <= u64::MAX ==> whole(i).as_u64() == Some(i as u64),
        i64::MIN <= i < 0 ==> whole(i).as_u64() is None,
{
}

/// Putting a field into fields in the order of their names keeps the order. The field then holds the
/// new value, and the others hold what they held.
proof fn lemma_with_entry(
    fields: Seq<(Seq<char>, JsonModel)>,
    field: (Seq<char>, JsonModel),
)
    requires
        names_ascend(fields),
    ensures
        names_ascend(with_entry(fields, field)),
        with_entry(fields, field).contains(field),
        forall|x: (Seq<char>, JsonModel)| #[trigger]
            with_entry(fields, field).contains(x) <==> x == field || (x.0 != field.0 && fields.contains(x)),
    decreases fields.len(),
{
    let out = with_entry(fields, field);
    if fields.len() == 0 {
        assert(out[0] == field);
    } else {
        let n = fields.len() - 1;
        let head = fields.drop_last();
        let last = fields.last();
        assert(fields[n] == last);
        assert forall|i: int| 0 <= i < n implies order::text_less((#[trigger] head[i]).0, last.0) by {
            assert(order::text_less(fields[i].0, fields[n].0));
        }
        assert(names_ascend(head)) by {
            assert forall|i: int, j: int| 0 <= i < j < head.len() implies order::text_less(
                (#[trigger] head[i]).0,
                (#[trigger] head[j]).0,
            ) by {
                assert(order::text_less(fields[i].0, fields[j].0));
            }
        }
        if order::text_less(last.0, field.0) {
            assert(out[n + 1] == field);
            assert forall|i: int| 0 <= i <= n implies order::text_less((#[trigger] fields[i]).0, field.0) by {
                if i < n {
                    assert(order::text_less(head[i].0, last.0));
                    order::lemma_text_transitive(fields[i].0, last.0, field.0);
                }
            }
            assert forall|x: (Seq<char>, JsonModel)| #[trigger] out.contains(x) <==> x == field || (x.0
                != field.0 && fields.contains(x)) by {
                if out.contains(x) {
                    let i = out.index_of(x);
                    if i <= n {
                        assert(fields[i] == x);
                        order::lemma_text_asymmetric(x.0, field.0);
                        order::lemma_text_irreflexive(x.0);
                    }
                }
                if fields.contains(x) {
                    assert(out[fields.index_of(x)] == x);
                }
            }
        } else if last.0 == field.0 {
            assert(out[n] == field);
            assert forall|i: int, j: int| 0 <= i < j < out.len() implies order::text_less(
                (#[trigger] out[i]).0,
                (#[trigger] out[j]).0,
            ) by {
                assert(order::text_less(fields[i].0, fields[j].0));
            }
            assert forall|x: (Seq<char>, JsonModel)| #[trigger] out.contains(x) <==> x == field || (x.0
                != field.0 && fields.contains(x)) by {
                if out.contains(x) {
                    let i = out.index_of(x);
                    if i < n {
                        assert(head[i] == x && fields[i] == x);
                        assert(order::text_less(head[i].0, last.0));
                        order::lemma_text_irreflexive(x.0);
                    }
                }
                if fields.contains(x) && x.0 != field.0 {
                    let i = fields.index_of(x);
                    assert(i < n);
                    assert(out[i] == x);
                }
            }
        } else {
            lemma_with_entry(head, field);
            let rest = with_entry(head, field);
            order::lemma_text_total(last.0, field.0);
            assert(out =~= rest.push(last));
            assert(out[rest.index_of(field)] == field);
            assert forall|i: int| 0 <= i < rest.len() implies order::text_less((#[trigger] rest[i]).0, last.0) by {
                assert(rest.contains(rest[i]));
                if rest[i] != field {
                    let k = head.index_of(rest[i]);
                    assert(order::text_less(head[k].0, last.0));
                }
            }
            assert forall|x: (Seq<char>, JsonModel)| #[trigger] out.contains(x) <==> x == field || (x.0
                != field.0 && fields.contains(x)) by {
                if out.contains(x) {
                    let i = out.index_of(x);
                    if i < rest.len() {
                        assert(rest[i] == x);
                        assert(rest.contains(x));
                        if x != field {
                            assert(fields[head.index_of(x)] == x);
                        }
                    } else {
                        assert(fields[n] == x);
                    }
                }
                if x.0 != field.0 && fields.contains(x) {
                    let i = fields.index_of(x);
                    if i < n {
                        assert(head[i] == x);
                        assert(head.contains(x));
                        assert(rest.contains(x));
                        assert(out[rest.index_of(x)] == x);
                    } else {
                        assert(out[rest.len() as int] == x);
                    }
                }
            }
        }
    }
}

/// A map holds a field exactly if it is the last one of its name that was put in, and its fields come
/// in the order of their names, each name once.
pub proof fn law_map_keeps_the_last_of_each_name(fields: Seq<(Seq<char>, JsonModel)>)
    ensures
        names_ascend(map_of(fields)),
        forall|x: (Seq<char>, JsonModel)| #[trigger]
            map_of(fields).contains(x) <==> exists|i: int|
                0 <= i < fields.len() && #[trigger] fields[i] == x && forall|j: int|
                    i < j < fields.len() ==> (#[trigger] fields[j]).0 != x.0,
    decreases fields.len(),
{
    if fields.len() > 0 {
        let head = fields.drop_last();
        let last = fields.last();
        let n = fields.len() - 1;
        law_map_keeps_the_last_of_each_name(head);
        lemma_with_entry(map_of(head), last);
        assert forall|x: (Seq<char>, JsonModel)| #[trigger] map_of(fields).contains(x) implies exists|i: int|
            0 <= i < fields.len() && #[trigger] fields[i] == x && forall|j: int|
                i < j < fields.len() ==> (#[trigger] fields[j]).0 != x.0 by {
            if x == last {
                assert(fields[n] == x);
            } else {
                assert(map_of(head).contains(x));
                let i = choose|i: int|
                    0 <= i < head.len() && #[trigger] head[i] == x && forall|j: int|
                        i < j < head.len() ==> (#[trigger] head[j]).0 != x.0;
                assert(fields[i] == x);
                assert forall|j: int| i < j < fields.len() implies (#[trigger] fields[j]).0 != x.0 by {
                    if j < n {
                        assert(head[j].0 != x.0);
                    }
                }
            }
        }
        assert forall|x: (Seq<char>, JsonModel)|
            (exists|i: int|
                0 <= i < fields.len() && #[trigger] fields[i] == x && forall|j: int|
                    i < j < fields.len() ==> (#[trigger] fields[j]).0
                        != x.0) implies #[trigger] map_of(fields).contains(x) by {
            let i = choose|i: int|
                0 <= i < fields.len() && #[trigger] fields[i] == x && forall|j: int|
                    i < j < fields.len() ==> (#[trigger] fields[j]).0 != x.0;
            if i < n {
                assert(fields[n].0 != x.0);
                assert(head[i] == x);
                assert forall|j: int| i < j < head.len() implies (#[trigger] head[j]).0 != x.0 by {
                    assert(fields[j].0 != x.0);
                }
                assert(map_of(head).contains(x));
            }
        }
    }
}

/// Where the names of fields ascend, each field is found by its name.
pub proof fn lemma_found_by_name(fields: Seq<(Seq<char>, JsonModel)>, i: int)
    requires
        names_ascend(fields),
        0 <= i < fields.len(),
    ensures
        JsonModel::Object(fields).get(fields[i].0) == Some(fields[i].1),
{
    assert forall|j: int| 0 <= j < i implies (#[trigger] fields[j]).0 != fields[i].0 by {
        assert(order::text_less(fields[j].0, fields[i].0));
        order::lemma_text_irreflexive(fields[i].0);
    }
    law_lookup_finds_the_first_field(fields, fields[i].0, i);
}

/// Nulls, truth values and numbers are written as JSON has them, and whole numbers in decimal.
pub proof fn law_plain_values_are_written_plainly(b: bool, n: u64, i: i64, t: Seq<char>)
    ensures
        json_text(JsonModel::Null) == "null"@,
        b ==> json_text(JsonModel::Bool(b)) == "true"@,
        !b ==> json_text(JsonModel::Bool(b)) == "false"@,
        json_text(JsonModel::Number(NumberModel::PosInt(n))) == text::decimal(n as nat),
        i < 0 ==> json_text(JsonModel::Number(NumberModel::NegInt(i))) == seq!['-'] + text::decimal(
            (-i) as nat,
        ),
        i >= 0 ==> json_text(JsonModel::Number(NumberModel::NegInt(i))) == text::decimal(i as nat),
        json_text(JsonModel::Number(NumberModel::Float(t))) == t,
{
}

/// Texts, arrays and objects are written as `serde_json` writes what it holds of them.
pub proof fn law_other_values_are_written_as_held(v: JsonModel)
    requires
        v is Str || v is Array || v is Object,
    ensures
        json_text(v) == json_written(stored(v)),
{
}

proof fn lemma_stored_items(items: Seq<JsonModel>)
    ensures
        stored_items(items).len() == items.len(),
        forall|i: int| 0 <= i < items.len() ==> #[trigger] stored_items(items)[i] == stored(items[i]),
    decreases items.len(),
{
    if items.len() > 0 {
        let head = items.drop_last();
        lemma_stored_items(head);
        assert forall|i: int| 0 <= i < items.len() implies #[trigger] stored_items(items)[i] == stored(
            items[i],
        ) by {
            if i < head.len() {
                assert(stored_items(items)[i] == stored_items(head)[i]);
                assert(head[i] == items[i]);
            }
        }
    }
}

proof fn lemma_stored_fields(fields: Seq<(Seq<char>, JsonModel)>)
    ensures
        stored_fields(fields) == Seq::new(
            fields.len(),
            |i: int| (fields[i].0, stored(fields[i].1)),
        ),
    decreases fields.len(),
{
    if fields.len() > 0 {
        lemma_stored_fields(fields.drop_last());
    }
    assert(stored_fields(fields) =~= Seq::new(
        fields.len(),
        |i: int| (fields[i].0, stored(fields[i].1)),
    ));
}

/// What `serde_json` holds of an array are its items in their places, and of an object its fields as a
/// map keeps them. A number that is not below zero is held as one from zero on, and anything else as
/// it is.
pub proof fn law_documents_are_held_by_parts(
    v: JsonModel,
    items: Seq<JsonModel>,
    fields: Seq<(Seq<char>, JsonModel)>,
    n: i64,
)
    ensures
        stored(JsonModel::Array(items)) is Array,
        stored(JsonModel::Array(items))->Array_0.len() == items.len(),
        forall|i: int|
            0 <= i < items.len() ==> (#[trigger] stored(JsonModel::Array(items))->Array_0[i]) == stored(
                items[i],
            ),
        stored(JsonModel::Object(fields)) == JsonModel::Object(
            map_of(Seq::new(fields.len(), |i: int| (fields[i].0, stored(fields[i].1)))),
        ),
        n >= 0 ==> stored(JsonModel::Number(NumberModel::NegInt(n))) == JsonModel::Number(
            NumberModel::PosInt(n as u64),
        ),
        n < 0 ==> stored(JsonModel::Number(NumberModel::NegInt(n))) == JsonModel::Number(
            NumberModel::NegInt(n),
        ),
        v is Null || v is Bool || v is Str ==> stored(v) == v,
        v matches JsonModel::Number(m) ==> (m !is NegInt ==> stored(v) == v),
{
    lemma_stored_items(items);
    lemma_stored_fields(fields);
}

} // verus!
