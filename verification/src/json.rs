//! JSON values: the shape that the rest of the library reads, and the text
//! form that `serde_json` reads and writes.
use crate::text;
use vstd::prelude::*;
use vstd::string::*;

verus! {

/// A JSON value. Integers are plain; any other number is kept as `serde_json`
/// holds it. Where a key is repeated in an object, the last one counts.
#[derive(Debug)]
pub enum Json {
    Null,
    Bool(bool),
    Int(i64),
    UInt(u64),
    Float(serde_json::Number),
    Str(String),
    Array(Vec<Json>),
    Object(Vec<(String, Json)>),
}

/// What a JSON number says: an integer, or the text of a binary float.
#[verifier::ext_equal]
pub ghost enum NumberView {
    Integer(int),
    Float(Seq<char>),
}

/// What a JSON value says; an object is a map from keys to values.
#[verifier::ext_equal]
pub ghost enum JsonView {
    Null,
    Bool(bool),
    Number(NumberView),
    Str(Seq<char>),
    Array(Seq<JsonView>),
    Object(Map<Seq<char>, JsonView>),
}

/// `serde_json::Value`, opaque here.
#[verifier::external_type_specification]
#[verifier::external_body]
pub struct ExValue(serde_json::Value);

/// `serde_json::Number`, opaque here.
#[verifier::external_type_specification]
#[verifier::external_body]
pub struct ExNumber(serde_json::Number);

/// What a `serde_json::Value` holds.
pub uninterp spec fn value_content(v: serde_json::Value) -> JsonView;

/// What a `serde_json::Number` holds: an integer, or the text of a float.
pub uninterp spec fn number_content(n: serde_json::Number) -> NumberView;

/// What `serde_json::from_str` makes of a text: the value, or the message of
/// the error.
pub uninterp spec fn parsed(text: Seq<char>) -> Result<JsonView, Seq<char>>;

/// The compact text that `serde_json` writes for a value.
pub uninterp spec fn rendered(j: JsonView) -> Seq<char>;

/// The values of the items, in order.
pub open spec fn items_view(items: Seq<Json>) -> Seq<JsonView>
    decreases items,
{
    Seq::new(
        items.len(),
        |i: int|
            if 0 <= i < items.len() {
                json_view(items[i])
            } else {
                JsonView::Null
            },
    )
}

/// The map that the fields write, taken in order.
pub open spec fn fields_view(fields: Seq<(String, Json)>) -> Map<Seq<char>, JsonView>
    decreases fields,
{
    if fields.len() == 0 {
        Map::empty()
    } else {
        fields_view(fields.drop_last()).insert(fields.last().0@, json_view(fields.last().1))
    }
}

pub open spec fn json_view(j: Json) -> JsonView
    decreases j,
{
    match j {
        Json::Null => JsonView::Null,
        Json::Bool(b) => JsonView::Bool(b),
        Json::Int(i) => JsonView::Number(NumberView::Integer(i as int)),
        Json::UInt(u) => JsonView::Number(NumberView::Integer(u as int)),
        Json::Float(n) => JsonView::Number(number_content(n)),
        Json::Str(s) => JsonView::Str(s@),
        Json::Array(items) => JsonView::Array(items_view(items@)),
        Json::Object(fields) => JsonView::Object(fields_view(fields@)),
    }
}

impl View for Json {
    type V = JsonView;

    open spec fn view(&self) -> JsonView {
        json_view(*self)
    }
}

impl JsonView {
    /// The value under `key`, where this is an object that has the key.
    pub open spec fn field(self, key: Seq<char>) -> Option<JsonView> {
        match self {
            JsonView::Object(m) => if m.contains_key(key) {
                Some(m[key])
            } else {
                None
            },
            _ => None,
        }
    }

    /// The characters, where this is a string.
    pub open spec fn string(self) -> Option<Seq<char>> {
        match self {
            JsonView::Str(s) => Some(s),
            _ => None,
        }
    }

    /// The items, where this is an array.
    pub open spec fn items(self) -> Option<Seq<JsonView>> {
        match self {
            JsonView::Array(a) => Some(a),
            _ => None,
        }
    }

    /// The string under `key`.
    pub open spec fn string_field(self, key: Seq<char>) -> Option<Seq<char>> {
        match self.field(key) {
            Some(v) => v.string(),
            None => None,
        }
    }

    /// The array under `key`.
    pub open spec fn items_field(self, key: Seq<char>) -> Option<Seq<JsonView>> {
        match self.field(key) {
            Some(v) => v.items(),
            None => None,
        }
    }

    /// The value, where this is an integer that an `i64` holds.
    pub open spec fn int64(self) -> Option<i64> {
        match self {
            JsonView::Number(n) => n.int64(),
            _ => None,
        }
    }

    /// The value, where this is an integer that a `u64` holds.
    pub open spec fn uint64(self) -> Option<u64> {
        match self {
            JsonView::Number(n) => n.uint64(),
            _ => None,
        }
    }
}

impl NumberView {
    /// The value, where this is an integer that an `i64` holds.
    pub open spec fn int64(self) -> Option<i64> {
        match self {
            NumberView::Integer(i) => if i64::MIN <= i <= i64::MAX {
                Some(i as i64)
            } else {
                None
            },
            _ => None,
        }
    }

    /// The value, where this is an integer that a `u64` holds.
    pub open spec fn uint64(self) -> Option<u64> {
        match self {
            NumberView::Integer(i) => if 0 <= i <= u64::MAX {
                Some(i as u64)
            } else {
                None
            },
            _ => None,
        }
    }
}

/// `serde_json::from_str::<Value>` on a text. The text alone decides the value,
/// or the message that the error displays.
#[verifier::external_body]
fn value_from_str(text: &str) -> (r: Result<serde_json::Value, String>)
    ensures
        match r {
            Ok(v) => parsed(text@) == Ok::<JsonView, Seq<char>>(value_content(v)),
            Err(e) => parsed(text@) == Err::<JsonView, Seq<char>>(e@),
        },
{
    serde_json::from_str(text).map_err(|e: serde_json::Error| e.to_string())
}

/// A `serde_json::Value` taken apart by one level.
enum Opened {
    Null,
    Bool(bool),
    Number(serde_json::Number),
    Str(String),
    Array(Vec<serde_json::Value>),
    Object(Vec<(String, serde_json::Value)>),
}

/// What each of the values holds.
spec fn contents(values: Seq<serde_json::Value>) -> Seq<JsonView> {
    values.map_values(|v: serde_json::Value| value_content(v))
}

/// The map that the entries write, taken in order.
spec fn entries_content(entries: Seq<(String, serde_json::Value)>) -> Map<Seq<char>, JsonView>
    decreases entries.len(),
{
    if entries.len() == 0 {
        Map::empty()
    } else {
        entries_content(entries.drop_last()).insert(
            entries.last().0@,
            value_content(entries.last().1),
        )
    }
}

/// No key stands twice.
spec fn keys_are_distinct(entries: Seq<(String, serde_json::Value)>) -> bool {
    forall|i: int, j: int|
        0 <= i < j < entries.len() ==> (#[trigger] entries[i]).0@ != (#[trigger] entries[j]).0@
}

/// What a value holds, as its outermost level shows.
spec fn opened_content(o: Opened) -> JsonView {
    match o {
        Opened::Null => JsonView::Null,
        Opened::Bool(b) => JsonView::Bool(b),
        Opened::Number(n) => JsonView::Number(number_content(n)),
        Opened::Str(s) => JsonView::Str(s@),
        Opened::Array(a) => JsonView::Array(contents(a@)),
        Opened::Object(m) => JsonView::Object(entries_content(m@)),
    }
}

/// Takes a `serde_json::Value` apart by one level, variant for variant. A
/// `serde_json::Map` gives each of its keys once.
#[verifier::external_body]
fn open_value(v: serde_json::Value) -> (o: Opened)
    ensures
        opened_content(o) == value_content(v),
        o matches Opened::Object(entries) ==> keys_are_distinct(entries@),
{
    match v {
        serde_json::Value::Null => Opened::Null,
        serde_json::Value::Bool(b) => Opened::Bool(b),
        serde_json::Value::Number(n) => Opened::Number(n),
        serde_json::Value::String(s) => Opened::Str(s),
        serde_json::Value::Array(a) => Opened::Array(a),
        serde_json::Value::Object(m) => Opened::Object(m.into_iter().collect()),
    }
}

/// Builds a `serde_json::Value` out of one level, variant for variant. A
/// `serde_json::Map` that is collected from entries with different keys holds
/// each of them.
#[verifier::external_body]
fn close_value(o: Opened) -> (v: serde_json::Value)
    requires
        o matches Opened::Object(entries) ==> keys_are_distinct(entries@),
    ensures
        value_content(v) == opened_content(o),
{
    match o {
        Opened::Null => serde_json::Value::Null,
        Opened::Bool(b) => serde_json::Value::Bool(b),
        Opened::Number(n) => serde_json::Value::Number(n),
        Opened::Str(s) => serde_json::Value::String(s),
        Opened::Array(a) => serde_json::Value::Array(a),
        Opened::Object(m) => serde_json::Value::Object(m.into_iter().collect()),
    }
}

/// An entry whose key stands nowhere else is what the map has under its key.
proof fn entry_is_in_map(entries: Seq<(String, serde_json::Value)>, i: int)
    requires
        keys_are_distinct(entries),
        0 <= i < entries.len(),
    ensures
        entries_content(entries).dom().finite(),
        entries_content(entries).contains_key(entries[i].0@),
        entries_content(entries)[entries[i].0@] == value_content(entries[i].1),
    decreases entries.len(),
{
    entries_are_finite(entries);
    if i < entries.len() - 1 {
        let rest = entries.drop_last();
        assert(rest[i] == entries[i]);
        assert(keys_are_distinct(rest)) by {
            assert forall|a: int, b: int| 0 <= a < b < rest.len() implies (
            #[trigger] rest[a]).0@ != (#[trigger] rest[b]).0@ by {
                assert(rest[a] == entries[a] && rest[b] == entries[b]);
            }
        }
        entry_is_in_map(rest, i);
        assert(entries[i].0@ != entries[entries.len() - 1].0@);
    }
}

/// A value put in the place of an entry is what the map then has under its key.
proof fn overwritten_is_inserted(
    entries: Seq<(String, serde_json::Value)>,
    k: int,
    entry: (String, serde_json::Value),
)
    requires
        keys_are_distinct(entries),
        0 <= k < entries.len(),
        entries[k].0@ == entry.0@,
    ensures
        keys_are_distinct(entries.update(k, entry)),
        entries_content(entries.update(k, entry)) == entries_content(entries).insert(
            entry.0@,
            value_content(entry.1),
        ),
    decreases entries.len(),
{
    let now = entries.update(k, entry);
    let rest = entries.drop_last();
    assert forall|i: int, j: int| 0 <= i < j < now.len() implies (#[trigger] now[i]).0@ != (
    #[trigger] now[j]).0@ by {
        assert(entries[i].0@ != entries[j].0@);
    }
    if k == entries.len() - 1 {
        assert(now.drop_last() =~= rest);
        assert(entries_content(now) =~= entries_content(entries).insert(
            entry.0@,
            value_content(entry.1),
        ));
    } else {
        assert(keys_are_distinct(rest)) by {
            assert forall|i: int, j: int| 0 <= i < j < rest.len() implies (
            #[trigger] rest[i]).0@ != (#[trigger] rest[j]).0@ by {
                assert(rest[i] == entries[i] && rest[j] == entries[j]);
            }
        }
        overwritten_is_inserted(rest, k, entry);
        assert(now.drop_last() =~= rest.update(k, entry));
        assert(entries[k].0@ != entries[entries.len() - 1].0@);
        assert(entries_content(now) =~= entries_content(entries).insert(
            entry.0@,
            value_content(entry.1),
        ));
    }
}

/// Sets an entry; one that had its key before is overwritten.
fn set_entry(entries: &mut Vec<(String, serde_json::Value)>, key: String, value: serde_json::Value)
    requires
        keys_are_distinct(old(entries)@),
    ensures
        keys_are_distinct(final(entries)@),
        entries_content(final(entries)@) == entries_content(old(entries)@).insert(
            key@,
            value_content(value),
        ),
{
    let mut k: usize = 0;
    while k < entries.len()
        invariant
            k <= entries@.len(),
            entries@ == old(entries)@,
            keys_are_distinct(entries@),
            forall|j: int| 0 <= j < k ==> (#[trigger] entries@[j]).0@ != key@,
        decreases entries@.len() - k,
    {
        if text::same(entries[k].0.as_str(), key.as_str()) {
            proof {
                overwritten_is_inserted(entries@, k as int, (key, value));
            }
            entries.set(k, (key, value));
            return;
        }
        k += 1;
    }
    let ghost before = entries@;
    entries.push((key, value));
    assert(entries@.drop_last() =~= before);
}

proof fn entries_are_finite(entries: Seq<(String, serde_json::Value)>)
    ensures
        entries_content(entries).dom().finite(),
    decreases entries.len(),
{
    if entries.len() > 0 {
        entries_are_finite(entries.drop_last());
    }
}

/// Takes a number over: an integer plainly, any other number as it is.
fn read_number(n: serde_json::Number) -> (j: Json)
    ensures
        j@ == JsonView::Number(number_content(n)),
{
    if let Some(i) = number_as_i64(&n) {
        return Json::Int(i);
    }
    match number_as_u64(&n) {
        Some(u) => Json::UInt(u),
        None => Json::Float(n),
    }
}

/// Takes a `serde_json::Value` over, level by level.
fn read_value(v: serde_json::Value) -> (j: Json)
    ensures
        j@ == value_content(v),
    decreases value_content(v),
{
    let ghost content = value_content(v);
    match open_value(v) {
        Opened::Null => Json::Null,
        Opened::Bool(b) => Json::Bool(b),
        Opened::Number(n) => read_number(n),
        Opened::Str(s) => Json::Str(s),
        Opened::Array(values) => {
            let ghost all = values@;
            let mut out: Vec<Json> = Vec::new();
            for x in it: values
                invariant
                    it.seq() == all,
                    content == value_content(v),
                    content == JsonView::Array(contents(all)),
                    items_view(out@) == contents(all).take(it.index()),
            {
                let ghost k = it.index();
                let ghost before = out@;
                assert(contents(all)[k] == value_content(x));
                assert(decreases_to!(content => content->Array_0[k]));
                let item = read_value(x);
                out.push(item);
                assert(items_view(out@) =~= items_view(before).push(item@));
                assert(contents(all).take(k + 1) =~= contents(all).take(k).push(contents(all)[k]));
            }
            assert(contents(all).take(all.len() as int) =~= contents(all));
            Json::Array(out)
        },
        Opened::Object(entries) => {
            let ghost all = entries@;
            let mut out: Vec<(String, Json)> = Vec::new();
            for entry in it: entries
                invariant
                    it.seq() == all,
                    keys_are_distinct(all),
                    content == value_content(v),
                    content == JsonView::Object(entries_content(all)),
                    fields_view(out@) == entries_content(all.take(it.index())),
            {
                let ghost k = it.index();
                let ghost before = out@;
                proof {
                    entry_is_in_map(all, k);
                }
                assert(decreases_to!(content => content->Object_0[entry.0@]));
                let (key, x) = entry;
                let value = read_value(x);
                out.push((key, value));
                assert(out@.drop_last() =~= before);
                assert(all.take(k + 1).drop_last() =~= all.take(k));
            }
            assert(all.take(all.len() as int) =~= all);
            Json::Object(out)
        },
    }
}

/// Hands a value over to `serde_json`, level by level.
fn build_value(j: &Json) -> (v: serde_json::Value)
    ensures
        value_content(v) == j@,
    decreases j,
{
    let level = match j {
        Json::Null => Opened::Null,
        Json::Bool(b) => Opened::Bool(*b),
        Json::Int(i) => Opened::Number(number_from_i64(*i)),
        Json::UInt(u) => Opened::Number(number_from_u64(*u)),
        Json::Float(n) => Opened::Number(copy_number(n)),
        Json::Str(s) => Opened::Str(s.clone()),
        Json::Array(items) => {
            let mut out: Vec<serde_json::Value> = Vec::new();
            let mut i: usize = 0;
            while i < items.len()
                invariant
                    *j == Json::Array(*items),
                    i <= items@.len(),
                    out@.len() == i,
                    forall|k: int| 0 <= k < i ==> value_content(#[trigger] out@[k]) == items@[k]@,
                decreases items@.len() - i,
            {
                assert(decreases_to!(j => j->Array_0@[i as int]));
                out.push(build_value(&items[i]));
                i += 1;
            }
            assert(contents(out@) =~= items_view(items@));
            Opened::Array(out)
        },
        Json::Object(fields) => {
            let mut out: Vec<(String, serde_json::Value)> = Vec::new();
            let mut i: usize = 0;
            while i < fields.len()
                invariant
                    *j == Json::Object(*fields),
                    i <= fields@.len(),
                    keys_are_distinct(out@),
                    entries_content(out@) == fields_view(fields@.take(i as int)),
                decreases fields@.len() - i,
            {
                assert(decreases_to!(j => j->Object_0@[i as int].1));
                let value = build_value(&fields[i].1);
                set_entry(&mut out, fields[i].0.clone(), value);
                assert(fields@.take(i + 1).drop_last() =~= fields@.take(i as int));
                i += 1;
            }
            assert(fields@.take(i as int) =~= fields@);
            Opened::Object(out)
        },
    };
    close_value(level)
}

/// The `Display` of `serde_json::Value`: the compact text of what it holds. A
/// `serde_json::Map` keeps its keys sorted, so that text is settled by the
/// content.
#[verifier::external_body]
fn value_text(v: &serde_json::Value) -> (r: String)
    ensures
        r@ == rendered(value_content(*v)),
{
    v.to_string()
}

/// `serde_json::Number::as_i64`: the integer, where it is one that fits.
#[verifier::external_body]
fn number_as_i64(n: &serde_json::Number) -> (r: Option<i64>)
    ensures
        r == number_content(*n).int64(),
{
    n.as_i64()
}

/// `serde_json::Number::as_u64`: the integer, where it is one that fits.
#[verifier::external_body]
fn number_as_u64(n: &serde_json::Number) -> (r: Option<u64>)
    ensures
        r == number_content(*n).uint64(),
{
    n.as_u64()
}

/// `From<i64>` for `serde_json::Number`: that integer.
#[verifier::external_body]
fn number_from_i64(i: i64) -> (r: serde_json::Number)
    ensures
        number_content(r) == NumberView::Integer(i as int),
{
    serde_json::Number::from(i)
}

/// `From<u64>` for `serde_json::Number`: that integer.
#[verifier::external_body]
fn number_from_u64(u: u64) -> (r: serde_json::Number)
    ensures
        number_content(r) == NumberView::Integer(u as int),
{
    serde_json::Number::from(u)
}

/// `Clone` of `serde_json::Number` gives the same number.
#[verifier::external_body]
fn copy_number(n: &serde_json::Number) -> (r: serde_json::Number)
    ensures
        number_content(r) == number_content(*n),
{
    n.clone()
}

impl Json {
    /// Reads a JSON text; the error is the parser's own message.
    pub fn from_str(text: &str) -> (r: Result<Json, String>)
        ensures
            match r {
                Ok(j) => parsed(text@) == Ok::<JsonView, Seq<char>>(j@),
                Err(e) => parsed(text@) == Err::<JsonView, Seq<char>>(e@),
            },
    {
        match value_from_str(text) {
            Ok(v) => Ok(read_value(v)),
            Err(e) => Err(e),
        }
    }

    /// The value as `serde_json` holds it.
    pub fn to_value(&self) -> (v: serde_json::Value)
        ensures
            value_content(v) == self@,
    {
        build_value(self)
    }

    /// What a `serde_json` value holds.
    pub fn from_value(v: serde_json::Value) -> (j: Json)
        ensures
            j@ == value_content(v),
    {
        read_value(v)
    }

    /// The compact text of the value.
    pub fn to_text(&self) -> (r: String)
        ensures
            r@ == rendered(self@),
    {
        value_text(&build_value(self))
    }

    /// The value under `key`, where this is an object that has the key.
    pub fn get<'a>(&'a self, key: &str) -> (r: Option<&'a Json>)
        ensures
            match r {
                Some(j) => self@.field(key@) == Some(j@),
                None => self@.field(key@) is None,
            },
    {
        match self {
            Json::Object(fields) => {
                let mut n: usize = fields.len();
                assert(fields@.take(n as int) =~= fields@);
                while n > 0
                    invariant
                        n <= fields@.len(),
                        self@ == JsonView::Object(fields_view(fields@)),
                        fields_view(fields@).contains_key(key@) == fields_view(
                            fields@.take(n as int),
                        ).contains_key(key@),
                        fields_view(fields@.take(n as int)).contains_key(key@) ==> fields_view(
                            fields@,
                        )[key@] == fields_view(fields@.take(n as int))[key@],
                    decreases n,
                {
                    assert(fields@.take(n as int).drop_last() =~= fields@.take(n - 1));
                    if text::same(fields[n - 1].0.as_str(), key) {
                        return Some(&fields[n - 1].1);
                    }
                    n -= 1;
                }
                None
            },
            _ => None,
        }
    }

    pub fn as_str<'a>(&'a self) -> (r: Option<&'a str>)
        ensures
            match r {
                Some(s) => self@.string() == Some(s@),
                None => self@.string() is None,
            },
    {
        match self {
            Json::Str(s) => Some(s.as_str()),
            _ => None,
        }
    }

    pub fn as_i64(&self) -> (r: Option<i64>)
        ensures
            r == self@.int64(),
    {
        match self {
            Json::Int(i) => Some(*i),
            Json::UInt(u) => if *u <= i64::MAX as u64 {
                Some(*u as i64)
            } else {
                None
            },
            Json::Float(n) => number_as_i64(n),
            _ => None,
        }
    }

    pub fn as_u64(&self) -> (r: Option<u64>)
        ensures
            r == self@.uint64(),
    {
        match self {
            Json::Int(i) => if *i >= 0 {
                Some(*i as u64)
            } else {
                None
            },
            Json::UInt(u) => Some(*u),
            Json::Float(n) => number_as_u64(n),
            _ => None,
        }
    }

    pub fn as_array<'a>(&'a self) -> (r: Option<&'a Vec<Json>>)
        ensures
            match r {
                Some(a) => self@.items() == Some(items_view(a@)),
                None => self@.items() is None,
            },
    {
        match self {
            Json::Array(a) => Some(a),
            _ => None,
        }
    }

    pub fn is_number(&self) -> (r: bool)
        ensures
            r == (self@ is Number),
    {
        match self {
            Json::Int(_) => true,
            Json::UInt(_) => true,
            Json::Float(_) => true,
            _ => false,
        }
    }

    /// The string under `key`.
    pub fn get_str<'a>(&'a self, key: &str) -> (r: Option<&'a str>)
        ensures
            match r {
                Some(s) => self@.string_field(key@) == Some(s@),
                None => self@.string_field(key@) is None,
            },
    {
        match self.get(key) {
            Some(v) => v.as_str(),
            None => None,
        }
    }

    /// The array under `key`.
    pub fn get_array<'a>(&'a self, key: &str) -> (r: Option<&'a Vec<Json>>)
        ensures
            match r {
                Some(a) => self@.items_field(key@) == Some(items_view(a@)),
                None => self@.items_field(key@) is None,
            },
    {
        match self.get(key) {
            Some(v) => v.as_array(),
            None => None,
        }
    }

    /// A value that says the same.
    pub fn copy(&self) -> (r: Json)
        ensures
            r@ == self@,
        decreases self,
    {
        match self {
            Json::Null => Json::Null,
            Json::Bool(b) => Json::Bool(*b),
            Json::Int(i) => Json::Int(*i),
            Json::UInt(u) => Json::UInt(*u),
            Json::Float(n) => Json::Float(copy_number(n)),
            Json::Str(s) => Json::Str(s.clone()),
            Json::Array(items) => {
                let mut out: Vec<Json> = Vec::new();
                let mut i: usize = 0;
                while i < items.len()
                    invariant
                        *self == Json::Array(*items),
                        i <= items@.len(),
                        out@.len() == i,
                        forall|j: int| 0 <= j < i ==> (#[trigger] out@[j])@ == items@[j]@,
                    decreases items@.len() - i,
                {
                    assert(decreases_to!(self => self->Array_0@[i as int]));
                    let item = items[i].copy();
                    out.push(item);
                    i += 1;
                }
                assert(items_view(out@) =~= items_view(items@));
                Json::Array(out)
            },
            Json::Object(fields) => {
                let mut out: Vec<(String, Json)> = Vec::new();
                let mut i: usize = 0;
                while i < fields.len()
                    invariant
                        *self == Json::Object(*fields),
                        i <= fields@.len(),
                        fields_view(out@) == fields_view(fields@.take(i as int)),
                    decreases fields@.len() - i,
                {
                    assert(decreases_to!(self => self->Object_0@[i as int].1));
                    let value = fields[i].1.copy();
                    let ghost before = out@;
                    out.push((fields[i].0.clone(), value));
                    assert(out@.drop_last() =~= before);
                    assert(fields@.take(i + 1).drop_last() =~= fields@.take(i as int));
                    i += 1;
                }
                assert(fields@.take(i as int) =~= fields@);
                Json::Object(out)
            },
        }
    }
}

/// A JSON string.
pub fn string(s: &str) -> (j: Json)
    ensures
        j@ == JsonView::Str(s@),
{
    Json::Str(s.to_owned())
}

/// The map with one more field.
pub fn with_field(fields: Vec<(String, Json)>, key: &str, value: Json) -> (r: Vec<(String, Json)>)
    ensures
        fields_view(r@) == fields_view(fields@).insert(key@, value@),
{
    let mut out = fields;
    out.push((key.to_owned(), value));
    assert(out@.drop_last() =~= fields@);
    out
}

/// The list with one more item.
pub fn with_item(items: Vec<Json>, value: Json) -> (r: Vec<Json>)
    ensures
        items_view(r@) == items_view(items@).push(value@),
{
    let mut out = items;
    out.push(value);
    assert(items_view(out@) =~= items_view(items@).push(value@));
    out
}

/// The value that a JSON text writes; null where it is none.
pub open spec fn literal(text: Seq<char>) -> JsonView {
    match parsed(text) {
        Ok(v) => v,
        Err(_) => JsonView::Null,
    }
}

/// The value that a JSON text writes; null where it is none.
pub fn from_literal(text: &str) -> (j: Json)
    ensures
        j@ == literal(text@),
{
    match Json::from_str(text) {
        Ok(v) => v,
        Err(_) => Json::Null,
    }
}

// ---------------------------------------------------------------------------
// Laws of reading a value

/// A field of an object is what stands under its key; nothing else has fields.
pub proof fn fields_are_what_stands_under_their_key(
    fields: Map<Seq<char>, JsonView>,
    key: Seq<char>,
    v: JsonView,
)
    ensures
        JsonView::Object(fields.insert(key, v)).field(key) == Some(v),
        !fields.contains_key(key) ==> JsonView::Object(fields).field(key) is None,
        v is Str ==> JsonView::Object(fields.insert(key, v)).string_field(key) == Some(v->Str_0),
        !(v is Str) ==> JsonView::Object(fields.insert(key, v)).string_field(key) is None,
        v is Array ==> JsonView::Object(fields.insert(key, v)).items_field(key) == Some(
            v->Array_0,
        ),
        !(v is Array) ==> JsonView::Object(fields.insert(key, v)).items_field(key) is None,
        !(v is Object) ==> v.field(key) is None,
{
}

/// An integer is read as itself where it fits, and not at all where it does not.
pub proof fn integers_are_read_where_they_fit(n: int)
    ensures
        ({
            let v = JsonView::Number(NumberView::Integer(n));
            &&& v.int64() is Some <==> -0x8000_0000_0000_0000 <= n <= 0x7fff_ffff_ffff_ffff
            &&& v.int64() is Some ==> v.int64()->0 == n
            &&& v.uint64() is Some <==> 0 <= n <= 0xffff_ffff_ffff_ffff
            &&& v.uint64() is Some ==> v.uint64()->0 == n
        }),
{
}

/// The items of a list are its values in order; of fields with one key the last counts.
pub proof fn lists_and_maps_hold_what_was_put_in(
    items: Seq<Json>,
    item: Json,
    fields: Seq<(String, Json)>,
    field: (String, Json),
)
    ensures
        items_view(items.push(item)) == items_view(items).push(item@),
        items_view(items).len() == items.len(),
        fields_view(fields.push(field)).contains_key(field.0@),
        fields_view(fields.push(field))[field.0@] == field.1@,
        forall|k: Seq<char>|
            k != field.0@ ==> (#[trigger] fields_view(fields.push(field)).contains_key(k)
                <==> fields_view(fields).contains_key(k)),
{
    assert(items_view(items.push(item)) =~= items_view(items).push(item@));
    assert(fields.push(field).drop_last() =~= fields);
}

} // verus!
