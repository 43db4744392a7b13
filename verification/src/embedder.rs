//! Embedding: the request, the reading of a reply, and the pass over rows that
//! have no vector yet.
use crate::distiller;
use crate::distiller::HttpEvent;
use crate::json;
use crate::json::Json;
use crate::json::JsonView;
use crate::render;
use crate::text;
use vstd::prelude::*;
use vstd::string::*;

verus! {

/// Why an embedding failed.
#[derive(Debug, Clone)]
pub enum EmbedError {
    /// Configuration is missing or invalid.
    Config(String),
    /// A network failure, or 5xx, 408 or 429 from upstream.
    HttpTransient(String),
    /// Any other failure status: the same request would fail again.
    HttpClient(String),
    /// A reply that makes no sense, or vectors of the wrong size.
    Parse(String),
}

#[verifier::ext_equal]
pub ghost enum EmbedErrorView {
    Config(Seq<char>),
    HttpTransient(Seq<char>),
    HttpClient(Seq<char>),
    Parse(Seq<char>),
}

impl View for EmbedError {
    type V = EmbedErrorView;

    open spec fn view(&self) -> EmbedErrorView {
        match *self {
            EmbedError::Config(m) => EmbedErrorView::Config(m@),
            EmbedError::HttpTransient(m) => EmbedErrorView::HttpTransient(m@),
            EmbedError::HttpClient(m) => EmbedErrorView::HttpClient(m@),
            EmbedError::Parse(m) => EmbedErrorView::Parse(m@),
        }
    }
}

impl EmbedErrorView {
    /// The text that is shown for the error.
    pub open spec fn message(self) -> Seq<char> {
        match self {
            EmbedErrorView::Config(m) => "embed config error: "@ + m,
            EmbedErrorView::HttpTransient(m) => "embed http transient: "@ + m,
            EmbedErrorView::HttpClient(m) => "embed http client error: "@ + m,
            EmbedErrorView::Parse(m) => "embed parse error: "@ + m,
        }
    }
}

impl EmbedError {
    /// Whether trying again may help: only for a transient failure.
    pub fn is_retryable(&self) -> (r: bool)
        ensures
            r == (self@ is HttpTransient),
    {
        match self {
            EmbedError::HttpTransient(_) => true,
            _ => false,
        }
    }

    /// The text that is shown for the error.
    pub fn message(&self) -> (r: String)
        ensures
            r@ == self@.message(),
    {
        match self {
            EmbedError::Config(m) => "embed config error: ".to_owned().concat(m.as_str()),
            EmbedError::HttpTransient(m) => "embed http transient: ".to_owned().concat(m.as_str()),
            EmbedError::HttpClient(m) => "embed http client error: ".to_owned().concat(m.as_str()),
            EmbedError::Parse(m) => "embed parse error: ".to_owned().concat(m.as_str()),
        }
    }
}

// ---------------------------------------------------------------------------
// The endpoint

/// The length of a vector where nothing else is configured.
pub const DEFAULT_EMBED_DIMENSIONS: u64 = 1024;

/// The most texts in one request.
pub const EMBED_BATCH_SIZE: usize = 32;

/// Where and as whom embeddings are asked for.
#[derive(Debug, Clone, PartialEq, Eq)]
pub struct HttpEmbedder {
    pub base_url: String,
    pub api_key: String,
    pub model: String,
    pub dimensions: u64,
}

#[verifier::ext_equal]
pub ghost struct EmbedEndpointView {
    pub base_url: Seq<char>,
    pub api_key: Seq<char>,
    pub model: Seq<char>,
    pub dimensions: u64,
}

impl View for HttpEmbedder {
    type V = EmbedEndpointView;

    open spec fn view(&self) -> EmbedEndpointView {
        EmbedEndpointView {
            base_url: self.base_url@,
            api_key: self.api_key@,
            model: self.model@,
            dimensions: self.dimensions,
        }
    }
}

pub open spec fn endpoint_view(e: Option<HttpEmbedder>) -> Option<EmbedEndpointView> {
    match e {
        Some(x) => Some(x@),
        None => None,
    }
}

/// The dimensions that a variable sets; the default where it writes no number.
pub open spec fn env_dimensions(v: Option<Seq<char>>) -> u64 {
    match v {
        Some(s) => match text::natural_up_to(s, u64::MAX as nat) {
            Some(n) => n as u64,
            None => DEFAULT_EMBED_DIMENSIONS,
        },
        None => DEFAULT_EMBED_DIMENSIONS,
    }
}

/// The endpoint that the environment gives: three variables must be set and not
/// blank, the dimensions are optional.
pub open spec fn env_endpoint(
    base_url: Option<Seq<char>>,
    api_key: Option<Seq<char>>,
    model: Option<Seq<char>>,
    dimensions: Option<Seq<char>>,
) -> Option<EmbedEndpointView> {
    match (base_url, api_key, model) {
        (Some(b), Some(k), Some(m)) => if render::is_blank(b) || render::is_blank(k)
            || render::is_blank(m) {
            None
        } else {
            Some(
                EmbedEndpointView {
                    base_url: b,
                    api_key: k,
                    model: m,
                    dimensions: env_dimensions(dimensions),
                },
            )
        },
        _ => None,
    }
}

/// The endpoint that a credentials file's value gives.
pub open spec fn file_endpoint(v: JsonView) -> Option<EmbedEndpointView> {
    match (v.string_field("base_url"@), v.string_field("api_key"@), v.string_field("embed_model"@)) {
        (Some(b), Some(k), Some(m)) => if render::is_blank(b) || render::is_blank(k)
            || render::is_blank(m) {
            None
        } else {
            Some(
                EmbedEndpointView {
                    base_url: text::trimmed(b),
                    api_key: text::trimmed(k),
                    model: text::trimmed(m),
                    dimensions: match v.field("embed_dimensions"@) {
                        Some(d) => match d.uint64() {
                            Some(n) => n,
                            None => DEFAULT_EMBED_DIMENSIONS,
                        },
                        None => DEFAULT_EMBED_DIMENSIONS,
                    },
                },
            )
        },
        _ => None,
    }
}

/// The endpoint that the text of a credentials file gives.
pub open spec fn file_text_endpoint(body: Seq<char>) -> Option<EmbedEndpointView> {
    match json::parsed(body) {
        Ok(v) => file_endpoint(v),
        Err(_) => None,
    }
}

/// The environment comes before the credentials file.
pub open spec fn chosen(
    env: Option<EmbedEndpointView>,
    file_body: Option<Seq<char>>,
) -> Option<EmbedEndpointView> {
    match env {
        Some(e) => Some(e),
        None => match file_body {
            Some(body) => file_text_endpoint(body),
            None => None,
        },
    }
}

/// What the environment gives is taken whatever the file says; without it the file decides;
/// and a file that is no JSON gives nothing.
pub proof fn environment_comes_first(
    env: Option<EmbedEndpointView>,
    body: Seq<char>,
    fields: Map<Seq<char>, JsonView>,
)
    ensures
        env is Some ==> chosen(env, Some(body)) == env && chosen(env, None) == env,
        json::parsed(body) == Ok::<JsonView, Seq<char>>(JsonView::Object(fields)) ==> chosen(
            None,
            Some(body),
        ) == file_endpoint(JsonView::Object(fields)),
        json::parsed(body) is Err ==> chosen(None, Some(body)) is None,
        chosen(None, None) is None,
{
}

/// The texts as JSON strings.
pub open spec fn json_strings(texts: Seq<Seq<char>>) -> Seq<JsonView> {
    texts.map_values(|t: Seq<char>| JsonView::Str(t))
}

/// The body of an embedding request.
pub open spec fn request_body(model: Seq<char>, texts: Seq<Seq<char>>, dimensions: u64) -> JsonView {
    JsonView::Object(
        Map::empty().insert("model"@, JsonView::Str(model)).insert(
            "input"@,
            JsonView::Array(json_strings(texts)),
        ).insert(
            "dimensions"@,
            JsonView::Number(json::NumberView::Integer(dimensions as int)),
        ),
    )
}

impl HttpEmbedder {
    /// From the values of `OPENCRAB_DISTILLER_BASE_URL`,
    /// `OPENCRAB_DISTILLER_API_KEY`, `OPENCRAB_EMBED_MODEL` and
    /// `OPENCRAB_EMBED_DIMENSIONS`.
    pub fn from_env(
        base_url: Option<String>,
        api_key: Option<String>,
        model: Option<String>,
        dimensions: Option<&str>,
    ) -> (r: Option<HttpEmbedder>)
        ensures
            endpoint_view(r) == env_endpoint(
                text::opt_view(base_url),
                text::opt_view(api_key),
                text::opt_view(model),
                text::opt_str_view(dimensions),
            ),
    {
        match (base_url, api_key, model) {
            (Some(base_url), Some(api_key), Some(model)) => {
                if text::trim(base_url.as_str()).is_empty() || text::trim(
                    api_key.as_str(),
                ).is_empty() || text::trim(model.as_str()).is_empty() {
                    return None;
                }
                let dimensions = match dimensions {
                    Some(s) => match text::parse_natural(s, u64::MAX) {
                        Some(n) => n,
                        None => DEFAULT_EMBED_DIMENSIONS,
                    },
                    None => DEFAULT_EMBED_DIMENSIONS,
                };
                Some(HttpEmbedder { base_url, api_key, model, dimensions })
            },
            _ => None,
        }
    }

    /// From the value of a credentials file.
    pub fn from_file_value(v: &Json) -> (r: Option<HttpEmbedder>)
        ensures
            endpoint_view(r) == file_endpoint(v@),
    {
        match (v.get_str("base_url"), v.get_str("api_key"), v.get_str("embed_model")) {
            (Some(b), Some(k), Some(m)) => {
                let base_url = text::trim(b).to_owned();
                let api_key = text::trim(k).to_owned();
                let model = text::trim(m).to_owned();
                if base_url.as_str().is_empty() || api_key.as_str().is_empty()
                    || model.as_str().is_empty() {
                    return None;
                }
                let dimensions = match v.get("embed_dimensions") {
                    Some(d) => match d.as_u64() {
                        Some(n) => n,
                        None => DEFAULT_EMBED_DIMENSIONS,
                    },
                    None => DEFAULT_EMBED_DIMENSIONS,
                };
                Some(HttpEmbedder { base_url, api_key, model, dimensions })
            },
            _ => None,
        }
    }

    /// From the text of a credentials file.
    pub fn from_file(body: &str) -> (r: Option<HttpEmbedder>)
        ensures
            endpoint_view(r) == file_text_endpoint(body@),
    {
        match Json::from_str(body) {
            Ok(v) => HttpEmbedder::from_file_value(&v),
            Err(_) => None,
        }
    }

    /// The environment first, then the credentials file, where it was readable.
    pub fn load(
        base_url: Option<String>,
        api_key: Option<String>,
        model: Option<String>,
        dimensions: Option<&str>,
        file_body: Option<&str>,
    ) -> (r: Option<HttpEmbedder>)
        ensures
            endpoint_view(r) == chosen(
                env_endpoint(
                    text::opt_view(base_url),
                    text::opt_view(api_key),
                    text::opt_view(model),
                    text::opt_str_view(dimensions),
                ),
                text::opt_str_view(file_body),
            ),
            endpoint_view(r) == (match env_endpoint(
                text::opt_view(base_url),
                text::opt_view(api_key),
                text::opt_view(model),
                text::opt_str_view(dimensions),
            ) {
                Some(e) => Some(e),
                None => match file_body {
                    Some(body) => file_text_endpoint(body@),
                    None => None,
                },
            }),
    {
        match HttpEmbedder::from_env(base_url, api_key, model, dimensions) {
            Some(e) => Some(e),
            None => match file_body {
                Some(body) => HttpEmbedder::from_file(body),
                None => None,
            },
        }
    }

    /// The URL to post to. The base URL already names the API version.
    pub fn embeddings_url(&self) -> (r: String)
        ensures
            r@ == distiller::url_below(self.base_url@, "/embeddings"@),
            r@ == text::without_trailing(self.base_url@, '/') + "/embeddings"@,
    {
        text::trim_end_char(self.base_url.as_str(), '/').to_owned().concat("/embeddings")
    }

    /// The body of a request for these texts.
    pub fn build_request_body(&self, texts: &Vec<String>) -> (j: Json)
        ensures
            j@ == request_body(self.model@, text::views(texts@), self.dimensions),
    {
        let mut input: Vec<Json> = Vec::new();
        let ghost all = json_strings(text::views(texts@));
        let mut i: usize = 0;
        assert(json::items_view(input@) =~= all.take(0));
        while i < texts.len()
            invariant
                i <= texts@.len(),
                all == json_strings(text::views(texts@)),
                json::items_view(input@) == all.take(i as int),
            decreases texts@.len() - i,
        {
            let ghost before = json::items_view(input@);
            let item = json::string(texts[i].as_str());
            input.push(item);
            assert(json::items_view(input@) =~= before.push(item@));
            assert(all[i as int] == item@);
            assert(all.take(i + 1) =~= all.take(i as int).push(item@));
            i += 1;
        }
        assert(all.take(i as int) =~= all);
        let fields: Vec<(String, Json)> = Vec::new();
        let fields = json::with_field(fields, "model", json::string(self.model.as_str()));
        let fields = json::with_field(fields, "input", Json::Array(input));
        let fields = json::with_field(fields, "dimensions", Json::UInt(self.dimensions));
        Json::Object(fields)
    }
}

// ---------------------------------------------------------------------------
// Reading a reply

/// One item of a reply: its index, and the numbers of its vector.
pub type IndexedView = (u64, Seq<JsonView>);

/// The first element that is no number.
pub open spec fn first_non_number(items: Seq<JsonView>, from: int) -> Option<int>
    decreases items.len() - from,
{
    if from >= items.len() {
        None
    } else if !(items[from] is Number) {
        Some(from)
    } else {
        first_non_number(items, from + 1)
    }
}

/// What an item of a reply gives.
pub open spec fn indexed(item: JsonView, dim: nat) -> Result<IndexedView, EmbedErrorView> {
    let index = match item.field("index"@) {
        Some(v) => v.uint64(),
        None => None,
    };
    match index {
        None => Err(EmbedErrorView::Parse("missing index in: "@ + json::rendered(item))),
        Some(idx) => match item.items_field("embedding"@) {
            None => Err(EmbedErrorView::Parse("missing embedding in: "@ + json::rendered(item))),
            Some(numbers) => if numbers.len() != dim {
                Err(
                    EmbedErrorView::Parse(
                        "vector length "@ + text::decimal_text(numbers.len()) + " != expected_dim "@
                            + text::decimal_text(dim) + " (index="@ + text::decimal_text(idx as nat)
                            + ")"@,
                    ),
                )
            } else {
                match first_non_number(numbers, 0) {
                    Some(k) => Err(
                        EmbedErrorView::Parse(
                            "non-numeric embedding element: "@ + json::rendered(numbers[k]),
                        ),
                    ),
                    None => Ok((idx, numbers)),
                }
            },
        },
    }
}

/// What the items give, up to the first that is wrong.
pub open spec fn all_indexed(items: Seq<JsonView>, dim: nat) -> Result<
    Seq<IndexedView>,
    EmbedErrorView,
>
    decreases items.len(),
{
    if items.len() == 0 {
        Ok(Seq::empty())
    } else {
        match all_indexed(items.drop_last(), dim) {
            Err(e) => Err(e),
            Ok(before) => match indexed(items.last(), dim) {
                Err(e) => Err(e),
                Ok(x) => Ok(before.push(x)),
            },
        }
    }
}

/// How many of the leading items have a smaller index.
pub open spec fn place_of(sorted: Seq<IndexedView>, x: IndexedView) -> int
    decreases sorted.len(),
{
    if sorted.len() > 0 && sorted[0].0 < x.0 {
        1 + place_of(sorted.skip(1), x)
    } else {
        0
    }
}

/// The items ordered by index; equals keep their order.
pub open spec fn by_index(items: Seq<IndexedView>) -> Seq<IndexedView>
    decreases items.len(),
{
    if items.len() == 0 {
        Seq::empty()
    } else {
        let rest = by_index(items.skip(1));
        rest.insert(place_of(rest, items[0]), items[0])
    }
}

/// The first position whose item has another index.
pub open spec fn first_gap(sorted: Seq<IndexedView>, from: int) -> Option<int>
    decreases sorted.len() - from,
{
    if from >= sorted.len() {
        None
    } else if sorted[from].0 != from {
        Some(from)
    } else {
        first_gap(sorted, from + 1)
    }
}

/// The vectors that a reply holds for `count` texts, in the order of the texts.
pub open spec fn vectors_in(body: JsonView, count: nat, dim: nat) -> Result<
    Seq<Seq<JsonView>>,
    EmbedErrorView,
> {
    match body.items_field("data"@) {
        None => Err(EmbedErrorView::Parse("missing data[] in: "@ + json::rendered(body))),
        Some(items) => if items.len() != count {
            Err(
                EmbedErrorView::Parse(
                    "data length "@ + text::decimal_text(items.len()) + " != expected_count "@
                        + text::decimal_text(count),
                ),
            )
        } else {
            match all_indexed(items, dim) {
                Err(e) => Err(e),
                Ok(list) => {
                    let sorted = by_index(list);
                    match first_gap(sorted, 0) {
                        Some(i) => Err(
                            EmbedErrorView::Parse(
                                "non-contiguous indices: position "@ + text::decimal_text(i as nat)
                                    + " has data.index = "@ + text::decimal_text(
                                    sorted[i].0 as nat,
                                ),
                            ),
                        ),
                        None => Ok(sorted.map_values(|x: IndexedView| x.1)),
                    }
                },
            }
        },
    }
}

spec fn indexed_view(x: (u64, Vec<Json>)) -> IndexedView {
    (x.0, json::items_view(x.1@))
}

spec fn indexed_views(items: Seq<(u64, Vec<Json>)>) -> Seq<IndexedView> {
    items.map_values(|x: (u64, Vec<Json>)| indexed_view(x))
}

/// The vectors as what their numbers say.
pub open spec fn vector_views(vectors: Seq<Vec<Json>>) -> Seq<Seq<JsonView>> {
    vectors.map_values(|v: Vec<Json>| json::items_view(v@))
}

fn parse_error(m: String) -> (e: EmbedError)
    ensures
        e@ == EmbedErrorView::Parse(m@),
{
    EmbedError::Parse(m)
}

fn copy_numbers(numbers: &Vec<Json>) -> (r: Result<Vec<Json>, EmbedError>)
    ensures
        match r {
            Ok(v) => first_non_number(json::items_view(numbers@), 0) is None && json::items_view(v@)
                == json::items_view(numbers@),
            Err(e) => match first_non_number(json::items_view(numbers@), 0) {
                Some(k) => e@ == EmbedErrorView::Parse(
                    "non-numeric embedding element: "@ + json::rendered(
                        json::items_view(numbers@)[k],
                    ),
                ),
                None => false,
            },
        },
{
    let ghost all = json::items_view(numbers@);
    let mut out: Vec<Json> = Vec::new();
    let mut i: usize = 0;
    assert(json::items_view(out@) =~= all.take(0));
    while i < numbers.len()
        invariant
            i <= numbers@.len(),
            all == json::items_view(numbers@),
            json::items_view(out@) == all.take(i as int),
            first_non_number(all, 0) == first_non_number(all, i as int),
        decreases numbers@.len() - i,
    {
        let item = &numbers[i];
        assert(all[i as int] == item@);
        if !item.is_number() {
            return Err(
                parse_error(
                    "non-numeric embedding element: ".to_owned().concat(item.to_text().as_str()),
                ),
            );
        }
        let ghost before = json::items_view(out@);
        let copied = item.copy();
        out.push(copied);
        assert(json::items_view(out@) =~= before.push(copied@));
        assert(all.take(i + 1) =~= all.take(i as int).push(copied@));
        i += 1;
    }
    assert(all.take(i as int) =~= all);
    Ok(out)
}

fn read_indexed(item: &Json, dim: usize) -> (r: Result<(u64, Vec<Json>), EmbedError>)
    ensures
        match r {
            Ok(x) => indexed(item@, dim as nat) == Ok::<IndexedView, EmbedErrorView>(
                indexed_view(x),
            ),
            Err(e) => indexed(item@, dim as nat) == Err::<IndexedView, EmbedErrorView>(e@),
        },
{
    let index = match item.get("index") {
        Some(v) => v.as_u64(),
        None => None,
    };
    let idx: u64 = match index {
        Some(n) => n,
        None => return Err(
            parse_error("missing index in: ".to_owned().concat(item.to_text().as_str())),
        ),
    };
    let numbers = match item.get_array("embedding") {
        Some(a) => a,
        None => return Err(
            parse_error("missing embedding in: ".to_owned().concat(item.to_text().as_str())),
        ),
    };
    if numbers.len() != dim {
        return Err(
            parse_error(
                "vector length ".to_owned().concat(
                    text::u64_text(numbers.len() as u64).as_str(),
                ).concat(" != expected_dim ").concat(text::u64_text(dim as u64).as_str()).concat(
                    " (index=",
                ).concat(text::u64_text(idx).as_str()).concat(")"),
            ),
        );
    }
    match copy_numbers(numbers) {
        Ok(v) => Ok((idx, v)),
        Err(e) => Err(e),
    }
}

fn sort_by_index(items: Vec<(u64, Vec<Json>)>) -> (r: Vec<(u64, Vec<Json>)>)
    ensures
        indexed_views(r@) == by_index(indexed_views(items@)),
{
    let ghost all = indexed_views(items@);
    let ghost given = items@;
    let mut left = items;
    let mut sorted: Vec<(u64, Vec<Json>)> = Vec::new();
    assert(all.skip(all.len() as int) =~= Seq::empty());
    assert(indexed_views(sorted@) =~= Seq::empty());
    while left.len() > 0
        invariant
            all == indexed_views(given),
            left@.len() <= given.len(),
            left@ == given.take(left@.len() as int),
            indexed_views(sorted@) == by_index(all.skip(left@.len() as int)),
        decreases left@.len(),
    {
        let ghost n = left@.len() as int;
        let x = match left.pop() {
            Some(x) => x,
            None => return sorted,
        };
        let ghost before = indexed_views(sorted@);
        let mut p: usize = 0;
        assert(before.skip(0) =~= before);
        while p < sorted.len() && sorted[p].0 < x.0
            invariant
                p <= sorted@.len(),
                before == indexed_views(sorted@),
                place_of(before, indexed_view(x)) == p + place_of(
                    before.skip(p as int),
                    indexed_view(x),
                ),
            decreases sorted@.len() - p,
        {
            assert(before[p as int] == indexed_view(sorted@[p as int]));
            assert(before.skip(p as int).skip(1) =~= before.skip(p + 1));
            p += 1;
        }
        proof {
            if p < sorted@.len() {
                assert(before[p as int] == indexed_view(sorted@[p as int]));
            }
        }
        sorted.insert(p, x);
        proof {
            assert(indexed_views(sorted@) =~= before.insert(p as int, indexed_view(x)));
            assert(left@ =~= given.take(n - 1));
            let rest = all.skip(n - 1);
            assert(rest.skip(1) =~= all.skip(n));
            assert(rest[0] == indexed_view(x));
        }
    }
    assert(all.skip(0) =~= all);
    sorted
}

/// Reads the vectors out of a reply, one per text and in the order of the
/// texts. The numbers of a vector are kept as they stand.
pub fn parse_embeddings_response(
    body: &Json,
    expected_count: usize,
    expected_dim: usize,
) -> (r: Result<Vec<Vec<Json>>, EmbedError>)
    ensures
        match r {
            Ok(v) => vectors_in(body@, expected_count as nat, expected_dim as nat) == Ok::<
                Seq<Seq<JsonView>>,
                EmbedErrorView,
            >(vector_views(v@)),
            Err(e) => vectors_in(body@, expected_count as nat, expected_dim as nat) == Err::<
                Seq<Seq<JsonView>>,
                EmbedErrorView,
            >(e@),
        },
{
    let items = match body.get_array("data") {
        Some(a) => a,
        None => return Err(
            parse_error("missing data[] in: ".to_owned().concat(body.to_text().as_str())),
        ),
    };
    let ghost all = json::items_view(items@);
    if items.len() != expected_count {
        return Err(
            parse_error(
                "data length ".to_owned().concat(
                    text::u64_text(items.len() as u64).as_str(),
                ).concat(" != expected_count ").concat(
                    text::u64_text(expected_count as u64).as_str(),
                ),
            ),
        );
    }
    let mut pairs: Vec<(u64, Vec<Json>)> = Vec::new();
    let mut i: usize = 0;
    assert(all.take(0) =~= Seq::empty());
    assert(indexed_views(pairs@) =~= Seq::empty());
    while i < items.len()
        invariant
            i <= items@.len(),
            all == json::items_view(items@),
            items@.len() == expected_count,
            body@.items_field("data"@) == Some(all),
            all_indexed(all.take(i as int), expected_dim as nat) == Ok::<
                Seq<IndexedView>,
                EmbedErrorView,
            >(indexed_views(pairs@)),
        decreases items@.len() - i,
    {
        assert(all.take(i + 1).drop_last() =~= all.take(i as int));
        assert(all.take(i + 1).last() == items@[i as int]@);
        match read_indexed(&items[i], expected_dim) {
            Ok(x) => {
                let ghost before = indexed_views(pairs@);
                pairs.push(x);
                assert(indexed_views(pairs@) =~= before.push(indexed_view(x)));
            },
            Err(e) => {
                proof {
                    first_error_stays(all, expected_dim as nat, i + 1, e@);
                }
                return Err(e);
            },
        }
        i += 1;
    }
    assert(all.take(i as int) =~= all);
    let sorted = sort_by_index(pairs);
    let ghost order = indexed_views(sorted@);
    let mut k: usize = 0;
    while k < sorted.len()
        invariant
            k <= sorted@.len(),
            order == indexed_views(sorted@),
            first_gap(order, 0) == first_gap(order, k as int),
            vectors_in(body@, expected_count as nat, expected_dim as nat) == (match first_gap(
                order,
                0,
            ) {
                Some(i) => Err::<Seq<Seq<JsonView>>, EmbedErrorView>(
                    EmbedErrorView::Parse(
                        "non-contiguous indices: position "@ + text::decimal_text(i as nat)
                            + " has data.index = "@ + text::decimal_text(order[i].0 as nat),
                    ),
                ),
                None => Ok(order.map_values(|x: IndexedView| x.1)),
            }),
        decreases sorted@.len() - k,
    {
        assert(order[k as int] == indexed_view(sorted@[k as int]));
        if sorted[k].0 != k as u64 {
            return Err(
                parse_error(
                    "non-contiguous indices: position ".to_owned().concat(
                        text::u64_text(k as u64).as_str(),
                    ).concat(" has data.index = ").concat(text::u64_text(sorted[k].0).as_str()),
                ),
            );
        }
        k += 1;
    }
    let ghost wanted = order.map_values(|x: IndexedView| x.1);
    let mut left = sorted;
    let mut out: Vec<Vec<Json>> = Vec::new();
    let ghost n = left@.len();
    assert(wanted.take(0) =~= Seq::empty());
    assert(vector_views(out@) =~= Seq::empty());
    assert(order.skip(0) =~= order);
    while left.len() > 0
        invariant
            wanted == order.map_values(|x: IndexedView| x.1),
            order.len() == n,
            out@.len() + left@.len() == n,
            indexed_views(left@) == order.skip(out@.len() as int),
            vector_views(out@) == wanted.take(out@.len() as int),
        decreases left@.len(),
    {
        let ghost done = out@.len() as int;
        let ghost before = vector_views(out@);
        let ghost rest = indexed_views(left@);
        assert(rest[0] == order[done]);
        assert(rest[0] == indexed_view(left@[0]));
        let ghost old_left = left@;
        let (_, v) = left.remove(0);
        out.push(v);
        assert forall|j: int| 0 <= j < left@.len() implies indexed_views(left@)[j] == order.skip(
            done + 1,
        )[j] by {
            assert(left@[j] == old_left[j + 1]);
            assert(rest[j + 1] == indexed_view(old_left[j + 1]));
            assert(rest[j + 1] == order.skip(done)[j + 1]);
        }
        assert(indexed_views(left@) =~= order.skip(done + 1));
        assert(vector_views(out@) =~= before.push(json::items_view(v@)));
        assert(wanted.take(done + 1) =~= wanted.take(done).push(wanted[done]));
    }
    assert(wanted.take(n as int) =~= wanted);
    Ok(out)
}

/// An error on the way stays the answer, whatever follows.
proof fn first_error_stays(items: Seq<JsonView>, dim: nat, n: int, e: EmbedErrorView)
    requires
        0 <= n <= items.len(),
        all_indexed(items.take(n), dim) == Err::<Seq<IndexedView>, EmbedErrorView>(e),
    ensures
        all_indexed(items, dim) == Err::<Seq<IndexedView>, EmbedErrorView>(e),
    decreases items.len() - n,
{
    if n == items.len() {
        assert(items.take(n) =~= items);
    } else {
        assert(items.take(n + 1).drop_last() =~= items.take(n));
        first_error_stays(items, dim, n + 1, e);
    }
}

proof fn place_of_bounds(sorted: Seq<IndexedView>, x: IndexedView)
    ensures
        0 <= place_of(sorted, x) <= sorted.len(),
    decreases sorted.len(),
{
    if sorted.len() > 0 && sorted[0].0 < x.0 {
        place_of_bounds(sorted.skip(1), x);
    }
}

proof fn by_index_keeps_items(items: Seq<IndexedView>)
    ensures
        by_index(items).len() == items.len(),
        forall|i: int| 0 <= i < items.len() ==> by_index(items).contains(#[trigger] items[i]),
    decreases items.len(),
{
    if items.len() > 0 {
        let rest = by_index(items.skip(1));
        by_index_keeps_items(items.skip(1));
        place_of_bounds(rest, items[0]);
        let p = place_of(rest, items[0]);
        let all = by_index(items);
        assert(all == rest.insert(p, items[0]));
        assert forall|i: int| 0 <= i < items.len() implies all.contains(#[trigger] items[i]) by {
            if i == 0 {
                assert(all[p] == items[0]);
            } else {
                assert(items.skip(1)[i - 1] == items[i]);
                assert(rest.contains(items[i]));
                let j = choose|j: int| 0 <= j < rest.len() && rest[j] == items[i];
                if j < p {
                    assert(all[j] == items[i]);
                } else {
                    assert(all[j + 1] == items[i]);
                }
            }
        }
    }
}

proof fn no_gap_means_indexed(sorted: Seq<IndexedView>, from: int)
    requires
        0 <= from,
        first_gap(sorted, from) is None,
    ensures
        forall|i: int| from <= i < sorted.len() ==> (#[trigger] sorted[i]).0 == i,
    decreases sorted.len() - from,
{
    if from < sorted.len() {
        no_gap_means_indexed(sorted, from + 1);
    }
}

/// The vectors come back in the order of the texts, however the reply orders
/// them: there is one per text, each of the expected length, and the vector of
/// every item stands at the item's index.
pub proof fn vectors_follow_their_indices(
    body: JsonView,
    items: Seq<JsonView>,
    list: Seq<IndexedView>,
    count: nat,
    dim: nat,
)
    requires
        body.items_field("data"@) == Some(items),
        all_indexed(items, dim) == Ok::<Seq<IndexedView>, EmbedErrorView>(list),
        vectors_in(body, count, dim) is Ok,
    ensures
        vectors_in(body, count, dim)->Ok_0.len() == count,
        list.len() == count,
        forall|i: int|
            0 <= i < list.len() ==> {
                &&& (#[trigger] list[i]).0 < count
                &&& vectors_in(body, count, dim)->Ok_0[list[i].0 as int] == list[i].1
                &&& list[i].1.len() == dim
            },
{
    let sorted = by_index(list);
    by_index_keeps_items(list);
    no_gap_means_indexed(sorted, 0);
    indexed_items_fit(items, list, dim);
    let out = vectors_in(body, count, dim)->Ok_0;
    assert forall|i: int| 0 <= i < list.len() implies {
        &&& (#[trigger] list[i]).0 < count
        &&& out[list[i].0 as int] == list[i].1
        &&& list[i].1.len() == dim
    } by {
        assert(sorted.contains(list[i]));
        let j = choose|j: int| 0 <= j < sorted.len() && sorted[j] == list[i];
        assert(sorted[j].0 == j);
    }
}

proof fn indexed_items_fit(items: Seq<JsonView>, list: Seq<IndexedView>, dim: nat)
    requires
        all_indexed(items, dim) == Ok::<Seq<IndexedView>, EmbedErrorView>(list),
    ensures
        list.len() == items.len(),
        forall|i: int| 0 <= i < list.len() ==> (#[trigger] list[i]).1.len() == dim,
    decreases items.len(),
{
    if items.len() > 0 {
        let before = all_indexed(items.drop_last(), dim)->Ok_0;
        indexed_items_fit(items.drop_last(), before, dim);
        assert forall|i: int| 0 <= i < list.len() implies (#[trigger] list[i]).1.len() == dim by {
            if i < before.len() {
                assert(list[i] == before[i]);
            }
        }
    }
}

/// What an embedding call over HTTP gives: the vectors, or the error.
pub open spec fn embed_outcome(url: Seq<char>, event: HttpEvent, count: nat, dim: nat) -> Result<
    Seq<Seq<JsonView>>,
    EmbedErrorView,
> {
    match event {
        HttpEvent::SendFailed(e) => Err(EmbedErrorView::HttpTransient("send "@ + url + ": "@ + e@)),
        HttpEvent::Refused { code, shown, body } => {
            let message = "HTTP "@ + shown@ + ": "@ + body@;
            if distiller::is_transient_status(code) {
                Err(EmbedErrorView::HttpTransient(message))
            } else {
                Err(EmbedErrorView::HttpClient(message))
            }
        },
        HttpEvent::Undecodable(e) => Err(
            EmbedErrorView::Parse("decode embed response body: "@ + e@),
        ),
        HttpEvent::Answered(body) => vectors_in(body@, count, dim),
        HttpEvent::TimedOut => Err(
            EmbedErrorView::HttpTransient(
                "embed call timed out after "@ + text::decimal_text(
                    distiller::LLM_HTTP_TIMEOUT_SECS as nat,
                ) + "s (hard wall)"@,
            ),
        ),
    }
}

/// Settles an embedding call: the vectors, or the error that says whether
/// trying again may help.
pub fn settle_embed(
    url: &str,
    event: HttpEvent,
    expected_count: usize,
    expected_dim: usize,
) -> (r: Result<Vec<Vec<Json>>, EmbedError>)
    ensures
        match r {
            Ok(v) => embed_outcome(url@, event, expected_count as nat, expected_dim as nat) == Ok::<
                Seq<Seq<JsonView>>,
                EmbedErrorView,
            >(vector_views(v@)),
            Err(e) => embed_outcome(url@, event, expected_count as nat, expected_dim as nat)
                == Err::<Seq<Seq<JsonView>>, EmbedErrorView>(e@),
        },
{
    match event {
        HttpEvent::SendFailed(e) => Err(
            EmbedError::HttpTransient(
                "send ".to_owned().concat(url).concat(": ").concat(e.as_str()),
            ),
        ),
        HttpEvent::Refused { code, shown, body } => {
            let message = "HTTP ".to_owned().concat(shown.as_str()).concat(": ").concat(
                body.as_str(),
            );
            if distiller::transient_status(code) {
                Err(EmbedError::HttpTransient(message))
            } else {
                Err(EmbedError::HttpClient(message))
            }
        },
        HttpEvent::Undecodable(e) => Err(
            EmbedError::Parse("decode embed response body: ".to_owned().concat(e.as_str())),
        ),
        HttpEvent::Answered(body) => parse_embeddings_response(
            &body,
            expected_count,
            expected_dim,
        ),
        HttpEvent::TimedOut => Err(
            EmbedError::HttpTransient(
                "embed call timed out after ".to_owned().concat(
                    text::u64_text(distiller::LLM_HTTP_TIMEOUT_SECS).as_str(),
                ).concat("s (hard wall)"),
            ),
        ),
    }
}

// ---------------------------------------------------------------------------
// The pass over rows without a vector

/// The text that stands for a row: the summary, a blank line, the detail.
pub open spec fn embed_text(summary: Seq<char>, detail: Option<Seq<char>>) -> Seq<char> {
    summary + "\n\n"@ + (match detail {
        Some(d) => d,
        None => Seq::empty(),
    })
}

/// The text that stands for a row.
pub fn build_embed_text(summary: &str, detail: Option<&str>) -> (r: String)
    ensures
        r@ == embed_text(summary@, text::opt_str_view(detail)),
{
    let mut out = summary.to_owned().concat("\n\n");
    if let Some(d) = detail {
        out.append(d);
    }
    assert(out@ =~= embed_text(summary@, text::opt_str_view(detail)));
    out
}

/// A row of the log that has no vector yet.
#[derive(Debug, Clone)]
pub struct PendingRow {
    pub id: i64,
    pub summary: String,
    pub detail: Option<String>,
}

/// The rows of a batch that have something to embed, with their texts.
pub open spec fn usable(batch: Seq<PendingRow>) -> Seq<(i64, Seq<char>)>
    decreases batch.len(),
{
    if batch.len() == 0 {
        Seq::empty()
    } else {
        let before = usable(batch.drop_last());
        let row = batch.last();
        let t = embed_text(row.summary@, text::opt_view(row.detail));
        if render::is_blank(t) {
            before
        } else {
            before.push((row.id, t))
        }
    }
}

/// What a pass did.
#[derive(Debug, Clone, Copy, PartialEq, Eq, Structural)]
pub struct EmbedStats {
    pub rows_pending_seen: u64,
    pub rows_embedded: u64,
    pub batches: u64,
    pub errors: u64,
}

impl Default for EmbedStats {
    fn default() -> (r: EmbedStats)
        ensures
            r == no_stats(),
    {
        EmbedStats { rows_pending_seen: 0, rows_embedded: 0, batches: 0, errors: 0 }
    }
}

/// One pass over the rows that have no vector, batch by batch.
#[derive(Debug)]
pub struct EmbedPass {
    pub stats: EmbedStats,
    /// Only rows beyond this id are still to be fetched.
    pub min_id: i64,
    /// The rows that wait for their vectors.
    pub ids: Vec<i64>,
    /// The last row of the batch in work.
    pub batch_end: i64,
}

/// What is to be done next.
#[derive(Debug)]
pub enum EmbedAction {
    /// Fetch up to a batch of pending rows beyond `min_id` and hand them to
    /// `on_batch`.
    Fetch { min_id: i64 },
    /// Embed these texts and hand what came back to `on_vectors`.
    Embed { texts: Vec<String> },
    /// Store the vectors for these rows, all or none, then fetch on.
    Write { ids: Vec<i64> },
    /// The pass is over.
    Done,
}

#[verifier::ext_equal]
pub ghost enum EmbedActionView {
    Fetch { min_id: i64 },
    Embed { texts: Seq<Seq<char>> },
    Write { ids: Seq<i64> },
    Done,
}

impl View for EmbedAction {
    type V = EmbedActionView;

    open spec fn view(&self) -> EmbedActionView {
        match *self {
            EmbedAction::Fetch { min_id } => EmbedActionView::Fetch { min_id },
            EmbedAction::Embed { texts } => EmbedActionView::Embed { texts: text::views(texts@) },
            EmbedAction::Write { ids } => EmbedActionView::Write { ids: ids@ },
            EmbedAction::Done => EmbedActionView::Done,
        }
    }
}

/// Where a pass stands.
#[verifier::ext_equal]
pub ghost struct EmbedPassView {
    pub stats: EmbedStats,
    pub min_id: i64,
    pub ids: Seq<i64>,
    pub batch_end: i64,
}

impl View for EmbedPass {
    type V = EmbedPassView;

    open spec fn view(&self) -> EmbedPassView {
        EmbedPassView {
            stats: self.stats,
            min_id: self.min_id,
            ids: self.ids@,
            batch_end: self.batch_end,
        }
    }
}

/// The statistics of a pass that did nothing.
pub open spec fn no_stats() -> EmbedStats {
    EmbedStats { rows_pending_seen: 0, rows_embedded: 0, batches: 0, errors: 0 }
}

/// A pass after a batch of pending rows came in. An empty batch ends it. The
/// rows that have something to embed are handed out; where none has, the batch
/// is passed over.
pub open spec fn batched(p: EmbedPassView, batch: Seq<PendingRow>) -> (
    EmbedPassView,
    EmbedActionView,
) {
    if batch.len() == 0 {
        (p, EmbedActionView::Done)
    } else {
        let last = batch.last().id;
        let seen = EmbedPassView {
            stats: EmbedStats {
                rows_pending_seen: (p.stats.rows_pending_seen + batch.len()) as u64,
                ..p.stats
            },
            min_id: p.min_id,
            ids: usable(batch).map_values(|x: (i64, Seq<char>)| x.0),
            batch_end: last,
        };
        if usable(batch).len() == 0 {
            (EmbedPassView { min_id: last, ..seen }, EmbedActionView::Fetch { min_id: last })
        } else {
            (
                seen,
                EmbedActionView::Embed {
                    texts: usable(batch).map_values(|x: (i64, Seq<char>)| x.1),
                },
            )
        }
    }
}

/// A pass after the embedder answered with `got` vectors, or failed. One vector
/// per text is stored, and the batch is left behind; anything else ends the pass
/// with nothing stored.
pub open spec fn embedded(p: EmbedPassView, got: Option<nat>) -> (EmbedPassView, EmbedActionView) {
    if got == Some(p.ids.len()) {
        (
            EmbedPassView {
                stats: EmbedStats {
                    rows_embedded: (p.stats.rows_embedded + p.ids.len()) as u64,
                    batches: (p.stats.batches + 1) as u64,
                    ..p.stats
                },
                min_id: p.batch_end,
                ..p
            },
            EmbedActionView::Write { ids: p.ids },
        )
    } else {
        (
            EmbedPassView {
                stats: EmbedStats { errors: (p.stats.errors + 1) as u64, ..p.stats },
                ..p
            },
            EmbedActionView::Done,
        )
    }
}

/// How many vectors came back, where the call did not fail.
pub open spec fn vector_count(vectors: Result<usize, EmbedError>) -> Option<nat> {
    match vectors {
        Ok(n) => Some(n as nat),
        Err(_) => None,
    }
}

impl EmbedPass {
    /// The counters have room for a batch more.
    pub open spec fn has_room(self, n: int) -> bool {
        &&& self.stats.rows_pending_seen + n <= u64::MAX
        &&& self.stats.rows_embedded + n <= u64::MAX
        &&& self.stats.batches < u64::MAX
        &&& self.stats.errors < u64::MAX
    }

    /// A pass that has seen nothing yet.
    pub fn start() -> (r: EmbedPass)
        ensures
            r@ == (EmbedPassView {
                stats: no_stats(),
                min_id: 0,
                ids: Seq::empty(),
                batch_end: 0,
            }),
    {
        EmbedPass { stats: EmbedStats::default(), min_id: 0, ids: Vec::new(), batch_end: 0 }
    }

    /// Takes a batch of pending rows. An empty one ends the pass. A batch in
    /// which no row has anything to embed is passed over.
    pub fn on_batch(&mut self, batch: &Vec<PendingRow>) -> (a: EmbedAction)
        requires
            old(self).has_room(batch@.len() as int),
        ensures
            (final(self)@, a@) == batched(old(self)@, batch@),
    {
        if batch.len() == 0 {
            return EmbedAction::Done;
        }
        let n: u64 = batch.len() as u64;
        let last: i64 = batch[batch.len() - 1].id;
        let mut ids: Vec<i64> = Vec::new();
        let mut texts: Vec<String> = Vec::new();
        let mut i: usize = 0;
        assert(batch@.take(0) =~= Seq::empty());
        assert(ids@ =~= usable(batch@.take(0)).map_values(|x: (i64, Seq<char>)| x.0));
        assert(text::views(texts@) =~= usable(batch@.take(0)).map_values(
            |x: (i64, Seq<char>)| x.1,
        ));
        while i < batch.len()
            invariant
                i <= batch@.len(),
                ids@ == usable(batch@.take(i as int)).map_values(|x: (i64, Seq<char>)| x.0),
                text::views(texts@) == usable(batch@.take(i as int)).map_values(
                    |x: (i64, Seq<char>)| x.1,
                ),
            decreases batch@.len() - i,
        {
            assert(batch@.take(i + 1).drop_last() =~= batch@.take(i as int));
            let row = &batch[i];
            let detail = match &row.detail {
                Some(d) => Some(d.as_str()),
                None => None,
            };
            let t = build_embed_text(row.summary.as_str(), detail);
            if !text::trim(t.as_str()).is_empty() {
                let ghost before = usable(batch@.take(i as int));
                let ghost shown = text::views(texts@);
                ids.push(row.id);
                texts.push(t);
                proof {
                    let after = usable(batch@.take(i + 1));
                    assert(after == before.push((row.id, t@)));
                    assert(ids@ =~= after.map_values(|x: (i64, Seq<char>)| x.0));
                    assert(text::views(texts@) =~= shown.push(t@));
                    assert(text::views(texts@) =~= after.map_values(|x: (i64, Seq<char>)| x.1));
                }
            }
            i += 1;
        }
        assert(batch@.take(i as int) =~= batch@);
        assert(ids@.len() == usable(batch@).len());
        self.stats.rows_pending_seen = self.stats.rows_pending_seen + n;
        self.batch_end = last;
        let empty = ids.len() == 0;
        self.ids = ids;
        if empty {
            self.min_id = last;
            EmbedAction::Fetch { min_id: last }
        } else {
            EmbedAction::Embed { texts }
        }
    }

    /// Takes what the embedder gave for the batch: how many vectors, or that it
    /// failed. A failure, or another number of vectors than there were texts,
    /// ends the pass with nothing stored for the batch.
    pub fn on_vectors(&mut self, vectors: Result<usize, EmbedError>) -> (a: EmbedAction)
        requires
            old(self).has_room(old(self).ids@.len() as int),
        ensures
            (final(self)@, a@) == embedded(old(self)@, vector_count(vectors)),
    {
        match vectors {
            Ok(n) => {
                if n == self.ids.len() {
                    self.stats.rows_embedded = self.stats.rows_embedded + n as u64;
                    self.stats.batches = self.stats.batches + 1;
                    self.min_id = self.batch_end;
                    let mut ids: Vec<i64> = Vec::new();
                    let mut i: usize = 0;
                    while i < self.ids.len()
                        invariant
                            i <= self.ids@.len(),
                            ids@ == self.ids@.take(i as int),
                        decreases self.ids@.len() - i,
                    {
                        ids.push(self.ids[i]);
                        i += 1;
                        assert(ids@ =~= self.ids@.take(i as int));
                    }
                    assert(self.ids@.take(i as int) =~= self.ids@);
                    return EmbedAction::Write { ids };
                }
                self.stats.errors = self.stats.errors + 1;
                EmbedAction::Done
            },
            Err(_) => {
                self.stats.errors = self.stats.errors + 1;
                EmbedAction::Done
            },
        }
    }
}

/// Every batch is left behind: once its rows, which lie beyond the watermark,
/// are stored or passed over, the watermark lies beyond where it was. So the
/// pass ends, though rows without text stay pending.
pub proof fn every_batch_is_left_behind(
    p: EmbedPassView,
    batch: Seq<PendingRow>,
    got: Option<nat>,
)
    requires
        batch.len() > 0,
        forall|i: int| 0 <= i < batch.len() ==> (#[trigger] batch[i]).id > p.min_id,
    ensures
        ({
            let (q, a) = batched(p, batch);
            let (r, b) = embedded(q, got);
            &&& a is Fetch || a is Embed
            &&& a is Fetch ==> q.min_id > p.min_id && a == EmbedActionView::Fetch {
                min_id: q.min_id,
            }
            &&& a is Embed ==> b is Done || r.min_id > p.min_id
        }),
{
    assert(batch[batch.len() - 1].id > p.min_id);
}

/// A batch is stored whole or not at all: unless there is a vector for each of
/// its texts, nothing of it counts as embedded and the pass is over.
pub proof fn batches_are_stored_whole(
    p: EmbedPassView,
    batch: Seq<PendingRow>,
    got: Option<nat>,
)
    requires
        batched(p, batch).1 is Embed,
    ensures
        ({
            let (q, a) = batched(p, batch);
            let (r, b) = embedded(q, got);
            &&& q.ids.len() == a->texts.len()
            &&& got == Some(a->texts.len()) ==> b == EmbedActionView::Write { ids: q.ids }
            &&& got != Some(a->texts.len()) ==> {
                &&& b is Done
                &&& r.stats.rows_embedded == p.stats.rows_embedded
                &&& r.min_id == p.min_id
            }
        }),
{
}

/// Of a batch exactly the rows whose text is not blank are embedded.
pub proof fn rows_with_text_are_embedded(batch: Seq<PendingRow>, id: i64, t: Seq<char>)
    ensures
        usable(batch).contains((id, t)) <==> !render::is_blank(t) && exists|k: int|
            0 <= k < batch.len() && (#[trigger] batch[k]).id == id && embed_text(
                batch[k].summary@,
                text::opt_view(batch[k].detail),
            ) == t,
    decreases batch.len(),
{
    if batch.len() > 0 {
        let rest = batch.drop_last();
        let last = batch.len() - 1;
        let before = usable(rest);
        let all = usable(batch);
        rows_with_text_are_embedded(rest, id, t);
        if before.contains((id, t)) {
            let j = choose|j: int| 0 <= j < before.len() && before[j] == (id, t);
            assert(all[j] == (id, t));
            let k = choose|k: int|
                0 <= k < rest.len() && (#[trigger] rest[k]).id == id && embed_text(
                    rest[k].summary@,
                    text::opt_view(rest[k].detail),
                ) == t;
            assert(batch[k].id == id);
        } else if all.contains((id, t)) {
            let j = choose|j: int| 0 <= j < all.len() && all[j] == (id, t);
            if j < before.len() {
                assert(before[j] == (id, t));
            }
            assert(batch[last].id == id);
        } else if !render::is_blank(t) {
            assert forall|k: int|
                0 <= k < batch.len() && (#[trigger] batch[k]).id == id && embed_text(
                    batch[k].summary@,
                    text::opt_view(batch[k].detail),
                ) == t implies false by {
                if k < last {
                    assert(rest[k].id == id);
                } else {
                    assert(all[before.len() as int] == (id, t));
                }
            }
        }
    }
}

// ---------------------------------------------------------------------------
// Laws of what is asked for

/// What stands for a row is all that it says: its summary, a blank line, and its
/// detail where it has one, each character for character.
pub proof fn rows_are_embedded_whole(summary: Seq<char>, detail: Seq<char>)
    ensures
        text::begins(embed_text(summary, Some(detail)), summary),
        text::ends(embed_text(summary, Some(detail)), detail),
        embed_text(summary, Some(detail)).len() == summary.len() + 2 + detail.len(),
        embed_text(summary, Some(detail))[summary.len() as int] == '\n',
        embed_text(summary, Some(detail))[(summary.len() + 1) as int] == '\n',
        embed_text(summary, None) == summary + seq!['\n', '\n'],
{
    reveal_strlit("\n\n");
    assert("\n\n"@ =~= seq!['\n', '\n']);
    text::parts_stand_in_the_whole(summary + "\n\n"@, detail, Seq::empty());
    assert(summary + "\n\n"@ + detail =~= summary + ("\n\n"@ + detail));
    text::parts_stand_in_the_whole(Seq::empty(), summary, "\n\n"@ + detail);
    assert(embed_text(summary, None) =~= summary + seq!['\n', '\n']);
}

/// A request names the model and the length of the vectors, and holds the texts as
/// they are, all of them and in order.
pub proof fn requests_hold_all_texts(
    model: Seq<char>,
    texts: Seq<Seq<char>>,
    dimensions: u64,
    i: int,
)
    requires
        0 <= i < texts.len(),
    ensures
        ({
            let body = request_body(model, texts, dimensions);
            let input = body.items_field("input"@);
            &&& body.string_field("model"@) == Some(model)
            &&& body.field("dimensions"@) == Some(
                JsonView::Number(json::NumberView::Integer(dimensions as int)),
            )
            &&& input is Some
            &&& input->0.len() == texts.len()
            &&& input->0[i] == JsonView::Str(texts[i])
        }),
{
    reveal_strlit("model");
    reveal_strlit("input");
    reveal_strlit("dimensions");
    assert("model"@[0] == 'm' && "input"@[0] == 'i' && "dimensions"@[0] == 'd');
    let body = request_body(model, texts, dimensions);
    assert(body.field("input"@) == Some(JsonView::Array(json_strings(texts))));
    assert(body.field("model"@) == Some(JsonView::Str(model)));
}

/// The dimensions are what the variable says, where it writes a number, and 1024
/// where it does not or is not set.
pub proof fn dimensions_are_what_is_set(n: u64, s: Seq<char>)
    ensures
        env_dimensions(Some(text::decimal_text(n as nat))) == n,
        text::natural_of(s) is None ==> env_dimensions(Some(s)) == 1024,
        env_dimensions(None) == 1024,
{
    text::naturals_read_back(n as nat);
}

/// The environment gives an endpoint exactly where all three variables say
/// something, and each is taken as it is.
pub proof fn environment_is_taken_as_it_is(
    base_url: Seq<char>,
    api_key: Seq<char>,
    model: Seq<char>,
    dimensions: Option<Seq<char>>,
)
    ensures
        env_endpoint(Some(base_url), Some(api_key), Some(model), dimensions) == (
        if text::is_white(base_url) || text::is_white(model) || text::is_white(api_key) {
            None
        } else {
            Some(
                EmbedEndpointView {
                    base_url,
                    api_key,
                    model,
                    dimensions: env_dimensions(dimensions),
                },
            )
        }),
        env_endpoint(None, Some(api_key), Some(model), dimensions) is None,
        env_endpoint(Some(base_url), None, Some(model), dimensions) is None,
        env_endpoint(Some(base_url), Some(api_key), None, dimensions) is None,
{
    render::blank_is_all_white(base_url);
    render::blank_is_all_white(model);
    render::blank_is_all_white(api_key);
}

/// A credentials file gives the endpoint that its fields name, each without the
/// white space about it; the dimensions are 1024 unless it says another number.
pub proof fn file_names_the_endpoint(fields: Map<Seq<char>, JsonView>, n: u64)
    ensures
        ({
            let says = |key: Seq<char>|
                fields.contains_key(key) && fields[key] is Str && !text::is_white(
                    fields[key]->Str_0,
                );
            let e = file_endpoint(JsonView::Object(fields));
            &&& e is Some <==> says("base_url"@) && says("embed_model"@) && says("api_key"@)
            &&& e is Some ==> {
                &&& e->0.base_url == text::trimmed(fields["base_url"@]->Str_0)
                &&& e->0.model == text::trimmed(fields["embed_model"@]->Str_0)
                &&& e->0.api_key == text::trimmed(fields["api_key"@]->Str_0)
                &&& !fields.contains_key("embed_dimensions"@) ==> e->0.dimensions == 1024
                &&& fields.contains_key("embed_dimensions"@) && fields["embed_dimensions"@]
                    == JsonView::Number(json::NumberView::Integer(n as int)) ==> e->0.dimensions
                    == n
            }
        }),
{
    render::blank_is_all_white(fields["base_url"@]->Str_0);
    render::blank_is_all_white(fields["embed_model"@]->Str_0);
    render::blank_is_all_white(fields["api_key"@]->Str_0);
}

// ---------------------------------------------------------------------------
// Laws of what comes back

/// An embedding call that ends without an answer fails so that the caller knows
/// whether to try again: failed sends, time-outs and the statuses 408, 429 and 5xx
/// may pass, any other status will not.
pub proof fn embed_failures_are_told_apart(
    url: Seq<char>,
    event: HttpEvent,
    count: nat,
    dim: nat,
)
    ensures
        ({
            let r = embed_outcome(url, event, count, dim);
            match event {
                HttpEvent::SendFailed(why) => r is Err && r->Err_0 is HttpTransient && text::ends(
                    r->Err_0->HttpTransient_0,
                    why@,
                ),
                HttpEvent::TimedOut => r is Err && r->Err_0 is HttpTransient,
                HttpEvent::Refused { code, body, .. } => {
                    let retry = code == 408 || code == 429 || 500 <= code <= 599;
                    &&& r is Err
                    &&& retry ==> r->Err_0 is HttpTransient && text::ends(
                        r->Err_0->HttpTransient_0,
                        body@,
                    )
                    &&& !retry ==> r->Err_0 is HttpClient && text::ends(
                        r->Err_0->HttpClient_0,
                        body@,
                    )
                },
                HttpEvent::Undecodable(_) => r is Err && r->Err_0 is Parse,
                HttpEvent::Answered(body) => r == vectors_in(body@, count, dim),
            }
        }),
{
    if let HttpEvent::Refused { shown, body, .. } = event {
        text::parts_stand_in_the_whole("HTTP "@ + shown@ + ": "@, body@, Seq::empty());
    }
    if let HttpEvent::SendFailed(why) = event {
        text::parts_stand_in_the_whole("send "@ + url + ": "@, why@, Seq::empty());
    }
}

/// An error says what went wrong in full: its message ends with it.
pub proof fn errors_say_what_happened(what: Seq<char>)
    ensures
        text::ends(EmbedErrorView::Config(what).message(), what),
        text::ends(EmbedErrorView::HttpTransient(what).message(), what),
        text::ends(EmbedErrorView::HttpClient(what).message(), what),
        text::ends(EmbedErrorView::Parse(what).message(), what),
{
    text::parts_stand_in_the_whole("embed config error: "@, what, Seq::empty());
    text::parts_stand_in_the_whole("embed http transient: "@, what, Seq::empty());
    text::parts_stand_in_the_whole("embed http client error: "@, what, Seq::empty());
    text::parts_stand_in_the_whole("embed parse error: "@, what, Seq::empty());
}

/// A reply without vectors, or with more or fewer than there were texts, is refused; and
/// whatever is refused makes no sense rather than being worth another try.
pub proof fn senseless_replies_are_refused(body: JsonView, count: nat, dim: nat)
    ensures
        vectors_in(body, count, dim) is Err ==> vectors_in(body, count, dim)->Err_0 is Parse,
        !(body.items_field("data"@) is Some) ==> vectors_in(body, count, dim) is Err,
        body.items_field("data"@) is Some && body.items_field("data"@)->0.len() != count
            ==> vectors_in(body, count, dim) is Err,
{
    if let Some(items) = body.items_field("data"@) {
        only_parse_errors(items, dim);
    }
}

proof fn only_parse_errors(items: Seq<JsonView>, dim: nat)
    ensures
        all_indexed(items, dim) is Err ==> all_indexed(items, dim)->Err_0 is Parse,
    decreases items.len(),
{
    if items.len() > 0 {
        only_parse_errors(items.drop_last(), dim);
    }
}

/// `item` is the object of a vector with its index.
pub open spec fn is_indexed_vector(item: JsonView, index: int, vector: Seq<JsonView>) -> bool {
    item matches JsonView::Object(fields) && {
        &&& fields.contains_key("index"@)
        &&& fields["index"@] == JsonView::Number(json::NumberView::Integer(index))
        &&& fields.contains_key("embedding"@)
        &&& fields["embedding"@] == JsonView::Array(vector)
    }
}

proof fn numbers_only(items: Seq<JsonView>, from: int)
    requires
        0 <= from,
        forall|i: int| 0 <= i < items.len() ==> #[trigger] items[i] is Number,
    ensures
        first_non_number(items, from) is None,
    decreases items.len() - from,
{
    if from < items.len() {
        numbers_only(items, from + 1);
    }
}

proof fn indexed_vectors_are_read(
    items: Seq<JsonView>,
    at: spec_fn(int) -> int,
    vectors: Seq<Seq<JsonView>>,
    dim: nat,
    n: int,
)
    requires
        0 <= n <= items.len(),
        vectors.len() <= u64::MAX,
        forall|k: int|
            0 <= k < items.len() ==> 0 <= #[trigger] at(k) < vectors.len() && is_indexed_vector(
                items[k],
                at(k),
                vectors[at(k)],
            ),
        forall|i: int| 0 <= i < vectors.len() ==> (#[trigger] vectors[i]).len() == dim,
        forall|i: int, j: int|
            0 <= i < vectors.len() && 0 <= j < vectors[i].len() ==> #[trigger] vectors[i][j] is Number,
    ensures
        all_indexed(items.take(n), dim) is Ok,
        all_indexed(items.take(n), dim)->Ok_0.len() == n,
        forall|k: int|
            0 <= k < n ==> (#[trigger] all_indexed(items.take(n), dim)->Ok_0[k]) == (
                at(k) as u64,
                vectors[at(k)],
            ),
    decreases n,
{
    if n > 0 {
        indexed_vectors_are_read(items, at, vectors, dim, n - 1);
        assert(items.take(n).drop_last() =~= items.take(n - 1));
        let item = items[n - 1];
        let i = at(n - 1);
        assert forall|j: int| 0 <= j < vectors[i].len() implies #[trigger] vectors[i][j]
            is Number by {}
        numbers_only(vectors[i], 0);
        assert(is_indexed_vector(items[n - 1], i, vectors[i]));
        assert(indexed(item, dim) == Ok::<IndexedView, EmbedErrorView>((i as u64, vectors[i])));
        let before = all_indexed(items.take(n - 1), dim)->Ok_0;
        assert(all_indexed(items.take(n), dim)->Ok_0 == before.push((i as u64, vectors[i])));
        assert forall|k: int| 0 <= k < n implies (#[trigger] all_indexed(
            items.take(n),
            dim,
        )->Ok_0[k]) == (at(k) as u64, vectors[at(k)]) by {
            if k < n - 1 {
                assert(before[k] == (at(k) as u64, vectors[at(k)]));
            }
        }
    }
}

proof fn place_is_ordered(sorted: Seq<IndexedView>, x: IndexedView)
    requires
        forall|i: int, j: int|
            0 <= i < j < sorted.len() ==> (#[trigger] sorted[i]).0 <= (#[trigger] sorted[j]).0,
    ensures
        ({
            let p = place_of(sorted, x);
            &&& 0 <= p <= sorted.len()
            &&& forall|i: int| 0 <= i < p ==> (#[trigger] sorted[i]).0 < x.0
            &&& forall|i: int| p <= i < sorted.len() ==> x.0 <= (#[trigger] sorted[i]).0
        }),
    decreases sorted.len(),
{
    if sorted.len() > 0 && sorted[0].0 < x.0 {
        let rest = sorted.skip(1);
        assert forall|i: int, j: int| 0 <= i < j < rest.len() implies (#[trigger] rest[i]).0 <= (
        #[trigger] rest[j]).0 by {
            assert(sorted[i + 1].0 <= sorted[j + 1].0);
        }
        place_is_ordered(rest, x);
        let p = place_of(sorted, x);
        assert forall|i: int| 0 <= i < p implies (#[trigger] sorted[i]).0 < x.0 by {
            if i > 0 {
                assert(rest[i - 1] == sorted[i]);
            }
        }
        assert forall|i: int| p <= i < sorted.len() implies x.0 <= (#[trigger] sorted[i]).0 by {
            assert(rest[i - 1] == sorted[i]);
        }
    }
}

/// Ordering by index loses nothing, adds nothing, and orders.
pub proof fn ordering_by_index_is_a_sort(items: Seq<IndexedView>)
    ensures
        by_index(items).to_multiset() == items.to_multiset(),
        by_index(items).len() == items.len(),
        forall|i: int, j: int|
            0 <= i < j < items.len() ==> (#[trigger] by_index(items)[i]).0 <= (
            #[trigger] by_index(items)[j]).0,
    decreases items.len(),
{
    broadcast use vstd::seq_lib::group_to_multiset_ensures;

    if items.len() > 0 {
        let tail = items.skip(1);
        let rest = by_index(tail);
        ordering_by_index_is_a_sort(tail);
        place_is_ordered(rest, items[0]);
        let p = place_of(rest, items[0]);
        let all = rest.insert(p, items[0]);
        vstd::seq_lib::to_multiset_insert(rest, p, items[0]);
        vstd::seq_lib::to_multiset_insert(tail, 0, items[0]);
        assert(tail.insert(0, items[0]) =~= items);
        assert forall|i: int, j: int| 0 <= i < j < all.len() implies (#[trigger] all[i]).0 <= (
        #[trigger] all[j]).0 by {
            let a = if i < p {
                rest[i].0
            } else if i == p {
                items[0].0
            } else {
                rest[i - 1].0
            };
            let b = if j < p {
                rest[j].0
            } else if j == p {
                items[0].0
            } else {
                rest[j - 1].0
            };
            assert(all[i].0 == a && all[j].0 == b);
        }
    } else {
        assert(by_index(items) =~= items);
    }
}

proof fn distinct_indices_are_ordered(items: Seq<IndexedView>)
    requires
        forall|i: int, j: int|
            0 <= i < j < items.len() ==> (#[trigger] items[i]).0 != (#[trigger] items[j]).0,
    ensures
        by_index(items).len() == items.len(),
        forall|i: int| 0 <= i < items.len() ==> items.contains(#[trigger] by_index(items)[i]),
        forall|i: int, j: int|
            0 <= i < j < items.len() ==> (#[trigger] by_index(items)[i]).0 < (#[trigger] by_index(
                items,
            )[j]).0,
    decreases items.len(),
{
    if items.len() > 0 {
        let tail = items.skip(1);
        let rest = by_index(tail);
        let x = items[0];
        assert forall|i: int, j: int| 0 <= i < j < tail.len() implies (#[trigger] tail[i]).0 != (
        #[trigger] tail[j]).0 by {
            assert(items[i + 1].0 != items[j + 1].0);
        }
        distinct_indices_are_ordered(tail);
        place_is_ordered(rest, x);
        let p = place_of(rest, x);
        let all = by_index(items);
        assert(all == rest.insert(p, x));
        assert forall|i: int| 0 <= i < rest.len() implies (#[trigger] rest[i]).0 != x.0
            && items.contains(rest[i]) by {
            assert(tail.contains(rest[i]));
            let k = choose|k: int| 0 <= k < tail.len() && tail[k] == rest[i];
            assert(items[k + 1] == rest[i]);
            assert(items[0].0 != items[k + 1].0);
        }
        assert forall|i: int| 0 <= i < all.len() implies items.contains(#[trigger] all[i]) by {
            if i < p {
                assert(all[i] == rest[i]);
            } else if i == p {
                assert(items[0] == all[i]);
            } else {
                assert(all[i] == rest[i - 1]);
            }
        }
        assert forall|i: int, j: int| 0 <= i < j < all.len() implies (#[trigger] all[i]).0 < (
        #[trigger] all[j]).0 by {
            let a = if i < p {
                rest[i].0
            } else if i == p {
                x.0
            } else {
                rest[i - 1].0
            };
            let b = if j < p {
                rest[j].0
            } else if j == p {
                x.0
            } else {
                rest[j - 1].0
            };
            assert(all[i].0 == a && all[j].0 == b);
        }
    }
}

proof fn indices_fill_from_below(sorted: Seq<IndexedView>, i: int)
    requires
        0 <= i < sorted.len(),
        forall|a: int, b: int|
            0 <= a < b < sorted.len() ==> (#[trigger] sorted[a]).0 < (#[trigger] sorted[b]).0,
    ensures
        sorted[i].0 >= i,
    decreases i,
{
    if i > 0 {
        indices_fill_from_below(sorted, i - 1);
        assert(sorted[i - 1].0 < sorted[i].0);
    }
}

proof fn indices_fill_from_above(sorted: Seq<IndexedView>, i: int)
    requires
        0 <= i < sorted.len(),
        forall|a: int, b: int|
            0 <= a < b < sorted.len() ==> (#[trigger] sorted[a]).0 < (#[trigger] sorted[b]).0,
        forall|a: int| 0 <= a < sorted.len() ==> (#[trigger] sorted[a]).0 < sorted.len(),
    ensures
        sorted[i].0 <= i,
    decreases sorted.len() - i,
{
    if i < sorted.len() - 1 {
        indices_fill_from_above(sorted, i + 1);
        assert(sorted[i].0 < sorted[i + 1].0);
    }
}

proof fn indexed_means_no_gap(sorted: Seq<IndexedView>, from: int)
    requires
        0 <= from,
        forall|i: int| 0 <= i < sorted.len() ==> (#[trigger] sorted[i]).0 == i,
    ensures
        first_gap(sorted, from) is None,
    decreases sorted.len() - from,
{
    if from < sorted.len() {
        indexed_means_no_gap(sorted, from + 1);
    }
}

/// A reply with one vector per text is read whatever the order of its items: `at` says
/// which text the item at each place is for, and the vectors come out in the order of
/// the texts, number for number.
pub proof fn replies_in_any_order_are_read(
    fields: Map<Seq<char>, JsonView>,
    items: Seq<JsonView>,
    at: spec_fn(int) -> int,
    vectors: Seq<Seq<JsonView>>,
    dim: nat,
)
    requires
        fields.contains_key("data"@),
        fields["data"@] == JsonView::Array(items),
        items.len() == vectors.len(),
        vectors.len() <= u64::MAX,
        forall|k: int|
            0 <= k < items.len() ==> 0 <= #[trigger] at(k) < vectors.len() && is_indexed_vector(
                items[k],
                at(k),
                vectors[at(k)],
            ),
        forall|j: int, k: int|
            0 <= j < k < items.len() ==> #[trigger] at(j) != #[trigger] at(k),
        forall|i: int| 0 <= i < vectors.len() ==> (#[trigger] vectors[i]).len() == dim,
        forall|i: int, j: int|
            0 <= i < vectors.len() && 0 <= j < vectors[i].len() ==> #[trigger] vectors[i][j] is Number,
    ensures
        vectors_in(JsonView::Object(fields), vectors.len(), dim) == Ok::<
            Seq<Seq<JsonView>>,
            EmbedErrorView,
        >(vectors),
{
    let n = items.len() as int;
    let body = JsonView::Object(fields);
    assert(items.take(n) =~= items);
    indexed_vectors_are_read(items, at, vectors, dim, n);
    let list = all_indexed(items, dim)->Ok_0;
    assert forall|i: int, j: int| 0 <= i < j < list.len() implies (#[trigger] list[i]).0 != (
    #[trigger] list[j]).0 by {
        assert(list[i] == (at(i) as u64, vectors[at(i)]));
        assert(list[j] == (at(j) as u64, vectors[at(j)]));
    }
    distinct_indices_are_ordered(list);
    let sorted = by_index(list);
    assert forall|i: int| 0 <= i < sorted.len() implies (#[trigger] sorted[i]).0 < sorted.len()
        && sorted[i].1 == vectors[sorted[i].0 as int] by {
        assert(list.contains(sorted[i]));
        let k = choose|k: int| 0 <= k < list.len() && list[k] == sorted[i];
        assert(list[k] == (at(k) as u64, vectors[at(k)]));
    }
    assert forall|i: int| 0 <= i < sorted.len() implies (#[trigger] sorted[i]).0 == i by {
        indices_fill_from_below(sorted, i);
        indices_fill_from_above(sorted, i);
    }
    indexed_means_no_gap(sorted, 0);
    assert(body.items_field("data"@) == Some(items));
    assert(sorted.map_values(|x: IndexedView| x.1) =~= vectors);
}

proof fn no_non_number_means_numbers(items: Seq<JsonView>, from: int)
    requires
        0 <= from,
        first_non_number(items, from) is None,
    ensures
        forall|i: int| from <= i < items.len() ==> #[trigger] items[i] is Number,
    decreases items.len() - from,
{
    if from < items.len() {
        no_non_number_means_numbers(items, from + 1);
    }
}

proof fn indexed_items_are_numbers(items: Seq<JsonView>, list: Seq<IndexedView>, dim: nat)
    requires
        all_indexed(items, dim) == Ok::<Seq<IndexedView>, EmbedErrorView>(list),
    ensures
        forall|i: int, j: int|
            0 <= i < list.len() && 0 <= j < list[i].1.len() ==> #[trigger] list[i].1[j] is Number,
    decreases items.len(),
{
    if items.len() > 0 {
        let before = all_indexed(items.drop_last(), dim)->Ok_0;
        indexed_items_are_numbers(items.drop_last(), before, dim);
        no_non_number_means_numbers(list.last().1, 0);
        assert forall|i: int, j: int|
            0 <= i < list.len() && 0 <= j < list[i].1.len() implies #[trigger] list[i].1[j]
            is Number by {
            if i < before.len() {
                assert(list[i] == before[i]);
                assert(before[i].1[j] is Number);
            } else {
                assert(list[i] == list.last());
            }
        }
    }
}

/// Only vectors of numbers are taken, each of the expected length: a reply with anything
/// else in one of them is refused.
pub proof fn accepted_vectors_are_numbers(body: JsonView, count: nat, dim: nat, i: int, j: int)
    requires
        vectors_in(body, count, dim) is Ok,
        0 <= i < count,
        0 <= j < dim,
    ensures
        vectors_in(body, count, dim)->Ok_0.len() == count,
        vectors_in(body, count, dim)->Ok_0[i].len() == dim,
        vectors_in(body, count, dim)->Ok_0[i][j] is Number,
{
    broadcast use vstd::seq_lib::group_to_multiset_ensures;

    let items = body.items_field("data"@)->0;
    let list = all_indexed(items, dim)->Ok_0;
    let sorted = by_index(list);
    vectors_follow_their_indices(body, items, list, count, dim);
    indexed_items_are_numbers(items, list, dim);
    ordering_by_index_is_a_sort(list);
    assert(sorted.contains(sorted[i]));
    assert(sorted.to_multiset().count(sorted[i]) > 0);
    assert(list.contains(sorted[i]));
    let k = choose|k: int| 0 <= k < list.len() && list[k] == sorted[i];
    assert(list[k].1.len() == dim);
    assert(list[k].1[j] is Number);
}

// ---------------------------------------------------------------------------
// Laws of the pass

/// The rows of a batch are taken in order, each by itself.
pub proof fn rows_are_taken_in_order(a: Seq<PendingRow>, b: Seq<PendingRow>)
    ensures
        usable(a + b) == usable(a) + usable(b),
    decreases b.len(),
{
    if b.len() == 0 {
        assert(a + b =~= a);
    } else {
        assert((a + b).drop_last() =~= a + b.drop_last());
        rows_are_taken_in_order(a, b.drop_last());
    }
    assert(usable(a + b) =~= usable(a) + usable(b));
}

/// One row is handed out with its id and all that it says, unless that is blank.
pub proof fn one_row_is_handed_out(row: PendingRow)
    ensures
        ({
            let said = embed_text(row.summary@, text::opt_view(row.detail));
            usable(seq![row]) == (if text::is_white(said) {
                Seq::empty()
            } else {
                seq![(row.id, said)]
            })
        }),
{
    let one = seq![row];
    render::blank_is_all_white(embed_text(row.summary@, text::opt_view(row.detail)));
    assert(one.drop_last() =~= Seq::empty());
    assert(usable(one.drop_last()) =~= Seq::empty());
    assert(usable(one) =~= (if text::is_white(
        embed_text(row.summary@, text::opt_view(row.detail)),
    ) {
        Seq::empty()
    } else {
        seq![(row.id, embed_text(row.summary@, text::opt_view(row.detail)))]
    }));
}

/// The text at each place is that of the row at the same place, so each vector is
/// stored for the row whose text it stands for; and what was seen, stored or failed is
/// counted.
pub proof fn texts_stand_beside_their_rows(
    p: EmbedPassView,
    batch: Seq<PendingRow>,
    got: Option<nat>,
)
    requires
        batched(p, batch).1 is Embed,
        p.stats.rows_pending_seen + batch.len() <= u64::MAX,
        p.stats.rows_embedded + batch.len() <= u64::MAX,
        p.stats.batches < u64::MAX,
        p.stats.errors < u64::MAX,
    ensures
        ({
            let (q, a) = batched(p, batch);
            let (r, b) = embedded(q, got);
            let texts = a->texts;
            &&& q.ids.len() == texts.len()
            &&& texts.len() == usable(batch).len()
            &&& forall|i: int|
                0 <= i < texts.len() ==> (q.ids[i], #[trigger] texts[i]) == usable(batch)[i]
            &&& q.stats.rows_pending_seen == p.stats.rows_pending_seen + batch.len()
            &&& b is Write ==> b == (EmbedActionView::Write { ids: q.ids }) && r.min_id
                == batch[batch.len() - 1].id && r.stats.rows_embedded == p.stats.rows_embedded
                + texts.len() && r.stats.batches == p.stats.batches + 1 && r.stats.errors
                == p.stats.errors
            &&& !(b is Write) ==> r.stats.errors == p.stats.errors + 1 && r.stats.batches
                == p.stats.batches
        }),
{
    usable_rows_are_rows(batch);
}

proof fn usable_rows_are_rows(batch: Seq<PendingRow>)
    ensures
        usable(batch).len() <= batch.len(),
    decreases batch.len(),
{
    if batch.len() > 0 {
        usable_rows_are_rows(batch.drop_last());
    }
}

} // verus!
