//! Consolidation: judging pairs of near knowledge points, and applying the
//! verdicts to the log without losing or looping any row.
use crate::distiller;
use crate::distiller::ExtractError;
use crate::json;
use crate::json::Json;
use crate::json::JsonView;
use crate::render;
use crate::text;
use vstd::prelude::*;
use vstd::string::*;

verus! {

/// How two knowledge points relate.
#[derive(Debug, Clone, Copy, PartialEq, Eq, Structural)]
pub enum Relation {
    /// Same knowledge in other words: one is kept.
    Duplicate,
    /// One replaces the other: the older points at the newer.
    Supersede,
    /// Incompatible answers to one question: both are kept and flagged.
    Contradiction,
    /// Different facets of one topic: both are kept.
    Complement,
    /// Incidental neighbours: both are left alone.
    NoAction,
}

/// The name of a relation in replies and in the audit.
pub open spec fn relation_name(r: Relation) -> Seq<char> {
    match r {
        Relation::Duplicate => "duplicate"@,
        Relation::Supersede => "supersede"@,
        Relation::Contradiction => "contradiction"@,
        Relation::Complement => "complement"@,
        Relation::NoAction => "no_action"@,
    }
}

/// The relation that a lower-case token names.
pub open spec fn relation_of(token: Seq<char>) -> Option<Relation> {
    if token == "duplicate"@ {
        Some(Relation::Duplicate)
    } else if token == "supersede"@ {
        Some(Relation::Supersede)
    } else if token == "contradiction"@ {
        Some(Relation::Contradiction)
    } else if token == "complement"@ {
        Some(Relation::Complement)
    } else if token == "no_action"@ || token == "no-action"@ || token == "noaction"@ {
        Some(Relation::NoAction)
    } else {
        None
    }
}

/// The action that the audit records for a relation.
pub open spec fn action_name(r: Relation) -> Seq<char> {
    match r {
        Relation::Duplicate | Relation::Supersede => "would_merge"@,
        Relation::Contradiction => "would_contradict"@,
        Relation::Complement | Relation::NoAction => "leave"@,
    }
}

impl Relation {
    /// The name in replies and in the audit.
    pub fn as_str(&self) -> (r: &'static str)
        ensures
            r@ == relation_name(*self),
    {
        match self {
            Relation::Duplicate => "duplicate",
            Relation::Supersede => "supersede",
            Relation::Contradiction => "contradiction",
            Relation::Complement => "complement",
            Relation::NoAction => "no_action",
        }
    }

    /// The relation that a token names, whatever its case and the space around.
    pub fn parse(s: &str) -> (r: Option<Relation>)
        ensures
            r == relation_of(text::lowercase(text::trimmed(s@))),
    {
        let token = text::to_lowercase(text::trim(s));
        let t = token.as_str();
        if text::same(t, "duplicate") {
            Some(Relation::Duplicate)
        } else if text::same(t, "supersede") {
            Some(Relation::Supersede)
        } else if text::same(t, "contradiction") {
            Some(Relation::Contradiction)
        } else if text::same(t, "complement") {
            Some(Relation::Complement)
        } else if text::same(t, "no_action") || text::same(t, "no-action") || text::same(
            t,
            "noaction",
        ) {
            Some(Relation::NoAction)
        } else {
            None
        }
    }

    /// The action that the audit records.
    pub fn intent_action(&self) -> (r: &'static str)
        ensures
            r@ == action_name(*self),
    {
        match self {
            Relation::Duplicate | Relation::Supersede => "would_merge",
            Relation::Contradiction => "would_contradict",
            Relation::Complement | Relation::NoAction => "leave",
        }
    }
}

/// Reading the name of a relation gives the relation back, whichever of its
/// letters are capital and whatever white space stands around it.
pub proof fn relation_names_read_back(
    r: Relation,
    before: Seq<char>,
    token: Seq<char>,
    after: Seq<char>,
)
    requires
        text::is_ascii_text(token),
        text::ascii_lowercase(token) == relation_name(r),
        text::is_white(before),
        text::is_white(after),
    ensures
        relation_of(text::lowercase(text::trimmed(before + token + after))) == Some(r),
{
    reveal_strlit("duplicate");
    reveal_strlit("supersede");
    reveal_strlit("contradiction");
    reveal_strlit("complement");
    reveal_strlit("no_action");
    let name = relation_name(r);
    assert(token.len() == name.len());
    assert(text::ascii_lowercase(token)[0] == text::ascii_lower(token[0]));
    let n = token.len() - 1;
    assert(text::ascii_lowercase(token)[n] == text::ascii_lower(token[n]));
    text::trimming_drops_what_is_blank(before, token, after);
}

/// Every relation is read by its own name and by no other, but that the last may be
/// written with a hyphen or in one word; and each asks for its own action.
pub proof fn relations_go_by_their_names(token: Seq<char>)
    ensures
        relation_of(token) == Some(Relation::Duplicate) <==> token == "duplicate"@,
        relation_of(token) == Some(Relation::Supersede) <==> token == "supersede"@,
        relation_of(token) == Some(Relation::Contradiction) <==> token == "contradiction"@,
        relation_of(token) == Some(Relation::Complement) <==> token == "complement"@,
        relation_of(token) == Some(Relation::NoAction) <==> token == "no_action"@ || token
            == "no-action"@ || token == "noaction"@,
        relation_name(Relation::Duplicate) == "duplicate"@,
        relation_name(Relation::Supersede) == "supersede"@,
        relation_name(Relation::Contradiction) == "contradiction"@,
        relation_name(Relation::Complement) == "complement"@,
        relation_name(Relation::NoAction) == "no_action"@,
        action_name(Relation::Duplicate) == "would_merge"@,
        action_name(Relation::Supersede) == "would_merge"@,
        action_name(Relation::Contradiction) == "would_contradict"@,
        action_name(Relation::Complement) == "leave"@,
        action_name(Relation::NoAction) == "leave"@,
{
    reveal_strlit("duplicate");
    reveal_strlit("supersede");
    reveal_strlit("contradiction");
    reveal_strlit("complement");
    reveal_strlit("no_action");
    reveal_strlit("no-action");
    reveal_strlit("noaction");
    assert("duplicate"@[0] == 'd' && "supersede"@[0] == 's' && "no_action"@[0] == 'n');
    assert("no-action"@[0] == 'n' && "noaction"@[0] == 'n');
    assert("contradiction"@[2] == 'n' && "complement"@[2] == 'm');
    assert("contradiction"@[0] == 'c' && "complement"@[0] == 'c');
}

/// A knowledge point as the judge sees it.
#[derive(Debug, Clone)]
pub struct KpRef {
    pub id: i64,
    pub summary: String,
    pub detail: Option<String>,
    pub ts: i64,
}

/// The judge's verdict on a pair.
#[derive(Debug, Clone, PartialEq, Eq)]
pub struct JudgeVerdict {
    pub relation: Relation,
    pub rationale: String,
    /// The id of the point that is replaced; only for `Supersede`.
    pub superseded_id: Option<i64>,
}

#[verifier::ext_equal]
pub ghost struct VerdictView {
    pub relation: Relation,
    pub rationale: Seq<char>,
    pub superseded_id: Option<i64>,
}

impl View for JudgeVerdict {
    type V = VerdictView;

    open spec fn view(&self) -> VerdictView {
        VerdictView {
            relation: self.relation,
            rationale: self.rationale@,
            superseded_id: self.superseded_id,
        }
    }
}

/// One point of a pair, as it is shown to the judge.
pub open spec fn kp_block(k: KpRef) -> Seq<char> {
    "id: "@ + text::integer_text(k.id as int) + "\nts: "@ + text::integer_text(k.ts as int)
        + "\nsummary: "@ + k.summary@ + "\ndetail: "@ + (match k.detail {
        Some(d) => d@,
        None => "<none>"@,
    })
}

/// The pair as it is shown to the judge, with the distance as a text.
pub open spec fn pair_block(a: KpRef, b: KpRef, distance: Seq<char>) -> Seq<char> {
    "[VECTOR_DISTANCE] "@ + distance
        + "   (reference only — does NOT determine the relation; larger ts = more recent)\n\n[KP A]\n"@
        + kp_block(a) + "\n\n[KP B]\n"@ + kp_block(b)
}

fn show_kp(k: &KpRef) -> (r: String)
    ensures
        r@ == kp_block(*k),
{
    let detail = match &k.detail {
        Some(d) => d.as_str(),
        None => "<none>",
    };
    "id: ".to_owned().concat(text::i64_text(k.id).as_str()).concat("\nts: ").concat(
        text::i64_text(k.ts).as_str(),
    ).concat("\nsummary: ").concat(k.summary.as_str()).concat("\ndetail: ").concat(detail)
}

/// Renders a pair for the judge. `distance` is the vector distance as it is to
/// be shown.
pub fn build_judge_pair_block(a: &KpRef, b: &KpRef, distance: &str) -> (r: String)
    ensures
        r@ == pair_block(*a, *b, distance@),
{
    "[VECTOR_DISTANCE] ".to_owned().concat(distance).concat(
        "   (reference only — does NOT determine the relation; larger ts = more recent)\n\n[KP A]\n",
    ).concat(show_kp(a).as_str()).concat("\n\n[KP B]\n").concat(show_kp(b).as_str())
}

/// The judge sees all of both points: the whole summary and the whole detail of
/// each, the first before the second.
pub proof fn judge_sees_both_points(a: KpRef, b: KpRef, distance: Seq<char>)
    ensures
        text::has(kp_block(a), a.summary@),
        a.detail is Some ==> text::ends(kp_block(a), a.detail->0@),
        text::has(kp_block(a), text::integer_text(a.ts as int)),
        text::has(pair_block(a, b, distance), kp_block(a)),
        text::ends(pair_block(a, b, distance), kp_block(b)),
        text::has(pair_block(a, b, distance), distance),
{
    let detail = match a.detail {
        Some(d) => d@,
        None => "<none>"@,
    };
    let stamp = "id: "@ + text::integer_text(a.id as int) + "\nts: "@;
    let time = text::integer_text(a.ts as int);
    let front = stamp + time + "\nsummary: "@;
    let back = "\ndetail: "@ + detail;
    let whole = kp_block(a);
    assert(whole =~= front + a.summary@ + back);
    text::parts_stand_in_the_whole(front, a.summary@, back);
    assert(whole =~= (front + a.summary@ + "\ndetail: "@) + detail);
    text::parts_stand_in_the_whole(front + a.summary@ + "\ndetail: "@, detail, Seq::empty());
    let rest = "\nsummary: "@ + a.summary@ + back;
    assert(whole =~= stamp + time + rest);
    text::parts_stand_in_the_whole(stamp, time, rest);
    let note =
        "   (reference only — does NOT determine the relation; larger ts = more recent)\n\n[KP A]\n"@;
    let pair = pair_block(a, b, distance);
    let head = "[VECTOR_DISTANCE] "@ + distance + note;
    let tail = "\n\n[KP B]\n"@ + kp_block(b);
    assert(pair =~= head + whole + tail);
    text::parts_stand_in_the_whole(head, whole, tail);
    assert(pair =~= (head + whole + "\n\n[KP B]\n"@) + kp_block(b));
    text::parts_stand_in_the_whole(head + whole + "\n\n[KP B]\n"@, kp_block(b), Seq::empty());
    assert(pair =~= "[VECTOR_DISTANCE] "@ + distance + (note + whole + tail));
    text::parts_stand_in_the_whole("[VECTOR_DISTANCE] "@, distance, note + whole + tail);
}

// ---------------------------------------------------------------------------
// The judge's reply

/// The outermost `{…}` of a reply.
pub open spec fn object_slice(s: Seq<char>) -> Result<Seq<char>, Seq<char>> {
    distiller::bracketed(
        s,
        "{"@,
        '}',
        "no '{' found in judge reply"@,
        "no '}' found in judge reply"@,
        "object braces out of order in judge reply"@,
    )
}

/// Slices the outermost `{…}` out of a reply.
pub fn extract_json_object_slice<'a>(s: &'a str) -> (r: Result<&'a str, String>)
    ensures
        match r {
            Ok(t) => object_slice(s@) == Ok::<Seq<char>, Seq<char>>(t@),
            Err(m) => object_slice(s@) == Err::<Seq<char>, Seq<char>>(m@),
        },
{
    let start = match text::find(s, "{") {
        Some(i) => i,
        None => return Err("no '{' found in judge reply".to_owned()),
    };
    let end = match text::rfind_char(s, '}') {
        Some(i) => i,
        None => return Err("no '}' found in judge reply".to_owned()),
    };
    if end < start {
        return Err("object braces out of order in judge reply".to_owned());
    }
    Ok(s.substring_char(start, end + 1))
}

/// The id that a field names: a number, or a string that writes one.
pub open spec fn id_of(field: Option<JsonView>) -> Option<i64> {
    match field {
        None => None,
        Some(v) => match v {
            JsonView::Str(s) => text::int64_of(text::trimmed(s)),
            other => other.int64(),
        },
    }
}

/// The verdict that a reply's value holds. Without a known relation there is
/// none: no relation is guessed. Only a replacement names what is replaced.
pub open spec fn verdict_in(v: JsonView) -> Result<VerdictView, Seq<char>> {
    match v.string_field("relation"@) {
        None => Err("missing string field `relation`"@),
        Some(raw) => match relation_of(text::lowercase(text::trimmed(raw))) {
            None => Err(
                "unknown relation "@ + text::debug_text(raw) + " (expected one of the five)"@,
            ),
            Some(relation) => Ok(
                VerdictView {
                    relation,
                    rationale: text::trimmed(render::string_or_empty(v, "rationale"@)),
                    superseded_id: if relation == Relation::Supersede {
                        id_of(v.field("superseded_id"@))
                    } else {
                        None
                    },
                },
            ),
        },
    }
}

/// The verdict that a reply holds.
pub open spec fn reply_verdict(s: Seq<char>) -> Result<VerdictView, Seq<char>> {
    match object_slice(distiller::unfenced(distiller::unthought(s))) {
        Err(m) => Err(m),
        Ok(slice) => match json::parsed(slice) {
            Err(e) => Err("invalid JSON object: "@ + e + " (after fence-strip + brace-slice)"@),
            Ok(v) => verdict_in(v),
        },
    }
}

/// Reads the verdict out of a reply's value.
pub fn judge_verdict_in(v: &Json) -> (r: Result<JudgeVerdict, String>)
    ensures
        match r {
            Ok(x) => verdict_in(v@) == Ok::<VerdictView, Seq<char>>(x@),
            Err(m) => verdict_in(v@) == Err::<VerdictView, Seq<char>>(m@),
        },
{
    let raw = match v.get_str("relation") {
        Some(s) => s,
        None => return Err("missing string field `relation`".to_owned()),
    };
    let relation = match Relation::parse(raw) {
        Some(rel) => rel,
        None => return Err(
            "unknown relation ".to_owned().concat(text::debug(raw).as_str()).concat(
                " (expected one of the five)",
            ),
        ),
    };
    let rationale = match v.get_str("rationale") {
        Some(s) => text::trim(s).to_owned(),
        None => text::trim("").to_owned(),
    };
    proof {
        reveal_strlit("");
        assert(""@ =~= Seq::<char>::empty());
    }
    let superseded_id = if relation == Relation::Supersede {
        match v.get("superseded_id") {
            None => None,
            Some(x) => match x {
                Json::Str(s) => text::parse_i64(text::trim(s.as_str())),
                _ => x.as_i64(),
            },
        }
    } else {
        None
    };
    Ok(JudgeVerdict { relation, rationale, superseded_id })
}

/// Reads the verdict out of a reply: reasoning blocks and a code fence are
/// taken away, then the outermost object is read.
pub fn parse_judge_verdict(s: &str) -> (r: Result<JudgeVerdict, String>)
    ensures
        match r {
            Ok(x) => reply_verdict(s@) == Ok::<VerdictView, Seq<char>>(x@),
            Err(m) => reply_verdict(s@) == Err::<VerdictView, Seq<char>>(m@),
        },
{
    let unthought_text = distiller::strip_think_blocks(s);
    let inner = distiller::strip_code_fence(unthought_text.as_str());
    let sliced = match extract_json_object_slice(inner) {
        Ok(t) => t,
        Err(m) => return Err(m),
    };
    match Json::from_str(sliced) {
        Ok(v) => judge_verdict_in(&v),
        Err(e) => Err(
            "invalid JSON object: ".to_owned().concat(e.as_str()).concat(
                " (after fence-strip + brace-slice)",
            ),
        ),
    }
}

/// A verdict is read off the fields of the reply: its relation from `relation`,
/// whatever the case, its rationale from `rationale`, trimmed, and for a
/// supersession, and for no other, the row from `superseded_id`, be it written as
/// a number or as a text.
pub proof fn verdict_is_what_the_fields_say(
    fields: Map<Seq<char>, JsonView>,
    r: Relation,
    raw: Seq<char>,
    n: i64,
)
    requires
        fields.contains_key("relation"@),
        fields["relation"@] == JsonView::Str(raw),
        text::is_ascii_text(text::trimmed(raw)),
        text::ascii_lowercase(text::trimmed(raw)) == relation_name(r),
    ensures
        ({
            let v = verdict_in(JsonView::Object(fields));
            let named = fields.contains_key("superseded_id"@);
            let id = fields["superseded_id"@];
            &&& v is Ok
            &&& v->Ok_0.relation == r
            &&& fields.contains_key("rationale"@) && fields["rationale"@] is Str
                ==> v->Ok_0.rationale == text::trimmed(fields["rationale"@]->Str_0)
            &&& !fields.contains_key("rationale"@) ==> v->Ok_0.rationale.len() == 0
            &&& r != Relation::Supersede ==> v->Ok_0.superseded_id is None
            &&& r == Relation::Supersede && named && id == JsonView::Number(
                json::NumberView::Integer(n as int),
            ) ==> v->Ok_0.superseded_id == Some(n)
            &&& r == Relation::Supersede && named && id == JsonView::Str(
                text::integer_text(n as int),
            ) ==> v->Ok_0.superseded_id == Some(n)
            &&& !named ==> v->Ok_0.superseded_id is None
        }),
{
    reveal_strlit("duplicate");
    reveal_strlit("supersede");
    reveal_strlit("contradiction");
    reveal_strlit("complement");
    reveal_strlit("no_action");
    text::integers_read_back(n);
    text::number_is_trimmed(n);
    text::trimming_nothing(Seq::empty());
    let v = JsonView::Object(fields);
    assert(v.string_field("relation"@) == Some(raw));
    let low = text::lowercase(text::trimmed(raw));
    assert(low == relation_name(r));
    assert("duplicate"@[0] == 'd' && "supersede"@[0] == 's' && "contradiction"@[0] == 'c');
    assert("complement"@[2] == 'm' && "contradiction"@[2] == 'n' && "no_action"@[0] == 'n');
    assert(relation_of(low) == Some(r));
    if fields.contains_key("superseded_id"@) {
        assert(v.field("superseded_id"@) == Some(fields["superseded_id"@]));
    }
}

/// A reply gives the verdict of the object in it, whatever prose stands around.
pub proof fn replies_give_their_verdict(
    before: Seq<char>,
    body: Seq<char>,
    after: Seq<char>,
    v: JsonView,
)
    requires
        body.len() >= 2,
        body[0] == '{',
        body.last() == '}',
        forall|i: int| 0 <= i < before.len() ==> before[i] != '{' && before[i] != '`',
        forall|i: int| 0 <= i < after.len() ==> after[i] != '}',
        !text::has(before + body + after, "<think>"@),
        json::parsed(body) == Ok::<JsonView, Seq<char>>(v),
    ensures
        reply_verdict(before + body + after) == verdict_in(v),
{
    reveal_strlit("{");
    assert("{"@ =~= seq!['{']);
    distiller::plain_replies_stay(before + body + after);
    let (i, j) = distiller::trimming_spares_the_body(before, body, after);
    let head = before.skip(i);
    assert forall|k: int| 0 <= k < head.len() implies head[k] != '{' by {
        assert(head[k] == before[i + k]);
    }
    distiller::slices_are_whole(
        head,
        body,
        after.take(j),
        '{',
        '}',
        "no '{' found in judge reply"@,
        "no '}' found in judge reply"@,
        "object braces out of order in judge reply"@,
    );
}

/// A reply gives no verdict where no object is found in it, or what is found is no JSON.
pub proof fn replies_without_a_verdict_fail(s: Seq<char>)
    ensures
        match object_slice(distiller::unfenced(distiller::unthought(s))) {
            Ok(slice) => match json::parsed(slice) {
                Ok(v) => reply_verdict(s) == verdict_in(v),
                Err(_) => reply_verdict(s) is Err,
            },
            Err(_) => reply_verdict(s) is Err,
        },
{
}

/// No relation is guessed: without a string under `relation`, or with one that
/// names none of the five, there is no verdict.
pub proof fn no_relation_is_guessed(v: JsonView)
    ensures
        verdict_in(v) is Ok ==> v is Object && v->Object_0.contains_key("relation"@)
            && v->Object_0["relation"@] is Str && relation_of(
            text::lowercase(text::trimmed(v->Object_0["relation"@]->Str_0)),
        ) == Some(verdict_in(v)->Ok_0.relation),
{
}

// ---------------------------------------------------------------------------
// Settings

/// New live rows that must have accrued before a run, unless set otherwise.
pub const CONSOLIDATION_MIN_NEW_KPS: i64 = 25;

/// The hard limit on one judge call, in seconds.
pub const JUDGE_TIMEOUT_SECS: u64 = 120;

/// The most judge calls in flight at once.
pub const MAX_JUDGE_CONCURRENCY: usize = 8;

/// How often a judge call that timed out is tried again.
pub const MAX_JUDGE_RETRIES: usize = 2;

/// Neighbours fetched per live row.
pub const CANDIDATE_KNN_K: i64 = 64;

/// The switch is on for "1" and "true", whatever the case and the space around.
pub open spec fn is_enabled(v: Option<Seq<char>>) -> bool {
    match v {
        Some(s) => {
            let t = text::ascii_lowercase(text::trimmed(s));
            t == "1"@ || t == "true"@
        },
        None => false,
    }
}

/// Whether the value of the kill switch turns consolidation on.
pub fn parse_enabled_flag(v: Option<&str>) -> (r: bool)
    ensures
        r == is_enabled(text::opt_str_view(v)),
{
    match v {
        Some(s) => {
            let t = text::to_ascii_lowercase(text::trim(s));
            text::same(t.as_str(), "1") || text::same(t.as_str(), "true")
        },
        None => false,
    }
}

/// The threshold that a setting gives: a positive number, else the default.
pub open spec fn min_new_kps(v: Option<Seq<char>>) -> i64 {
    match v {
        Some(s) => match text::int64_of(text::trimmed(s)) {
            Some(n) => if n > 0 {
                n
            } else {
                CONSOLIDATION_MIN_NEW_KPS
            },
            None => CONSOLIDATION_MIN_NEW_KPS,
        },
        None => CONSOLIDATION_MIN_NEW_KPS,
    }
}

/// The threshold that a setting gives.
pub fn parse_min_new_kps(v: Option<&str>) -> (r: i64)
    ensures
        r == min_new_kps(text::opt_str_view(v)),
{
    match v {
        Some(s) => match text::parse_i64(text::trim(s)) {
            Some(n) => if n > 0 {
                n
            } else {
                CONSOLIDATION_MIN_NEW_KPS
            },
            None => CONSOLIDATION_MIN_NEW_KPS,
        },
        None => CONSOLIDATION_MIN_NEW_KPS,
    }
}

// ---------------------------------------------------------------------------
// Which row gives way

/// What a verdict asks for.
#[derive(Debug, PartialEq, Eq)]
pub enum MergeDecision {
    /// `superseded` is to point at `survivor`.
    Supersede { superseded: i64, survivor: i64 },
    /// A contradiction is to be recorded.
    Contradict,
    /// Nothing is to change.
    Leave,
    /// Nothing is to change; the marker goes into the audit.
    Skip(&'static str),
}

/// What a verdict on two points with these timestamps asks for. A duplicate
/// retires the older, or the smaller id of two that are equally old. A
/// supersession goes by time and needs the judge to agree; between two that are
/// equally old the judge decides.
pub open spec fn merge_decision(
    relation: Relation,
    a: i64,
    ts_a: i64,
    b: i64,
    ts_b: i64,
    judged: Option<i64>,
) -> MergeDecision {
    match relation {
        Relation::Complement | Relation::NoAction => MergeDecision::Leave,
        Relation::Contradiction => MergeDecision::Contradict,
        Relation::Duplicate => if ts_a < ts_b || (ts_a == ts_b && a <= b) {
            MergeDecision::Supersede { superseded: a, survivor: b }
        } else {
            MergeDecision::Supersede { superseded: b, survivor: a }
        },
        Relation::Supersede => if ts_a == ts_b {
            if judged == Some(a) {
                MergeDecision::Supersede { superseded: a, survivor: b }
            } else if judged == Some(b) {
                MergeDecision::Supersede { superseded: b, survivor: a }
            } else {
                MergeDecision::Skip("[apply skipped: supersede direction undeterminable]")
            }
        } else {
            let (older, newer) = if ts_a < ts_b {
                (a, b)
            } else {
                (b, a)
            };
            if judged == Some(older) {
                MergeDecision::Supersede { superseded: older, survivor: newer }
            } else {
                MergeDecision::Skip("[apply skipped: judge/ts direction mismatch]")
            }
        },
    }
}

fn names(judged: Option<i64>, id: i64) -> (r: bool)
    ensures
        r == (judged == Some(id)),
{
    match judged {
        Some(x) => x == id,
        None => false,
    }
}

/// Decides which of two judged points gives way, and whether one does.
pub fn decide_merge(
    relation: Relation,
    a: i64,
    ts_a: i64,
    b: i64,
    ts_b: i64,
    judge_superseded_id: Option<i64>,
) -> (d: MergeDecision)
    ensures
        d == merge_decision(relation, a, ts_a, b, ts_b, judge_superseded_id),
{
    match relation {
        Relation::Complement | Relation::NoAction => MergeDecision::Leave,
        Relation::Contradiction => MergeDecision::Contradict,
        Relation::Duplicate => {
            if ts_a < ts_b || (ts_a == ts_b && a <= b) {
                MergeDecision::Supersede { superseded: a, survivor: b }
            } else {
                MergeDecision::Supersede { superseded: b, survivor: a }
            }
        },
        Relation::Supersede => {
            if ts_a == ts_b {
                if names(judge_superseded_id, a) {
                    MergeDecision::Supersede { superseded: a, survivor: b }
                } else if names(judge_superseded_id, b) {
                    MergeDecision::Supersede { superseded: b, survivor: a }
                } else {
                    MergeDecision::Skip("[apply skipped: supersede direction undeterminable]")
                }
            } else {
                let (older, newer) = if ts_a < ts_b {
                    (a, b)
                } else {
                    (b, a)
                };
                if names(judge_superseded_id, older) {
                    MergeDecision::Supersede { superseded: older, survivor: newer }
                } else {
                    MergeDecision::Skip("[apply skipped: judge/ts direction mismatch]")
                }
            }
        },
    }
}

/// The decision does not depend on which point is named first.
pub proof fn merge_decision_is_symmetric(
    relation: Relation,
    a: i64,
    ts_a: i64,
    b: i64,
    ts_b: i64,
    judged: Option<i64>,
)
    ensures
        merge_decision(relation, a, ts_a, b, ts_b, judged) == merge_decision(
            relation,
            b,
            ts_b,
            a,
            ts_a,
            judged,
        ),
{
}

/// What gives way is one of the pair and never newer than what stays.
pub proof fn survivor_is_never_older(
    relation: Relation,
    a: i64,
    ts_a: i64,
    b: i64,
    ts_b: i64,
    judged: Option<i64>,
)
    ensures
        merge_decision(relation, a, ts_a, b, ts_b, judged) matches MergeDecision::Supersede {
            superseded,
            survivor,
        } ==> {
            ||| superseded == a && survivor == b && ts_a <= ts_b
            ||| superseded == b && survivor == a && ts_b <= ts_a
        },
{
}

/// A duplicate always retires one of the two: the one with the smaller time, or
/// of two with the same time the one with the smaller id. The other stays.
pub proof fn duplicates_always_retire_the_older(
    a: i64,
    ts_a: i64,
    b: i64,
    ts_b: i64,
    judged: Option<i64>,
)
    ensures
        ({
            let d = merge_decision(Relation::Duplicate, a, ts_a, b, ts_b, judged);
            &&& d is Supersede
            &&& (d->superseded == a && d->survivor == b) || (d->superseded == b && d->survivor == a)
            &&& ts_a < ts_b ==> d->superseded == a
            &&& ts_b < ts_a ==> d->superseded == b
            &&& ts_a == ts_b ==> d->superseded <= d->survivor
        }),
{
}

/// A supersession retires the row that the judge named, where that row is one of
/// the two and the other is not older; otherwise it retires none.
pub proof fn supersession_needs_time_and_judge_to_agree(
    a: i64,
    ts_a: i64,
    b: i64,
    ts_b: i64,
    judged: Option<i64>,
)
    requires
        a != b,
    ensures
        ({
            let d = merge_decision(Relation::Supersede, a, ts_a, b, ts_b, judged);
            &&& judged == Some(a) && ts_a <= ts_b ==> d == (MergeDecision::Supersede {
                superseded: a,
                survivor: b,
            })
            &&& judged == Some(b) && ts_b <= ts_a ==> d == (MergeDecision::Supersede {
                superseded: b,
                survivor: a,
            })
            &&& !(judged == Some(a) && ts_a <= ts_b) && !(judged == Some(b) && ts_b <= ts_a)
                ==> d is Skip
        }),
{
}

/// Contradictions are recorded; complements and neighbours are left alone.
pub proof fn other_relations_retire_nothing(
    relation: Relation,
    a: i64,
    ts_a: i64,
    b: i64,
    ts_b: i64,
    judged: Option<i64>,
)
    ensures
        merge_decision(relation, a, ts_a, b, ts_b, judged) is Contradict <==> relation
            == Relation::Contradiction,
        merge_decision(relation, a, ts_a, b, ts_b, judged) is Leave <==> (relation
            == Relation::Complement || relation == Relation::NoAction),
{
}

// ---------------------------------------------------------------------------
// The ledger: what consolidation reads and writes

/// A row of the log, as far as consolidation reads it.
#[derive(Debug, Clone, Copy, PartialEq, Eq, Structural)]
pub struct LogRow {
    pub id: i64,
    pub ts: i64,
    /// The row that replaced this one; a row without one is live.
    pub superseded_by: Option<i64>,
}

/// A recorded contradiction between two rows, the smaller id first.
#[derive(Debug, Clone, Copy, PartialEq, Eq, Structural)]
pub struct ContradictionEdge {
    pub id_a: i64,
    pub id_b: i64,
    pub audit_id: i64,
}

/// One judged pair.
#[derive(Debug, Clone, PartialEq, Eq)]
pub struct AuditRow {
    pub id: i64,
    pub run_ts: i64,
    pub kp_a: i64,
    pub kp_b: i64,
    /// The bit pattern of the pair's vector distance.
    pub distance: u64,
    pub relation: String,
    pub action: String,
    pub rationale: String,
    pub superseded_id: Option<i64>,
    pub dry_run: bool,
    /// Whether the verdict changed a row or recorded a contradiction.
    pub applied: bool,
}

#[verifier::ext_equal]
pub ghost struct AuditView {
    pub id: i64,
    pub run_ts: i64,
    pub kp_a: i64,
    pub kp_b: i64,
    pub distance: u64,
    pub relation: Seq<char>,
    pub action: Seq<char>,
    pub rationale: Seq<char>,
    pub superseded_id: Option<i64>,
    pub dry_run: bool,
    pub applied: bool,
}

impl View for AuditRow {
    type V = AuditView;

    open spec fn view(&self) -> AuditView {
        AuditView {
            id: self.id,
            run_ts: self.run_ts,
            kp_a: self.kp_a,
            kp_b: self.kp_b,
            distance: self.distance,
            relation: self.relation@,
            action: self.action@,
            rationale: self.rationale@,
            superseded_id: self.superseded_id,
            dry_run: self.dry_run,
            applied: self.applied,
        }
    }
}

/// The rows that a run works on, with the contradictions and the audit.
#[derive(Debug)]
pub struct Ledger {
    pub rows: Vec<LogRow>,
    pub edges: Vec<ContradictionEdge>,
    pub audit: Vec<AuditRow>,
    /// The id of the next audit row.
    pub next_audit_id: i64,
}

#[verifier::ext_equal]
pub ghost struct LedgerView {
    pub rows: Seq<LogRow>,
    pub edges: Seq<ContradictionEdge>,
    pub audit: Seq<AuditView>,
    pub next_audit_id: int,
}

impl View for Ledger {
    type V = LedgerView;

    open spec fn view(&self) -> LedgerView {
        LedgerView {
            rows: self.rows@,
            edges: self.edges@,
            audit: self.audit@.map_values(|r: AuditRow| r@),
            next_audit_id: self.next_audit_id as int,
        }
    }
}

/// Where the row with this id stands.
pub open spec fn row_at(rows: Seq<LogRow>, id: i64) -> Option<int>
    decreases rows.len(),
{
    if rows.len() == 0 {
        None
    } else if rows.last().id == id {
        Some(rows.len() - 1)
    } else {
        row_at(rows.drop_last(), id)
    }
}

/// The row with this id.
pub open spec fn row_of(rows: Seq<LogRow>, id: i64) -> Option<LogRow> {
    match row_at(rows, id) {
        Some(i) => Some(rows[i]),
        None => None,
    }
}

/// There is a row with this id, and nothing replaced it.
pub open spec fn is_live(rows: Seq<LogRow>, id: i64) -> bool {
    row_of(rows, id) is Some && row_of(rows, id)->0.superseded_by is None
}

/// A contradiction between these two, in this order, is recorded.
pub open spec fn has_edge(edges: Seq<ContradictionEdge>, lo: i64, hi: i64) -> bool {
    exists|i: int| 0 <= i < edges.len() && (#[trigger] edges[i]).id_a == lo && edges[i].id_b == hi
}

proof fn row_at_is_row(rows: Seq<LogRow>, id: i64)
    ensures
        match row_at(rows, id) {
            Some(i) => 0 <= i < rows.len() && rows[i].id == id,
            None => forall|i: int| 0 <= i < rows.len() ==> (#[trigger] rows[i]).id != id,
        },
    decreases rows.len(),
{
    if rows.len() > 0 && rows.last().id != id {
        row_at_is_row(rows.drop_last(), id);
        assert forall|i: int| row_at(rows, id) is None && 0 <= i < rows.len() implies (
        #[trigger] rows[i]).id != id by {
            if i < rows.len() - 1 {
                assert(rows.drop_last()[i] == rows[i]);
            }
        }
    }
}

/// What applying a verdict does.
#[verifier::ext_equal]
pub ghost enum Outcome {
    /// `superseded` now points at `survivor`.
    Retire { superseded: i64, survivor: i64 },
    /// A contradiction is recorded, unless it already was.
    Edge { lo: i64, hi: i64 },
    /// Nothing, as the verdict asked for nothing.
    Nothing,
    /// Nothing, for the reason that the marker gives.
    Refused(Seq<char>),
}

/// What applying a verdict on `a` and `b` does. Without both rows it does
/// nothing, and a row is retired only while both it and the row that it is to
/// point at are live.
pub open spec fn outcome(
    rows: Seq<LogRow>,
    a: i64,
    b: i64,
    relation: Relation,
    judged: Option<i64>,
) -> Outcome {
    match (row_of(rows, a), row_of(rows, b)) {
        (Some(ra), Some(rb)) => match merge_decision(relation, a, ra.ts, b, rb.ts, judged) {
            MergeDecision::Leave => Outcome::Nothing,
            MergeDecision::Contradict => if a <= b {
                Outcome::Edge { lo: a, hi: b }
            } else {
                Outcome::Edge { lo: b, hi: a }
            },
            MergeDecision::Skip(marker) => Outcome::Refused(marker@),
            MergeDecision::Supersede { superseded, survivor } => if superseded == survivor {
                Outcome::Refused("[apply skipped: self-merge]"@)
            } else if !is_live(rows, superseded) {
                Outcome::Refused("[apply skipped: loser already superseded]"@)
            } else if !is_live(rows, survivor) {
                Outcome::Refused("[apply skipped: survivor no longer live]"@)
            } else {
                Outcome::Retire { superseded, survivor }
            },
        },
        _ => Outcome::Refused("[apply skipped: KP missing]"@),
    }
}

/// The rows after an outcome.
pub open spec fn rows_after(rows: Seq<LogRow>, o: Outcome) -> Seq<LogRow> {
    match o {
        Outcome::Retire { superseded, survivor } => {
            let i = row_at(rows, superseded)->0;
            rows.update(i, LogRow { superseded_by: Some(survivor), ..rows[i] })
        },
        _ => rows,
    }
}

/// The contradictions after an outcome.
pub open spec fn edges_after(
    edges: Seq<ContradictionEdge>,
    o: Outcome,
    audit_id: i64,
) -> Seq<ContradictionEdge> {
    match o {
        Outcome::Edge { lo, hi } => if has_edge(edges, lo, hi) {
            edges
        } else {
            edges.push(ContradictionEdge { id_a: lo, id_b: hi, audit_id })
        },
        _ => edges,
    }
}

/// Whether an outcome changed anything.
pub open spec fn is_applied(edges: Seq<ContradictionEdge>, o: Outcome) -> bool {
    match o {
        Outcome::Retire { .. } => true,
        Outcome::Edge { lo, hi } => !has_edge(edges, lo, hi),
        _ => false,
    }
}

/// The rationale that the audit keeps: with the marker, where there is one.
pub open spec fn rationale_after(base: Seq<char>, o: Outcome) -> Seq<char> {
    match o {
        Outcome::Refused(marker) => base + " "@ + marker,
        _ => base,
    }
}

fn with_marker(base: &str, marker: &str) -> (r: String)
    ensures
        r@ == base@ + " "@ + marker@,
{
    base.to_owned().concat(" ").concat(marker)
}

impl Ledger {
    /// The position of the row with this id.
    pub fn find_row(&self, id: i64) -> (r: Option<usize>)
        ensures
            match r {
                Some(i) => row_at(self.rows@, id) == Some(i as int) && i < self.rows@.len(),
                None => row_at(self.rows@, id) is None,
            },
    {
        let mut n: usize = self.rows.len();
        assert(self.rows@.take(n as int) =~= self.rows@);
        while n > 0
            invariant
                n <= self.rows@.len(),
                row_at(self.rows@, id) == row_at(self.rows@.take(n as int), id),
            decreases n,
        {
            assert(self.rows@.take(n as int).drop_last() =~= self.rows@.take(n - 1));
            if self.rows[n - 1].id == id {
                return Some(n - 1);
            }
            n -= 1;
        }
        None
    }

    /// Whether a contradiction between these two is recorded.
    pub fn find_edge(&self, lo: i64, hi: i64) -> (r: bool)
        ensures
            r == has_edge(self.edges@, lo, hi),
    {
        let mut i: usize = 0;
        while i < self.edges.len()
            invariant
                i <= self.edges@.len(),
                forall|j: int|
                    0 <= j < i ==> !((#[trigger] self.edges@[j]).id_a == lo && self.edges@[j].id_b
                        == hi),
            decreases self.edges@.len() - i,
        {
            if self.edges[i].id_a == lo && self.edges[i].id_b == hi {
                return true;
            }
            i += 1;
        }
        false
    }

    /// Applies one verdict. Gives back whether anything changed, and the
    /// rationale for the audit.
    pub fn apply_verdict(
        &mut self,
        a: i64,
        b: i64,
        audit_id: i64,
        relation: Relation,
        judge_superseded_id: Option<i64>,
        base_rationale: &str,
    ) -> (r: (bool, String))
        ensures
            ({
                let o = outcome(old(self).rows@, a, b, relation, judge_superseded_id);
                &&& final(self).rows@ == rows_after(old(self).rows@, o)
                &&& final(self).edges@ == edges_after(old(self).edges@, o, audit_id)
                &&& final(self).audit@ == old(self).audit@
                &&& final(self).next_audit_id == old(self).next_audit_id
                &&& r.0 == is_applied(old(self).edges@, o)
                &&& r.1@ == rationale_after(base_rationale@, o)
            }),
    {
        let (ia, ib) = match (self.find_row(a), self.find_row(b)) {
            (Some(ia), Some(ib)) => (ia, ib),
            _ => return (false, with_marker(base_rationale, "[apply skipped: KP missing]")),
        };
        let decision = decide_merge(
            relation,
            a,
            self.rows[ia].ts,
            b,
            self.rows[ib].ts,
            judge_superseded_id,
        );
        match decision {
            MergeDecision::Leave => (false, base_rationale.to_owned()),
            MergeDecision::Contradict => {
                let (lo, hi) = if a <= b {
                    (a, b)
                } else {
                    (b, a)
                };
                if self.find_edge(lo, hi) {
                    return (false, base_rationale.to_owned());
                }
                self.edges.push(ContradictionEdge { id_a: lo, id_b: hi, audit_id });
                (true, base_rationale.to_owned())
            },
            MergeDecision::Skip(marker) => (false, with_marker(base_rationale, marker)),
            MergeDecision::Supersede { superseded, survivor } => {
                if superseded == survivor {
                    return (false, with_marker(base_rationale, "[apply skipped: self-merge]"));
                }
                let (loser, winner) = if superseded == a {
                    (ia, ib)
                } else {
                    (ib, ia)
                };
                if self.rows[loser].superseded_by.is_some() {
                    return (
                        false,
                        with_marker(base_rationale, "[apply skipped: loser already superseded]"),
                    );
                }
                if self.rows[winner].superseded_by.is_some() {
                    return (
                        false,
                        with_marker(base_rationale, "[apply skipped: survivor no longer live]"),
                    );
                }
                let old_row = self.rows[loser];
                self.rows.set(
                    loser,
                    LogRow { id: old_row.id, ts: old_row.ts, superseded_by: Some(survivor) },
                );
                (true, base_rationale.to_owned())
            },
        }
    }
}

/// A verdict, or the reason why there is none.
pub open spec fn result_view(v: Result<JudgeVerdict, String>) -> Result<VerdictView, Seq<char>> {
    match v {
        Ok(x) => Ok(x@),
        Err(m) => Err(m@),
    }
}

/// What a pair's verdict does to the rows: nothing in a dry run or without a
/// verdict.
pub open spec fn pair_outcome(
    rows: Seq<LogRow>,
    a: i64,
    b: i64,
    verdict: Result<VerdictView, Seq<char>>,
    dry_run: bool,
) -> Outcome {
    match verdict {
        Ok(v) => if dry_run {
            Outcome::Nothing
        } else {
            outcome(rows, a, b, v.relation, v.superseded_id)
        },
        Err(_) => Outcome::Nothing,
    }
}

/// The audit row of a pair.
pub open spec fn pair_audit(
    l: LedgerView,
    run_ts: i64,
    a: i64,
    b: i64,
    distance: u64,
    verdict: Result<VerdictView, Seq<char>>,
    dry_run: bool,
) -> AuditView {
    let o = pair_outcome(l.rows, a, b, verdict, dry_run);
    AuditView {
        id: l.next_audit_id as i64,
        run_ts,
        kp_a: a,
        kp_b: b,
        distance,
        relation: match verdict {
            Ok(v) => relation_name(v.relation),
            Err(_) => "error"@,
        },
        action: match verdict {
            Ok(v) => action_name(v.relation),
            Err(_) => "error"@,
        },
        rationale: match verdict {
            Ok(v) => rationale_after(v.rationale, o),
            Err(m) => m,
        },
        superseded_id: match verdict {
            Ok(v) => v.superseded_id,
            Err(_) => None,
        },
        dry_run,
        applied: is_applied(l.edges, o),
    }
}

/// The ledger after one judged pair: exactly one audit row more, and what its
/// verdict asked for.
pub open spec fn after_pair(
    l: LedgerView,
    run_ts: i64,
    a: i64,
    b: i64,
    distance: u64,
    verdict: Result<VerdictView, Seq<char>>,
    dry_run: bool,
) -> LedgerView {
    let o = pair_outcome(l.rows, a, b, verdict, dry_run);
    LedgerView {
        rows: rows_after(l.rows, o),
        edges: edges_after(l.edges, o, l.next_audit_id as i64),
        audit: l.audit.push(pair_audit(l, run_ts, a, b, distance, verdict, dry_run)),
        next_audit_id: l.next_audit_id + 1,
    }
}

impl Ledger {
    /// Audits one judged pair and, unless this is a dry run or the judging
    /// failed, applies the verdict.
    pub fn consolidate_pair(
        &mut self,
        run_ts: i64,
        a: i64,
        b: i64,
        distance: u64,
        verdict: Result<JudgeVerdict, String>,
        dry_run: bool,
    )
        requires
            old(self).next_audit_id < i64::MAX,
        ensures
            final(self)@ == after_pair(
                old(self)@,
                run_ts,
                a,
                b,
                distance,
                result_view(verdict),
                dry_run,
            ),
    {
        let id: i64 = self.next_audit_id;
        let ghost before = self@;
        let row = match verdict {
            Ok(v) => {
                let (applied, rationale) = if dry_run {
                    (false, v.rationale.clone())
                } else {
                    self.apply_verdict(
                        a,
                        b,
                        id,
                        v.relation,
                        v.superseded_id,
                        v.rationale.as_str(),
                    )
                };
                AuditRow {
                    id,
                    run_ts,
                    kp_a: a,
                    kp_b: b,
                    distance,
                    relation: v.relation.as_str().to_owned(),
                    action: v.relation.intent_action().to_owned(),
                    rationale,
                    superseded_id: v.superseded_id,
                    dry_run,
                    applied,
                }
            },
            Err(reason) => AuditRow {
                id,
                run_ts,
                kp_a: a,
                kp_b: b,
                distance,
                relation: "error".to_owned(),
                action: "error".to_owned(),
                rationale: reason,
                superseded_id: None,
                dry_run,
                applied: false,
            },
        };
        self.audit.push(row);
        self.next_audit_id = id + 1;
        assert(self@.audit =~= before.audit.push(row@));
    }
}

// ---------------------------------------------------------------------------
// A run over all judged pairs

/// A judged pair, on its way into the ledger.
#[derive(Debug)]
pub struct PairResult {
    pub a: i64,
    pub b: i64,
    pub distance: u64,
    pub verdict: Result<JudgeVerdict, String>,
}

/// `x` comes before `y`: by the first id, then by the second.
pub open spec fn pair_before(x: PairResult, y: PairResult) -> bool {
    x.a < y.a || (x.a == y.a && x.b < y.b)
}

fn comes_before(x: &PairResult, y: &PairResult) -> (r: bool)
    ensures
        r == pair_before(*x, *y),
{
    x.a < y.a || (x.a == y.a && x.b < y.b)
}

/// How many of the leading results come before `x`.
pub open spec fn place_for(sorted: Seq<PairResult>, x: PairResult) -> int
    decreases sorted.len(),
{
    if sorted.len() > 0 && pair_before(sorted[0], x) {
        1 + place_for(sorted.skip(1), x)
    } else {
        0
    }
}

/// The results ordered by their ids; equals keep their order.
pub open spec fn in_order(results: Seq<PairResult>) -> Seq<PairResult>
    decreases results.len(),
{
    if results.len() == 0 {
        Seq::empty()
    } else {
        let rest = in_order(results.skip(1));
        rest.insert(place_for(rest, results[0]), results[0])
    }
}

proof fn place_for_bounds(sorted: Seq<PairResult>, x: PairResult)
    ensures
        0 <= place_for(sorted, x) <= sorted.len(),
        forall|i: int| 0 <= i < place_for(sorted, x) ==> pair_before(#[trigger] sorted[i], x),
        place_for(sorted, x) < sorted.len() ==> !pair_before(sorted[place_for(sorted, x)], x),
    decreases sorted.len(),
{
    if sorted.len() > 0 && pair_before(sorted[0], x) {
        let rest = sorted.skip(1);
        place_for_bounds(rest, x);
        assert forall|i: int| 0 <= i < place_for(sorted, x) implies pair_before(
            #[trigger] sorted[i],
            x,
        ) by {
            if i > 0 {
                assert(rest[i - 1] == sorted[i]);
            }
        }
    }
}

/// No later result comes before an earlier one.
pub open spec fn is_ordered(results: Seq<PairResult>) -> bool {
    forall|i: int, j: int|
        0 <= i < j < results.len() ==> !pair_before(#[trigger] results[j], #[trigger] results[i])
}

/// Ordering the results puts none out of place, drops none and adds none.
pub proof fn ordering_is_a_sort(results: Seq<PairResult>)
    ensures
        is_ordered(in_order(results)),
        in_order(results).to_multiset() == results.to_multiset(),
    decreases results.len(),
{
    broadcast use vstd::seq_lib::group_to_multiset_ensures;

    if results.len() > 0 {
        let x = results[0];
        let rest = in_order(results.skip(1));
        ordering_is_a_sort(results.skip(1));
        place_for_bounds(rest, x);
        let p = place_for(rest, x);
        let all = rest.insert(p, x);
        assert forall|i: int, j: int| 0 <= i < j < all.len() implies !pair_before(
            #[trigger] all[j],
            #[trigger] all[i],
        ) by {
            let oi = if i < p {
                i
            } else {
                i - 1
            };
            let oj = if j < p {
                j
            } else {
                j - 1
            };
            if i != p && j != p {
                assert(all[i] == rest[oi] && all[j] == rest[oj]);
            } else if i == p {
                assert(all[j] == rest[oj]);
                if oj > p {
                    assert(!pair_before(rest[oj], rest[p]));
                }
            } else {
                assert(all[i] == rest[oi]);
                assert(pair_before(rest[oi], x));
            }
        }
        vstd::seq_lib::to_multiset_insert(rest, p, x);
        vstd::seq_lib::to_multiset_insert(results.skip(1), 0, x);
        assert(results.skip(1).insert(0, x) =~= results);
    } else {
        assert(in_order(results) =~= results);
    }
}

/// The ledger after the results, taken in the order given.
pub open spec fn after_results(
    l: LedgerView,
    run_ts: i64,
    results: Seq<PairResult>,
    dry_run: bool,
) -> LedgerView
    decreases results.len(),
{
    if results.len() == 0 {
        l
    } else {
        let r = results.last();
        after_pair(
            after_results(l, run_ts, results.drop_last(), dry_run),
            run_ts,
            r.a,
            r.b,
            r.distance,
            result_view(r.verdict),
            dry_run,
        )
    }
}

proof fn after_results_counts(
    l: LedgerView,
    run_ts: i64,
    results: Seq<PairResult>,
    dry_run: bool,
)
    ensures
        after_results(l, run_ts, results, dry_run).next_audit_id == l.next_audit_id + results.len(),
        after_results(l, run_ts, results, dry_run).audit.len() == l.audit.len() + results.len(),
    decreases results.len(),
{
    if results.len() > 0 {
        after_results_counts(l, run_ts, results.drop_last(), dry_run);
    }
}

proof fn in_order_len(results: Seq<PairResult>)
    ensures
        in_order(results).len() == results.len(),
    decreases results.len(),
{
    if results.len() > 0 {
        in_order_len(results.skip(1));
        place_for_bounds(in_order(results.skip(1)), results[0]);
    }
}

fn sort_results(results: Vec<PairResult>) -> (r: Vec<PairResult>)
    ensures
        r@ == in_order(results@),
{
    let ghost all = results@;
    let mut left = results;
    let mut sorted: Vec<PairResult> = Vec::new();
    assert(all.skip(all.len() as int) =~= Seq::empty());
    loop
        invariant
            left@.len() <= all.len(),
            left@ == all.take(left@.len() as int),
            sorted@ == in_order(all.skip(left@.len() as int)),
            sorted@.len() == all.len() - left@.len(),
        ensures
            left@.len() == 0,
        decreases left@.len(),
    {
        let ghost n = left@.len() as int;
        match left.pop() {
            None => break,
            Some(x) => {
                let mut p: usize = 0;
                let ghost before = sorted@;
                assert(before.skip(0) =~= before);
                while p < sorted.len() && comes_before(&sorted[p], &x)
                    invariant
                        p <= sorted@.len(),
                        sorted@ == before,
                        place_for(before, x) == p + place_for(before.skip(p as int), x),
                    decreases sorted@.len() - p,
                {
                    assert(before.skip(p as int).skip(1) =~= before.skip(p + 1));
                    p += 1;
                }
                sorted.insert(p, x);
                proof {
                    assert(left@ =~= all.take(n - 1));
                    assert(x == all[n - 1]);
                    let rest = all.skip(n - 1);
                    assert(rest.skip(1) =~= all.skip(n));
                    assert(rest[0] == x);
                }
            },
        }
    }
    assert(all.skip(0) =~= all);
    sorted
}

impl Ledger {
    /// Takes all judged pairs into the ledger, ordered by their ids so that a
    /// run does not depend on which judge call came back first. Gives back how
    /// many audit rows were written.
    pub fn apply_results(
        &mut self,
        run_ts: i64,
        results: Vec<PairResult>,
        dry_run: bool,
    ) -> (written: usize)
        requires
            old(self).next_audit_id + results@.len() <= i64::MAX,
        ensures
            final(self)@ == after_results(old(self)@, run_ts, in_order(results@), dry_run),
            written == results@.len(),
    {
        proof {
            in_order_len(results@);
        }
        let mut left = sort_results(results);
        let ghost order = in_order(results@);
        let ghost start = self@;
        let mut written: usize = 0;
        let total: usize = left.len();
        assert(order.take(0) =~= Seq::empty());
        assert(order.skip(0) =~= order);
        while left.len() > 0
            invariant
                order.len() == total,
                written + left@.len() == order.len(),
                left@ == order.skip(written as int),
                start.next_audit_id + order.len() <= i64::MAX,
                self@ == after_results(start, run_ts, order.take(written as int), dry_run),
            decreases left@.len(),
        {
            proof {
                after_results_counts(start, run_ts, order.take(written as int), dry_run);
            }
            let r = left.remove(0);
            assert(r == order[written as int]);
            assert(order.take(written + 1).drop_last() =~= order.take(written as int));
            assert(left@ =~= order.skip(written + 1));
            self.consolidate_pair(run_ts, r.a, r.b, r.distance, r.verdict, dry_run);
            written += 1;
        }
        assert(order.take(written as int) =~= order);
        written
    }
}

// ---------------------------------------------------------------------------
// Laws of the ledger

/// A retired row keeps the row that it first came to point at, and no row ever
/// loses or changes its id and its time: the first survivor wins.
pub proof fn first_survivor_wins(
    l: LedgerView,
    run_ts: i64,
    results: Seq<PairResult>,
    dry_run: bool,
)
    ensures
        ({
            let after = after_results(l, run_ts, results, dry_run);
            &&& after.rows.len() == l.rows.len()
            &&& forall|i: int|
                0 <= i < l.rows.len() ==> {
                    &&& (#[trigger] after.rows[i]).id == l.rows[i].id
                    &&& after.rows[i].ts == l.rows[i].ts
                    &&& l.rows[i].superseded_by is Some ==> after.rows[i] == l.rows[i]
                }
        }),
    decreases results.len(),
{
    if results.len() > 0 {
        first_survivor_wins(l, run_ts, results.drop_last(), dry_run);
        let mid = after_results(l, run_ts, results.drop_last(), dry_run);
        let r = results.last();
        let o = pair_outcome(mid.rows, r.a, r.b, result_view(r.verdict), dry_run);
        if let Outcome::Retire { superseded, survivor } = o {
            row_at_is_row(mid.rows, superseded);
        }
    }
}

/// Only a duplicate or a supersession retires a row; what is retired and what
/// stays are the two rows of the pair, and both were live until then.
pub proof fn only_live_pairs_merge(
    rows: Seq<LogRow>,
    a: i64,
    b: i64,
    relation: Relation,
    judged: Option<i64>,
)
    ensures
        outcome(rows, a, b, relation, judged) matches Outcome::Retire { superseded, survivor } ==> {
            &&& relation == Relation::Duplicate || relation == Relation::Supersede
            &&& superseded == a && survivor == b || superseded == b && survivor == a
            &&& superseded != survivor
            &&& is_live(rows, superseded)
            &&& is_live(rows, survivor)
        },
        relation != Relation::Duplicate && relation != Relation::Supersede ==> rows_after(
            rows,
            outcome(rows, a, b, relation, judged),
        ) == rows,
{
}

/// A duplicate of two different live rows that is applied leaves exactly one of
/// them live: the older points at the newer, and no other row changes.
pub proof fn applied_duplicate_leaves_one_live(
    l: LedgerView,
    run_ts: i64,
    a: i64,
    b: i64,
    distance: u64,
    rationale: Seq<char>,
    judged: Option<i64>,
)
    requires
        ids_are_distinct(l.rows),
        a != b,
        is_live(l.rows, a),
        is_live(l.rows, b),
    ensures
        ({
            let verdict: Result<VerdictView, Seq<char>> = Ok(
                VerdictView { relation: Relation::Duplicate, rationale, superseded_id: judged },
            );
            let after = after_pair(l, run_ts, a, b, distance, verdict, false);
            let ts_a = row_of(l.rows, a)->0.ts;
            let ts_b = row_of(l.rows, b)->0.ts;
            let (older, newer) = if ts_a < ts_b || (ts_a == ts_b && a < b) {
                (a, b)
            } else {
                (b, a)
            };
            &&& after.rows.len() == l.rows.len()
            &&& row_of(after.rows, older) is Some
            &&& row_of(after.rows, older)->0.superseded_by == Some(newer)
            &&& is_live(after.rows, newer)
            &&& !is_live(after.rows, older)
            &&& after.audit.last().applied
            &&& forall|i: int|
                0 <= i < l.rows.len() && l.rows[i].id != older ==> #[trigger] after.rows[i]
                    == l.rows[i]
        }),
{
    let verdict: Result<VerdictView, Seq<char>> = Ok(
        VerdictView { relation: Relation::Duplicate, rationale, superseded_id: judged },
    );
    let after = after_pair(l, run_ts, a, b, distance, verdict, false);
    let ts_a = row_of(l.rows, a)->0.ts;
    let ts_b = row_of(l.rows, b)->0.ts;
    let (older, newer) = if ts_a < ts_b || (ts_a == ts_b && a < b) {
        (a, b)
    } else {
        (b, a)
    };
    row_at_is_row(l.rows, older);
    row_at_is_row(l.rows, newer);
    let i = row_at(l.rows, older)->0;
    assert forall|k: int| 0 <= k < l.rows.len() implies (#[trigger] after.rows[k]).id
        == l.rows[k].id by {}
    same_ids_same_places(l.rows, after.rows, older);
    same_ids_same_places(l.rows, after.rows, newer);
    assert(after.rows[i].superseded_by == Some(newer));
}

/// A supersession whose judge named the older of two live rows retires that row when
/// it is applied: it points at the other, which stays, and no other row changes.
pub proof fn applied_supersession_retires_the_named_row(
    l: LedgerView,
    run_ts: i64,
    older: i64,
    newer: i64,
    distance: u64,
    rationale: Seq<char>,
    named_first: bool,
)
    requires
        ids_are_distinct(l.rows),
        older != newer,
        is_live(l.rows, older),
        is_live(l.rows, newer),
        row_of(l.rows, older)->0.ts <= row_of(l.rows, newer)->0.ts,
    ensures
        ({
            let verdict: Result<VerdictView, Seq<char>> = Ok(
                VerdictView {
                    relation: Relation::Supersede,
                    rationale,
                    superseded_id: Some(older),
                },
            );
            let (a, b) = if named_first {
                (older, newer)
            } else {
                (newer, older)
            };
            let after = after_pair(l, run_ts, a, b, distance, verdict, false);
            &&& after.rows.len() == l.rows.len()
            &&& row_of(after.rows, older) is Some
            &&& row_of(after.rows, older)->0.superseded_by == Some(newer)
            &&& is_live(after.rows, newer)
            &&& after.audit.last().applied
            &&& forall|i: int|
                0 <= i < l.rows.len() && l.rows[i].id != older ==> #[trigger] after.rows[i]
                    == l.rows[i]
        }),
{
    let verdict: Result<VerdictView, Seq<char>> = Ok(
        VerdictView { relation: Relation::Supersede, rationale, superseded_id: Some(older) },
    );
    let (a, b) = if named_first {
        (older, newer)
    } else {
        (newer, older)
    };
    let after = after_pair(l, run_ts, a, b, distance, verdict, false);
    row_at_is_row(l.rows, older);
    row_at_is_row(l.rows, newer);
    let i = row_at(l.rows, older)->0;
    assert forall|k: int| 0 <= k < l.rows.len() implies (#[trigger] after.rows[k]).id
        == l.rows[k].id by {}
    same_ids_same_places(l.rows, after.rows, older);
    same_ids_same_places(l.rows, after.rows, newer);
    assert(after.rows[i].superseded_by == Some(newer));
}

/// What was asked for and could not be done is told in the audit: the rationale goes
/// on with a space and the reason, and nothing has changed.
pub proof fn refusals_are_told(
    l: LedgerView,
    run_ts: i64,
    a: i64,
    b: i64,
    distance: u64,
    v: VerdictView,
)
    requires
        v.relation == Relation::Duplicate || v.relation == Relation::Supersede,
    ensures
        ({
            let verdict: Result<VerdictView, Seq<char>> = Ok(v);
            let after = after_pair(l, run_ts, a, b, distance, verdict, false);
            let row = after.audit.last();
            &&& !row.applied ==> {
                &&& after.rows == l.rows
                &&& after.edges == l.edges
                &&& row.rationale.len() > v.rationale.len()
                &&& row.rationale[v.rationale.len() as int] == ' '
            }
            &&& row.applied ==> row.rationale == v.rationale
            &&& row.applied ==> is_live(l.rows, a) && is_live(l.rows, b)
        }),
{
    reveal_strlit(" ");
}

/// A contradiction between two rows that exist is recorded when it is applied,
/// the smaller id first, and changes no row.
pub proof fn applied_contradiction_is_recorded(
    l: LedgerView,
    run_ts: i64,
    a: i64,
    b: i64,
    distance: u64,
    rationale: Seq<char>,
    judged: Option<i64>,
)
    requires
        row_of(l.rows, a) is Some,
        row_of(l.rows, b) is Some,
        a < b,
    ensures
        ({
            let verdict: Result<VerdictView, Seq<char>> = Ok(
                VerdictView { relation: Relation::Contradiction, rationale, superseded_id: judged },
            );
            let after = after_pair(l, run_ts, a, b, distance, verdict, false);
            &&& exists|i: int|
                0 <= i < after.edges.len() && (#[trigger] after.edges[i]).id_a == a
                    && after.edges[i].id_b == b
            &&& after.rows == l.rows
            &&& l.edges.is_prefix_of(after.edges)
            &&& after.audit.last().rationale == rationale
        }),
{
    let verdict: Result<VerdictView, Seq<char>> = Ok(
        VerdictView { relation: Relation::Contradiction, rationale, superseded_id: judged },
    );
    let after = after_pair(l, run_ts, a, b, distance, verdict, false);
    if has_edge(l.edges, a, b) {
        let i = choose|i: int|
            0 <= i < l.edges.len() && (#[trigger] l.edges[i]).id_a == a && l.edges[i].id_b == b;
        assert(after.edges[i] == l.edges[i]);
    } else {
        assert(after.edges[l.edges.len() as int].id_a == a);
    }
}

/// The audit keeps the whole of what the judge said: its rationale, with at most
/// a marker behind it, its relation and the row that it named.
pub proof fn audit_keeps_the_verdict(
    l: LedgerView,
    run_ts: i64,
    a: i64,
    b: i64,
    distance: u64,
    v: VerdictView,
    dry_run: bool,
)
    ensures
        ({
            let verdict: Result<VerdictView, Seq<char>> = Ok(v);
            let after = after_pair(l, run_ts, a, b, distance, verdict, dry_run);
            let row = after.audit.last();
            &&& after.audit == l.audit + seq![row]
            &&& row.id == l.next_audit_id as i64
            &&& after.next_audit_id == l.next_audit_id + 1
            &&& row.relation == relation_name(v.relation)
            &&& row.action == action_name(v.relation)
            &&& row.superseded_id == v.superseded_id
            &&& row.kp_a == a && row.kp_b == b && row.distance == distance
            &&& row.run_ts == run_ts && row.dry_run == dry_run
            &&& v.rationale.is_prefix_of(row.rationale)
            &&& dry_run || row.applied ==> row.rationale == v.rationale
            &&& dry_run ==> !row.applied
        }),
{
    let verdict: Result<VerdictView, Seq<char>> = Ok(v);
    let after = after_pair(l, run_ts, a, b, distance, verdict, dry_run);
    assert(after.audit =~= l.audit + seq![after.audit.last()]);
}

/// A dry run changes no row and records no contradiction.
pub proof fn dry_run_changes_nothing(l: LedgerView, run_ts: i64, results: Seq<PairResult>)
    ensures
        after_results(l, run_ts, results, true).rows == l.rows,
        after_results(l, run_ts, results, true).edges == l.edges,
    decreases results.len(),
{
    if results.len() > 0 {
        dry_run_changes_nothing(l, run_ts, results.drop_last());
    }
}

/// A pair without a verdict is audited as an error and changes nothing.
pub proof fn failed_judging_changes_nothing(
    l: LedgerView,
    run_ts: i64,
    a: i64,
    b: i64,
    distance: u64,
    reason: Seq<char>,
    dry_run: bool,
)
    ensures
        ({
            let verdict: Result<VerdictView, Seq<char>> = Err(reason);
            let after = after_pair(l, run_ts, a, b, distance, verdict, dry_run);
            &&& after.rows == l.rows
            &&& after.edges == l.edges
            &&& after.audit.last().relation == "error"@
            &&& after.audit.last().action == "error"@
            &&& after.audit.last().superseded_id is None
            &&& after.audit.last().rationale == reason
            &&& !after.audit.last().applied
        }),
{
}

/// The audit row `row` is that of the result `r`.
pub open spec fn audits(row: AuditView, run_ts: i64, r: PairResult, dry_run: bool) -> bool {
    &&& row.run_ts == run_ts
    &&& row.kp_a == r.a
    &&& row.kp_b == r.b
    &&& row.distance == r.distance
    &&& row.dry_run == dry_run
    &&& row.relation == match r.verdict {
        Ok(v) => relation_name(v.relation),
        Err(_) => "error"@,
    }
}

/// Every result leaves exactly one audit row, errors included, after those that
/// were there.
pub proof fn every_result_is_audited(
    l: LedgerView,
    run_ts: i64,
    results: Seq<PairResult>,
    dry_run: bool,
)
    ensures
        after_results(l, run_ts, results, dry_run).audit.len() == l.audit.len() + results.len(),
        l.audit.is_prefix_of(after_results(l, run_ts, results, dry_run).audit),
        forall|i: int|
            0 <= i < results.len() ==> audits(
                #[trigger] after_results(l, run_ts, results, dry_run).audit[l.audit.len() + i],
                run_ts,
                results[i],
                dry_run,
            ),
    decreases results.len(),
{
    if results.len() > 0 {
        every_result_is_audited(l, run_ts, results.drop_last(), dry_run);
        after_results_counts(l, run_ts, results.drop_last(), dry_run);
        let mid = after_results(l, run_ts, results.drop_last(), dry_run);
        let after = after_results(l, run_ts, results, dry_run);
        assert forall|i: int| 0 <= i < results.len() implies audits(
            #[trigger] after.audit[l.audit.len() + i],
            run_ts,
            results[i],
            dry_run,
        ) by {
            if i < results.len() - 1 {
                assert(after.audit[l.audit.len() + i] == mid.audit[l.audit.len() + i]);
                assert(results.drop_last()[i] == results[i]);
            }
        }
    }
}

/// The audit says `applied` exactly when a row or the contradictions changed.
pub proof fn applied_means_changed(
    l: LedgerView,
    run_ts: i64,
    a: i64,
    b: i64,
    distance: u64,
    verdict: Result<VerdictView, Seq<char>>,
    dry_run: bool,
)
    ensures
        ({
            let after = after_pair(l, run_ts, a, b, distance, verdict, dry_run);
            after.audit.last().applied == (after.rows != l.rows || after.edges != l.edges)
        }),
{
    let o = pair_outcome(l.rows, a, b, verdict, dry_run);
    let after = after_pair(l, run_ts, a, b, distance, verdict, dry_run);
    match o {
        Outcome::Retire { superseded, survivor } => {
            row_at_is_row(l.rows, superseded);
            let i = row_at(l.rows, superseded)->0;
            assert(after.rows[i] != l.rows[i]);
        },
        Outcome::Edge { lo, hi } => {
            if !has_edge(l.edges, lo, hi) {
                assert(after.edges.len() == l.edges.len() + 1);
            }
        },
        _ => {},
    }
}

/// Each contradiction is recorded once, the smaller id first.
pub open spec fn edges_are_distinct(edges: Seq<ContradictionEdge>) -> bool {
    &&& forall|i: int| 0 <= i < edges.len() ==> (#[trigger] edges[i]).id_a <= edges[i].id_b
    &&& forall|i: int, j: int|
        0 <= i < j < edges.len() ==> ((#[trigger] edges[i]).id_a, edges[i].id_b) != ((
        #[trigger] edges[j]).id_a, edges[j].id_b)
}

/// A run records each contradiction once, the smaller id first, and takes none
/// back.
pub proof fn contradictions_are_recorded_once(
    l: LedgerView,
    run_ts: i64,
    results: Seq<PairResult>,
    dry_run: bool,
)
    requires
        edges_are_distinct(l.edges),
    ensures
        edges_are_distinct(after_results(l, run_ts, results, dry_run).edges),
        l.edges.is_prefix_of(after_results(l, run_ts, results, dry_run).edges),
    decreases results.len(),
{
    if results.len() > 0 {
        contradictions_are_recorded_once(l, run_ts, results.drop_last(), dry_run);
    }
}

/// Every contradiction joins two rows that exist.
pub open spec fn edges_join_rows(l: LedgerView) -> bool {
    forall|i: int|
        0 <= i < l.edges.len() ==> row_at(l.rows, (#[trigger] l.edges[i]).id_a) is Some && row_at(
            l.rows,
            l.edges[i].id_b,
        ) is Some
}

/// Rows with the same ids have each id at the same place.
proof fn same_ids_same_places(a: Seq<LogRow>, b: Seq<LogRow>, id: i64)
    requires
        a.len() == b.len(),
        forall|i: int| 0 <= i < a.len() ==> (#[trigger] b[i]).id == a[i].id,
    ensures
        row_at(a, id) == row_at(b, id),
    decreases a.len(),
{
    if a.len() > 0 {
        assert(b[b.len() - 1].id == a[a.len() - 1].id);
        assert forall|i: int| 0 <= i < a.drop_last().len() implies (
        #[trigger] b.drop_last()[i]).id == a.drop_last()[i].id by {
            assert(b[i].id == a[i].id);
        }
        same_ids_same_places(a.drop_last(), b.drop_last(), id);
    }
}

/// A run records contradictions between rows that exist, and no others: a
/// verdict on a row that is not there records none.
pub proof fn contradictions_join_rows(
    l: LedgerView,
    run_ts: i64,
    results: Seq<PairResult>,
    dry_run: bool,
)
    requires
        edges_join_rows(l),
    ensures
        edges_join_rows(after_results(l, run_ts, results, dry_run)),
    decreases results.len(),
{
    if results.len() > 0 {
        let init = results.drop_last();
        contradictions_join_rows(l, run_ts, init, dry_run);
        let mid = after_results(l, run_ts, init, dry_run);
        let after = after_results(l, run_ts, results, dry_run);
        first_survivor_wins(l, run_ts, init, dry_run);
        first_survivor_wins(l, run_ts, results, dry_run);
        assert forall|i: int| 0 <= i < after.edges.len() implies row_at(
            after.rows,
            (#[trigger] after.edges[i]).id_a,
        ) is Some && row_at(after.rows, after.edges[i].id_b) is Some by {
            assert forall|k: int| 0 <= k < mid.rows.len() implies (#[trigger] after.rows[k]).id
                == mid.rows[k].id by {}
            same_ids_same_places(mid.rows, after.rows, after.edges[i].id_a);
            same_ids_same_places(mid.rows, after.rows, after.edges[i].id_b);
            if i < mid.edges.len() {
                assert(after.edges[i] == mid.edges[i]);
            }
        }
    }
}

/// Each row has its own id.
pub open spec fn ids_are_distinct(rows: Seq<LogRow>) -> bool {
    forall|i: int, j: int|
        0 <= i < j < rows.len() ==> (#[trigger] rows[i]).id != (#[trigger] rows[j]).id
}

/// `time` orders retirements: a retired row points at a live row, or at one
/// that was retired later.
pub open spec fn is_history(rows: Seq<LogRow>, time: spec_fn(i64) -> nat) -> bool {
    forall|i: int|
        0 <= i < rows.len() && (#[trigger] rows[i]).superseded_by is Some ==> {
            let target = rows[i].superseded_by->0;
            is_live(rows, target) || (row_at(rows, target) is Some && time(rows[i].id) < time(
                target,
            ))
        }
}

/// Every retired row points at a row that exists, and no chain of such pointers
/// leads back to where it began: some order of retirements explains them all.
pub open spec fn is_sound(rows: Seq<LogRow>) -> bool {
    &&& ids_are_distinct(rows)
    &&& exists|time: spec_fn(i64) -> nat| #[trigger] is_history(rows, time)
}

/// The largest time of the rows, plus one.
spec fn after_all(rows: Seq<LogRow>, time: spec_fn(i64) -> nat) -> nat
    decreases rows.len(),
{
    if rows.len() == 0 {
        0
    } else {
        let before = after_all(rows.drop_last(), time);
        let t = time(rows.last().id) + 1;
        if t > before {
            t
        } else {
            before
        }
    }
}

proof fn after_all_is_after(rows: Seq<LogRow>, time: spec_fn(i64) -> nat, i: int)
    requires
        0 <= i < rows.len(),
    ensures
        time(rows[i].id) < after_all(rows, time),
    decreases rows.len(),
{
    if i < rows.len() - 1 {
        after_all_is_after(rows.drop_last(), time, i);
    }
}

proof fn row_at_unique(rows: Seq<LogRow>, i: int)
    requires
        ids_are_distinct(rows),
        0 <= i < rows.len(),
    ensures
        row_at(rows, rows[i].id) == Some(i),
{
    row_at_is_row(rows, rows[i].id);
    let j = row_at(rows, rows[i].id)->0;
    if j < i {
        assert(rows[j].id != rows[i].id);
    } else if i < j {
        assert(rows[i].id != rows[j].id);
    }
}

/// Applying a verdict keeps the rows sound: nothing dangles and nothing loops.
pub proof fn applying_keeps_rows_sound(
    rows: Seq<LogRow>,
    a: i64,
    b: i64,
    relation: Relation,
    judged: Option<i64>,
)
    requires
        is_sound(rows),
    ensures
        is_sound(rows_after(rows, outcome(rows, a, b, relation, judged))),
{
    let o = outcome(rows, a, b, relation, judged);
    let after = rows_after(rows, o);
    if let Outcome::Retire { superseded, survivor } = o {
        let time = choose|time: spec_fn(i64) -> nat| #[trigger] is_history(rows, time);
        row_at_is_row(rows, superseded);
        row_at_is_row(rows, survivor);
        let x = row_at(rows, superseded)->0;
        let y = row_at(rows, survivor)->0;
        let late = after_all(rows, time);
        let time2 = |id: i64|
            if id == superseded {
                late
            } else {
                time(id)
            };
        assert(ids_are_distinct(after)) by {
            assert forall|i: int, j: int| 0 <= i < j < after.len() implies (
            #[trigger] after[i]).id != (#[trigger] after[j]).id by {
                assert(after[i].id == rows[i].id);
                assert(after[j].id == rows[j].id);
            }
        }
        assert forall|i: int|
            0 <= i < after.len() && (#[trigger] after[i]).superseded_by is Some implies {
            let target = after[i].superseded_by->0;
            is_live(after, target) || (row_at(after, target) is Some && time2(after[i].id) < time2(
                target,
            ))
        } by {
            let target = after[i].superseded_by->0;
            if i == x {
                row_at_unique(after, y);
                assert(after[y] == rows[y]);
            } else {
                assert(after[i] == rows[i]);
                row_at_is_row(rows, target);
                let t = row_at(rows, target)->0;
                assert(row_at(rows, target) is Some);
                assert(after[t].id == target);
                row_at_unique(after, t);
                row_at_unique(rows, t);
                row_at_unique(rows, i);
                after_all_is_after(rows, time, i);
                if t == x {
                    assert(time2(target) == late);
                    assert(rows[i].id != superseded) by {
                        if i < x {
                            assert(rows[i].id != rows[x].id);
                        } else {
                            assert(rows[x].id != rows[i].id);
                        }
                    }
                } else {
                    assert(after[t] == rows[t]);
                    assert(target != superseded);
                    assert(rows[i].id != superseded) by {
                        if i < x {
                            assert(rows[i].id != rows[x].id);
                        } else {
                            assert(rows[x].id != rows[i].id);
                        }
                    }
                }
            }
        }
        assert(is_history(after, time2));
    }
}

/// A run keeps the rows sound.
pub proof fn runs_keep_rows_sound(
    l: LedgerView,
    run_ts: i64,
    results: Seq<PairResult>,
    dry_run: bool,
)
    requires
        is_sound(l.rows),
    ensures
        is_sound(after_results(l, run_ts, results, dry_run).rows),
    decreases results.len(),
{
    if results.len() > 0 {
        runs_keep_rows_sound(l, run_ts, results.drop_last(), dry_run);
        let mid = after_results(l, run_ts, results.drop_last(), dry_run);
        let r = results.last();
        match result_view(r.verdict) {
            Ok(v) => {
                applying_keeps_rows_sound(mid.rows, r.a, r.b, v.relation, v.superseded_id);
            },
            Err(_) => {},
        }
    }
}

/// The row that is reached from `id` by following `n` pointers.
pub open spec fn follow(rows: Seq<LogRow>, id: i64, n: nat) -> Option<i64>
    decreases n,
{
    if n == 0 {
        Some(id)
    } else {
        match row_of(rows, id) {
            Some(r) => match r.superseded_by {
                Some(next) => follow(rows, next, (n - 1) as nat),
                None => None,
            },
            None => None,
        }
    }
}

proof fn follow_goes_forward(rows: Seq<LogRow>, time: spec_fn(i64) -> nat, id: i64, n: nat)
    requires
        is_history(rows, time),
        n > 0,
        follow(rows, id, n) is Some,
    ensures
        ({
            let end = follow(rows, id, n)->0;
            is_live(rows, end) || time(id) < time(end)
        }),
        row_of(rows, id) is Some,
        row_of(rows, id)->0.superseded_by is Some,
    decreases n,
{
    row_at_is_row(rows, id);
    let r = row_of(rows, id)->0;
    let next = r.superseded_by->0;
    let i = row_at(rows, id)->0;
    assert(rows[i].superseded_by is Some);
    if n > 1 {
        follow_goes_forward(rows, time, next, (n - 1) as nat);
    }
}

/// Among sound rows no chain of replacements comes back to its start.
pub proof fn no_row_replaces_itself(rows: Seq<LogRow>, id: i64, n: nat)
    requires
        is_sound(rows),
        n > 0,
    ensures
        follow(rows, id, n) != Some(id),
{
    if follow(rows, id, n) == Some(id) {
        let time = choose|time: spec_fn(i64) -> nat| #[trigger] is_history(rows, time);
        follow_goes_forward(rows, time, id, n);
    }
}

// ---------------------------------------------------------------------------
// Candidate pairs

/// One neighbour of a live row, as the vector search gave it.
#[derive(Debug, Clone, Copy)]
pub struct Link {
    pub from: i64,
    pub to: i64,
    /// The bit pattern of the distance.
    pub distance: u64,
    /// Whether the distance lies at or beyond the threshold.
    pub far: bool,
}

/// A pair of rows with the smaller id first.
pub open spec fn canonical(a: i64, b: i64) -> (i64, i64) {
    if a <= b {
        (a, b)
    } else {
        (b, a)
    }
}

/// The pair was judged before.
pub open spec fn was_judged(judged: Seq<(i64, i64)>, pair: (i64, i64)) -> bool {
    exists|i: int|
        0 <= i < judged.len() && canonical((#[trigger] judged[i]).0, judged[i].1) == pair
}

/// The pair is among the candidates.
pub open spec fn is_listed(found: Seq<(i64, i64, u64)>, pair: (i64, i64)) -> bool {
    exists|i: int| 0 <= i < found.len() && ((#[trigger] found[i]).0, found[i].1) == pair
}

/// A link makes a candidate: two live rows that are near, not yet judged.
pub open spec fn is_candidate(live: Seq<i64>, judged: Seq<(i64, i64)>, l: Link) -> bool {
    &&& l.from != l.to
    &&& !l.far
    &&& live.contains(l.from)
    &&& live.contains(l.to)
    &&& !was_judged(judged, canonical(l.from, l.to))
}

/// The candidates that the links make, each pair once, with the distance of the
/// first link that gave it.
pub open spec fn candidates(
    live: Seq<i64>,
    judged: Seq<(i64, i64)>,
    links: Seq<Link>,
) -> Seq<(i64, i64, u64)>
    decreases links.len(),
{
    if links.len() == 0 {
        Seq::empty()
    } else {
        let before = candidates(live, judged, links.drop_last());
        let l = links.last();
        let pair = canonical(l.from, l.to);
        if is_candidate(live, judged, l) && !is_listed(before, pair) {
            before.push((pair.0, pair.1, l.distance))
        } else {
            before
        }
    }
}

fn contains_id(ids: &Vec<i64>, id: i64) -> (r: bool)
    ensures
        r == ids@.contains(id),
{
    let mut i: usize = 0;
    while i < ids.len()
        invariant
            i <= ids@.len(),
            forall|j: int| 0 <= j < i ==> ids@[j] != id,
        decreases ids@.len() - i,
    {
        if ids[i] == id {
            return true;
        }
        i += 1;
    }
    false
}

fn judged_before(judged: &Vec<(i64, i64)>, lo: i64, hi: i64) -> (r: bool)
    ensures
        r == was_judged(judged@, (lo, hi)),
{
    let mut i: usize = 0;
    while i < judged.len()
        invariant
            i <= judged@.len(),
            forall|j: int|
                0 <= j < i ==> canonical((#[trigger] judged@[j]).0, judged@[j].1) != (lo, hi),
        decreases judged@.len() - i,
    {
        let (a, b) = judged[i];
        assert(judged@[i as int] == (a, b));
        if (a <= b && a == lo && b == hi) || (a > b && b == lo && a == hi) {
            return true;
        }
        i += 1;
    }
    false
}

fn listed(found: &Vec<(i64, i64, u64)>, lo: i64, hi: i64) -> (r: bool)
    ensures
        r == is_listed(found@, (lo, hi)),
{
    let mut i: usize = 0;
    while i < found.len()
        invariant
            i <= found@.len(),
            forall|j: int| 0 <= j < i ==> ((#[trigger] found@[j]).0, found@[j].1) != (lo, hi),
        decreases found@.len() - i,
    {
        if found[i].0 == lo && found[i].1 == hi {
            return true;
        }
        i += 1;
    }
    false
}

/// The pairs to be judged: near live rows, the smaller id first, each pair
/// once, none that was judged before.
pub fn find_candidates(
    live: &Vec<i64>,
    judged: &Vec<(i64, i64)>,
    links: &Vec<Link>,
) -> (r: Vec<(i64, i64, u64)>)
    ensures
        r@ == candidates(live@, judged@, links@),
{
    let mut out: Vec<(i64, i64, u64)> = Vec::new();
    let mut i: usize = 0;
    while i < links.len()
        invariant
            i <= links@.len(),
            out@ == candidates(live@, judged@, links@.take(i as int)),
        decreases links@.len() - i,
    {
        let l = links[i];
        assert(links@.take(i + 1).drop_last() =~= links@.take(i as int));
        let (lo, hi) = if l.from <= l.to {
            (l.from, l.to)
        } else {
            (l.to, l.from)
        };
        if l.from != l.to && !l.far && contains_id(live, l.from) && contains_id(live, l.to)
            && !judged_before(judged, lo, hi) && !listed(&out, lo, hi) {
            out.push((lo, hi, l.distance));
        }
        i += 1;
    }
    assert(links@.take(i as int) =~= links@);
    out
}

/// Every candidate names two different live rows, the smaller id first, that
/// were not judged before; and no pair is named twice.
pub proof fn candidates_are_fresh_live_pairs(
    live: Seq<i64>,
    judged: Seq<(i64, i64)>,
    links: Seq<Link>,
)
    ensures
        ({
            let found = candidates(live, judged, links);
            &&& forall|i: int|
                0 <= i < found.len() ==> {
                    &&& (#[trigger] found[i]).0 < found[i].1
                    &&& live.contains(found[i].0)
                    &&& live.contains(found[i].1)
                    &&& !was_judged(judged, (found[i].0, found[i].1))
                }
            &&& forall|i: int, j: int|
                0 <= i < j < found.len() ==> ((#[trigger] found[i]).0, found[i].1) != ((
                #[trigger] found[j]).0, found[j].1)
        }),
    decreases links.len(),
{
    if links.len() > 0 {
        candidates_are_fresh_live_pairs(live, judged, links.drop_last());
        let before = candidates(live, judged, links.drop_last());
        let found = candidates(live, judged, links);
        assert forall|i: int, j: int| 0 <= i < j < found.len() implies ((
        #[trigger] found[i]).0, found[i].1) != ((#[trigger] found[j]).0, found[j].1) by {
            if j == before.len() {
                assert(before[i] == found[i]);
            } else {
                assert(before[i] == found[i] && before[j] == found[j]);
            }
        }
    }
}

/// A link that could make a candidate has its pair among them.
proof fn candidates_list_every_pair(
    live: Seq<i64>,
    judged: Seq<(i64, i64)>,
    links: Seq<Link>,
    k: int,
)
    requires
        0 <= k < links.len(),
        is_candidate(live, judged, links[k]),
    ensures
        is_listed(candidates(live, judged, links), canonical(links[k].from, links[k].to)),
    decreases links.len(),
{
    let before = candidates(live, judged, links.drop_last());
    let found = candidates(live, judged, links);
    let pair = canonical(links[k].from, links[k].to);
    if k < links.len() - 1 {
        candidates_list_every_pair(live, judged, links.drop_last(), k);
        let i = choose|i: int|
            0 <= i < before.len() && ((#[trigger] before[i]).0, before[i].1) == pair;
        assert(found[i] == before[i]);
    } else if is_listed(before, pair) {
        let i = choose|i: int|
            0 <= i < before.len() && ((#[trigger] before[i]).0, before[i].1) == pair;
        assert(found[i] == before[i]);
    } else {
        assert((found[before.len() as int].0, found[before.len() as int].1) == pair);
    }
}

/// Every link between two different live rows that are near and were not judged
/// has its pair among the candidates, and every candidate comes from such a
/// link, with that link's distance.
pub proof fn candidates_are_the_near_pairs(
    live: Seq<i64>,
    judged: Seq<(i64, i64)>,
    links: Seq<Link>,
)
    ensures
        forall|k: int|
            0 <= k < links.len() && (#[trigger] links[k]).from != links[k].to && !links[k].far
                && live.contains(links[k].from) && live.contains(links[k].to) && (forall|j: int|
                0 <= j < judged.len() ==> {
                    &&& (#[trigger] judged[j]) != (links[k].from, links[k].to)
                    &&& judged[j] != (links[k].to, links[k].from)
                }) ==> is_listed(
                candidates(live, judged, links),
                if links[k].from <= links[k].to {
                    (links[k].from, links[k].to)
                } else {
                    (links[k].to, links[k].from)
                },
            ),
        forall|i: int|
            0 <= i < candidates(live, judged, links).len() ==> exists|k: int|
                0 <= k < links.len() && comes_from(
                    #[trigger] candidates(live, judged, links)[i],
                    #[trigger] links[k],
                ),
{
    assert forall|k: int|
        0 <= k < links.len() && (#[trigger] links[k]).from != links[k].to && !links[k].far
            && live.contains(links[k].from) && live.contains(links[k].to) && (forall|j: int|
            0 <= j < judged.len() ==> {
                &&& (#[trigger] judged[j]) != (links[k].from, links[k].to)
                &&& judged[j] != (links[k].to, links[k].from)
            }) implies is_listed(
        candidates(live, judged, links),
        if links[k].from <= links[k].to {
            (links[k].from, links[k].to)
        } else {
            (links[k].to, links[k].from)
        },
    ) by {
        let pair = canonical(links[k].from, links[k].to);
        if was_judged(judged, pair) {
            let j = choose|j: int|
                0 <= j < judged.len() && canonical((#[trigger] judged[j]).0, judged[j].1) == pair;
            assert(judged[j] == (links[k].from, links[k].to) || judged[j] == (
                links[k].to,
                links[k].from,
            ));
        }
        candidates_list_every_pair(live, judged, links, k);
    }
    candidates_come_from_links(live, judged, links);
}

/// The candidate is the pair of the link's rows, near and with its distance.
pub open spec fn comes_from(c: (i64, i64, u64), link: Link) -> bool {
    &&& !link.far
    &&& c.2 == link.distance
    &&& (c.0 == link.from && c.1 == link.to) || (c.0 == link.to && c.1 == link.from)
}

proof fn candidates_come_from_links(live: Seq<i64>, judged: Seq<(i64, i64)>, links: Seq<Link>)
    ensures
        forall|i: int|
            0 <= i < candidates(live, judged, links).len() ==> exists|k: int|
                0 <= k < links.len() && comes_from(
                    #[trigger] candidates(live, judged, links)[i],
                    #[trigger] links[k],
                ),
    decreases links.len(),
{
    if links.len() > 0 {
        let init = links.drop_last();
        let before = candidates(live, judged, init);
        let found = candidates(live, judged, links);
        candidates_come_from_links(live, judged, init);
        assert forall|i: int| 0 <= i < found.len() implies exists|k: int|
            0 <= k < links.len() && comes_from(#[trigger] found[i], #[trigger] links[k]) by {
            if i < before.len() {
                assert(found[i] == before[i]);
                let k = choose|k: int|
                    0 <= k < init.len() && comes_from(before[i], #[trigger] init[k]);
                assert(comes_from(found[i], links[k]));
            } else {
                assert(comes_from(found[i], links[links.len() - 1]));
            }
        }
    }
}

/// The pairs without their distances.
pub open spec fn pairs_of(found: Seq<(i64, i64, u64)>) -> Seq<(i64, i64)> {
    found.map_values(|c: (i64, i64, u64)| (c.0, c.1))
}

proof fn no_candidates(live: Seq<i64>, judged: Seq<(i64, i64)>, links: Seq<Link>)
    requires
        forall|k: int| 0 <= k < links.len() ==> !is_candidate(live, judged, #[trigger] links[k]),
    ensures
        candidates(live, judged, links).len() == 0,
    decreases links.len(),
{
    if links.len() > 0 {
        assert forall|k: int| 0 <= k < links.drop_last().len() implies !is_candidate(
            live,
            judged,
            #[trigger] links.drop_last()[k],
        ) by {
            assert(links.drop_last()[k] == links[k]);
        }
        no_candidates(live, judged, links.drop_last());
        assert(!is_candidate(live, judged, links[links.len() - 1]));
    }
}

/// Once its candidates have been judged, the same search finds none: a second
/// run over unchanged rows does nothing.
pub proof fn judged_pairs_do_not_come_back(
    live: Seq<i64>,
    judged: Seq<(i64, i64)>,
    links: Seq<Link>,
)
    ensures
        candidates(live, judged + pairs_of(candidates(live, judged, links)), links).len() == 0,
{
    let found = candidates(live, judged, links);
    let more = judged + pairs_of(found);
    assert forall|k: int| 0 <= k < links.len() implies !is_candidate(
        live,
        more,
        #[trigger] links[k],
    ) by {
        let l = links[k];
        let pair = canonical(l.from, l.to);
        if is_candidate(live, judged, l) {
            candidates_list_every_pair(live, judged, links, k);
            candidates_are_fresh_live_pairs(live, judged, links);
            let i = choose|i: int|
                0 <= i < found.len() && ((#[trigger] found[i]).0, found[i].1) == pair;
            let j = judged.len() + i;
            assert(more[j] == (found[i].0, found[i].1));
            assert(canonical(more[j].0, more[j].1) == pair);
        } else if was_judged(judged, pair) {
            let i = choose|i: int|
                0 <= i < judged.len() && canonical((#[trigger] judged[i]).0, judged[i].1) == pair;
            assert(more[i] == judged[i]);
        }
    }
    no_candidates(live, more, links);
}

/// There is one result for each candidate, in any order.
pub open spec fn answers(results: Seq<PairResult>, found: Seq<(i64, i64, u64)>) -> bool {
    &&& results.len() == found.len()
    &&& forall|i: int|
        0 <= i < results.len() ==> found.contains(
            ((#[trigger] results[i]).a, results[i].b, results[i].distance),
        )
    &&& forall|i: int, j: int|
        0 <= i < j < results.len() ==> ((#[trigger] results[i]).a, results[i].b) != ((
        #[trigger] results[j]).a, results[j].b)
    &&& forall|k: int|
        0 <= k < found.len() ==> exists|i: int|
            0 <= i < results.len() && #[trigger] found[k] == ((
            #[trigger] results[i]).a, results[i].b, results[i].distance)
}

/// Ordering keeps every result and brings in none.
proof fn ordering_keeps_results(results: Seq<PairResult>)
    ensures
        in_order(results).len() == results.len(),
        forall|r: PairResult| #[trigger] in_order(results).contains(r) <==> results.contains(r),
        (forall|i: int, j: int|
            0 <= i < j < results.len() ==> ((#[trigger] results[i]).a, results[i].b) != ((
            #[trigger] results[j]).a, results[j].b)) ==> forall|i: int, j: int|
            0 <= i < j < results.len() ==> ((#[trigger] in_order(results)[i]).a, in_order(
                results,
            )[i].b) != ((#[trigger] in_order(results)[j]).a, in_order(results)[j].b),
    decreases results.len(),
{
    if results.len() > 0 {
        let x = results[0];
        let tail = results.skip(1);
        let rest = in_order(tail);
        let all = in_order(results);
        ordering_keeps_results(tail);
        place_for_bounds(rest, x);
        let p = place_for(rest, x);
        assert forall|r: PairResult| #[trigger] all.contains(r) <==> results.contains(r) by {
            if all.contains(r) {
                let i = choose|i: int| 0 <= i < all.len() && all[i] == r;
                if i != p {
                    assert(rest.contains(r)) by {
                        assert(rest[if i < p {
                            i
                        } else {
                            i - 1
                        }] == r);
                    }
                    assert(tail.contains(r));
                    let k = choose|k: int| 0 <= k < tail.len() && tail[k] == r;
                    assert(results[k + 1] == r);
                }
            }
            if results.contains(r) {
                let k = choose|k: int| 0 <= k < results.len() && results[k] == r;
                if k == 0 {
                    assert(all[p] == r);
                } else {
                    assert(tail[k - 1] == r);
                    assert(rest.contains(r));
                    let i = choose|i: int| 0 <= i < rest.len() && rest[i] == r;
                    assert(all[if i < p {
                        i
                    } else {
                        i + 1
                    }] == r);
                }
            }
        }
        if forall|i: int, j: int|
            0 <= i < j < results.len() ==> ((#[trigger] results[i]).a, results[i].b) != ((
            #[trigger] results[j]).a, results[j].b) {
            assert forall|i: int, j: int| 0 <= i < j < tail.len() implies ((
            #[trigger] tail[i]).a, tail[i].b) != ((#[trigger] tail[j]).a, tail[j].b) by {
                assert(tail[i] == results[i + 1] && tail[j] == results[j + 1]);
            }
            assert forall|k: int| 0 <= k < rest.len() implies ((#[trigger] rest[k]).a, rest[k].b)
                != (x.a, x.b) by {
                assert(rest.contains(rest[k]));
                assert(tail.contains(rest[k]));
                let m = choose|m: int| 0 <= m < tail.len() && tail[m] == rest[k];
                assert(results[m + 1] == rest[k]);
                assert(results[0] == x);
            }
            assert forall|i: int, j: int| 0 <= i < j < results.len() implies ((
            #[trigger] all[i]).a, all[i].b) != ((#[trigger] all[j]).a, all[j].b) by {
                let oi = if i < p {
                    i
                } else {
                    i - 1
                };
                let oj = if j < p {
                    j
                } else {
                    j - 1
                };
                if i == p {
                    assert(all[j] == rest[oj]);
                } else if j == p {
                    assert(all[i] == rest[oi]);
                } else {
                    assert(all[i] == rest[oi] && all[j] == rest[oj]);
                }
            }
        }
    }
}

/// A pass writes one audit row for each candidate, a failed judging included,
/// after the rows that were there; and the new rows stand in the order of their
/// ids, whatever order the judge answered in.
pub proof fn pass_audits_each_candidate_once(
    l: LedgerView,
    found: Seq<(i64, i64, u64)>,
    run_ts: i64,
    results: Seq<PairResult>,
    dry_run: bool,
)
    requires
        answers(results, found),
    ensures
        ({
            let after = after_results(l, run_ts, in_order(results), dry_run);
            let n = l.audit.len() as int;
            &&& after.audit.len() == n + found.len()
            &&& l.audit.is_prefix_of(after.audit)
            &&& forall|i: int|
                n <= i < after.audit.len() ==> {
                    let row = #[trigger] after.audit[i];
                    &&& row.run_ts == run_ts
                    &&& row.dry_run == dry_run
                    &&& found.contains((row.kp_a, row.kp_b, row.distance))
                }
            &&& forall|i: int, j: int|
                n <= i < j < after.audit.len() ==> {
                    let x = #[trigger] after.audit[i];
                    let y = #[trigger] after.audit[j];
                    x.kp_a < y.kp_a || (x.kp_a == y.kp_a && x.kp_b < y.kp_b)
                }
            &&& forall|k: int|
                0 <= k < results.len() ==> exists|i: int|
                    n <= i < after.audit.len() && audits(
                        #[trigger] after.audit[i],
                        run_ts,
                        #[trigger] results[k],
                        dry_run,
                    )
            &&& forall|k: int|
                0 <= k < found.len() ==> exists|i: int|
                    n <= i < after.audit.len() && #[trigger] found[k] == ((
                    #[trigger] after.audit[i]).kp_a, after.audit[i].kp_b, after.audit[i].distance)
        }),
{
    let order = in_order(results);
    let after = after_results(l, run_ts, order, dry_run);
    let n = l.audit.len() as int;
    ordering_is_a_sort(results);
    ordering_keeps_results(results);
    every_result_is_audited(l, run_ts, order, dry_run);
    assert forall|i: int| n <= i < after.audit.len() implies {
        let row = #[trigger] after.audit[i];
        &&& row.run_ts == run_ts
        &&& row.dry_run == dry_run
        &&& found.contains((row.kp_a, row.kp_b, row.distance))
    } by {
        let r = order[i - n];
        assert(audits(after.audit[n + (i - n)], run_ts, r, dry_run));
        assert(order.contains(r));
        assert(results.contains(r));
    }
    assert forall|i: int, j: int| n <= i < j < after.audit.len() implies {
        let x = #[trigger] after.audit[i];
        let y = #[trigger] after.audit[j];
        x.kp_a < y.kp_a || (x.kp_a == y.kp_a && x.kp_b < y.kp_b)
    } by {
        assert(audits(after.audit[n + (i - n)], run_ts, order[i - n], dry_run));
        assert(audits(after.audit[n + (j - n)], run_ts, order[j - n], dry_run));
        assert(!pair_before(order[j - n], order[i - n]));
    }
    assert forall|k: int| 0 <= k < results.len() implies exists|i: int|
        n <= i < after.audit.len() && audits(
            #[trigger] after.audit[i],
            run_ts,
            #[trigger] results[k],
            dry_run,
        ) by {
        assert(results.contains(results[k]));
        assert(order.contains(results[k]));
        let m = choose|m: int| 0 <= m < order.len() && order[m] == results[k];
        assert(audits(after.audit[n + m], run_ts, results[k], dry_run));
    }
    assert forall|k: int| 0 <= k < found.len() implies exists|i: int|
        n <= i < after.audit.len() && #[trigger] found[k] == ((
        #[trigger] after.audit[i]).kp_a, after.audit[i].kp_b, after.audit[i].distance) by {
        let m = choose|m: int|
            0 <= m < results.len() && found[k] == ((
            #[trigger] results[m]).a, results[m].b, results[m].distance);
        let i = choose|i: int|
            n <= i < after.audit.len() && audits(
                #[trigger] after.audit[i],
                run_ts,
                results[m],
                dry_run,
            );
        assert(found[k] == (after.audit[i].kp_a, after.audit[i].kp_b, after.audit[i].distance));
    }
}

/// The pairs that the audit holds.
pub open spec fn audited_pairs(audit: Seq<AuditView>) -> Seq<(i64, i64)> {
    audit.map_values(|row: AuditView| (row.kp_a, row.kp_b))
}

/// A second pass after a first does nothing: no pair that was a candidate is
/// one again, whether its judging gave a verdict or failed, so nothing is judged
/// and the ledger stays as it is. The vectors have not changed, so the second
/// search sees only links that the first one saw.
pub proof fn second_pass_does_nothing(
    l: LedgerView,
    live: Seq<i64>,
    links: Seq<Link>,
    run_ts: i64,
    results: Seq<PairResult>,
    dry_run: bool,
    later: Seq<i64>,
    later_links: Seq<Link>,
)
    requires
        forall|id: i64| #[trigger] live.contains(id) <==> is_live(l.rows, id),
        answers(results, candidates(live, audited_pairs(l.audit), links)),
        ({
            let after = after_results(l, run_ts, in_order(results), dry_run);
            forall|id: i64| #[trigger] later.contains(id) <==> is_live(after.rows, id)
        }),
        forall|k: int| 0 <= k < later_links.len() ==> links.contains(#[trigger] later_links[k]),
    ensures
        ({
            let after = after_results(l, run_ts, in_order(results), dry_run);
            let again = candidates(later, audited_pairs(after.audit), later_links);
            &&& again.len() == 0
            &&& forall|more: Seq<PairResult>, ts: i64, dry: bool|
                answers(more, again) ==> #[trigger] after_results(after, ts, in_order(more), dry)
                    == after
        }),
{
    let judged = audited_pairs(l.audit);
    let found = candidates(live, judged, links);
    let after = after_results(l, run_ts, in_order(results), dry_run);
    let more = audited_pairs(after.audit);
    pass_audits_each_candidate_once(l, found, run_ts, results, dry_run);
    first_survivor_wins(l, run_ts, in_order(results), dry_run);
    candidates_are_fresh_live_pairs(live, judged, links);
    assert forall|id: i64| later.contains(id) implies live.contains(id) by {
        same_ids_same_places(l.rows, after.rows, id);
        row_at_is_row(l.rows, id);
        let i = row_at(l.rows, id)->0;
        assert(after.rows[i].id == l.rows[i].id);
    }
    assert forall|k: int| 0 <= k < later_links.len() implies !is_candidate(
        later,
        more,
        #[trigger] later_links[k],
    ) by {
        let link = later_links[k];
        let pair = canonical(link.from, link.to);
        assert(links.contains(link));
        let m = choose|m: int| 0 <= m < links.len() && links[m] == link;
        if is_candidate(live, judged, link) {
            candidates_list_every_pair(live, judged, links, m);
            let c = choose|c: int|
                0 <= c < found.len() && ((#[trigger] found[c]).0, found[c].1) == pair;
            let i = choose|i: int|
                l.audit.len() <= i < after.audit.len() && found[c] == ((
                #[trigger] after.audit[i]).kp_a, after.audit[i].kp_b, after.audit[i].distance);
            assert(more[i] == (found[c].0, found[c].1));
            assert(canonical(more[i].0, more[i].1) == pair);
        } else if was_judged(judged, pair) {
            let i = choose|i: int|
                0 <= i < judged.len() && canonical((#[trigger] judged[i]).0, judged[i].1) == pair;
            assert(after.audit[i] == l.audit[i]);
            assert(more[i] == judged[i]);
        }
    }
    no_candidates(later, more, later_links);
}

// ---------------------------------------------------------------------------
// Judging with retries

/// How one call of the judge ended.
#[derive(Debug)]
pub enum JudgeOutcome {
    Verdict(JudgeVerdict),
    Failed(ExtractError),
    TimedOut,
}

/// What follows a call of the judge.
#[derive(Debug)]
pub enum JudgeStep {
    /// Ask again, with a fresh request.
    Retry,
    /// The pair is settled: a verdict, or the reason why there is none.
    Settled(Result<JudgeVerdict, String>),
}

/// What follows the `attempt`-th call on a pair, counted from one: a verdict or
/// an error settles it, a time-out is tried again until the attempts are used
/// up.
pub open spec fn judge_step(
    attempt: int,
    timeout_secs: nat,
    call: JudgeOutcome,
) -> Option<Result<VerdictView, Seq<char>>> {
    match call {
        JudgeOutcome::Verdict(v) => Some(Ok(v@)),
        JudgeOutcome::Failed(e) => Some(Err("judge error: "@ + e@.message())),
        JudgeOutcome::TimedOut => if attempt <= MAX_JUDGE_RETRIES {
            None
        } else {
            Some(
                Err(
                    "judge timeout after "@ + text::decimal_text((MAX_JUDGE_RETRIES + 1) as nat)
                        + " attempts ("@ + text::decimal_text(timeout_secs) + "s each)"@,
                ),
            )
        },
    }
}

/// Decides what follows a call of the judge.
pub fn after_judge_call(attempt: usize, timeout_secs: u64, call: JudgeOutcome) -> (r: JudgeStep)
    ensures
        match r {
            JudgeStep::Retry => judge_step(attempt as int, timeout_secs as nat, call) is None,
            JudgeStep::Settled(v) => judge_step(attempt as int, timeout_secs as nat, call) == Some(
                result_view(v),
            ),
        },
{
    match call {
        JudgeOutcome::Verdict(v) => JudgeStep::Settled(Ok(v)),
        JudgeOutcome::Failed(e) => JudgeStep::Settled(
            Err("judge error: ".to_owned().concat(e.message().as_str())),
        ),
        JudgeOutcome::TimedOut => {
            if attempt <= MAX_JUDGE_RETRIES {
                JudgeStep::Retry
            } else {
                JudgeStep::Settled(
                    Err(
                        "judge timeout after ".to_owned().concat(
                            text::u64_text((MAX_JUDGE_RETRIES + 1) as u64).as_str(),
                        ).concat(" attempts (").concat(text::u64_text(timeout_secs).as_str()).concat(
                            "s each)",
                        ),
                    ),
                )
            }
        },
    }
}

/// What the judge says is taken as it is. A call that failed settles the pair with
/// the whole of the error. A call that ran out of time is made again, and the third
/// settles the pair without a verdict.
pub proof fn calls_settle_pairs(attempt: int, timeout_secs: nat, call: JudgeOutcome)
    ensures
        match call {
            JudgeOutcome::Verdict(v) => judge_step(attempt, timeout_secs, call) == Some(
                Ok::<VerdictView, Seq<char>>(v@),
            ),
            JudgeOutcome::Failed(e) => {
                &&& judge_step(attempt, timeout_secs, call) is Some
                &&& judge_step(attempt, timeout_secs, call)->0 is Err
                &&& text::ends(judge_step(attempt, timeout_secs, call)->0->Err_0, e@.message())
            },
            JudgeOutcome::TimedOut => {
                &&& attempt < 3 ==> judge_step(attempt, timeout_secs, call) is None
                &&& attempt >= 3 ==> judge_step(attempt, timeout_secs, call) is Some
                    && judge_step(attempt, timeout_secs, call)->0 is Err && text::has(
                    judge_step(attempt, timeout_secs, call)->0->Err_0,
                    text::decimal_text(timeout_secs),
                )
            },
        },
{
    match call {
        JudgeOutcome::Failed(e) => {
            text::parts_stand_in_the_whole("judge error: "@, e@.message(), Seq::empty());
        },
        JudgeOutcome::TimedOut => {
            let head = "judge timeout after "@ + text::decimal_text(3) + " attempts ("@;
            text::parts_stand_in_the_whole(
                head,
                text::decimal_text(timeout_secs),
                "s each)"@,
            );
        },
        _ => {},
    }
}

/// No more than eight calls ever run at once, and while fewer do, the next call is for
/// the first pair that waits.
pub proof fn pairs_wait_their_turn(v: JudgingView)
    ensures
        in_flight(v.lanes, v.timeout_secs) >= 8 ==> next_lane(v) is None,
        in_flight(v.lanes, v.timeout_secs) < 8 ==> match next_lane(v) {
            Some(i) => 0 <= i < v.lanes.len() && !v.lanes[i].begun && forall|j: int|
                0 <= j < i ==> (#[trigger] v.lanes[j]).begun,
            None => forall|j: int| 0 <= j < v.lanes.len() ==> (#[trigger] v.lanes[j]).begun,
        },
{
    first_waiting_is_first(v.lanes, 0);
}

proof fn first_waiting_is_first(lanes: Seq<LaneView>, from: int)
    requires
        0 <= from,
    ensures
        match first_waiting(lanes, from) {
            Some(i) => from <= i < lanes.len() && !lanes[i].begun && forall|j: int|
                from <= j < i ==> (#[trigger] lanes[j]).begun,
            None => forall|j: int| from <= j < lanes.len() ==> (#[trigger] lanes[j]).begun,
        },
    decreases lanes.len() - from,
{
    if from < lanes.len() && lanes[from].begun {
        first_waiting_is_first(lanes, from + 1);
    }
}

/// A pair is settled after three calls at the latest, and only a time-out is
/// ever tried again.
pub proof fn judging_is_bounded(attempt: int, timeout_secs: nat, call: JudgeOutcome)
    ensures
        attempt >= MAX_JUDGE_RETRIES + 1 ==> judge_step(attempt, timeout_secs, call) is Some,
        !(call is TimedOut) ==> judge_step(attempt, timeout_secs, call) is Some,
{
}

// ---------------------------------------------------------------------------
// Judging all candidates

/// How far a pair has come.
#[derive(Debug)]
pub enum LaneState {
    /// No call has been made.
    Waiting,
    /// A call is running; the first has the number one.
    Running(usize),
    Settled(Result<JudgeVerdict, String>),
}

/// A candidate on its way through the judge.
pub struct Lane {
    pub a: i64,
    pub b: i64,
    pub distance: u64,
    pub state: LaneState,
    /// How the calls on the pair ended, in order.
    pub ended: Ghost<Seq<JudgeOutcome>>,
}

/// The candidates of a pass on their way through the judge.
pub struct Judging {
    pub lanes: Vec<Lane>,
    pub timeout_secs: u64,
}

#[verifier::ext_equal]
pub ghost struct LaneView {
    pub a: i64,
    pub b: i64,
    pub distance: u64,
    pub begun: bool,
    pub ended: Seq<JudgeOutcome>,
}

#[verifier::ext_equal]
pub ghost struct JudgingView {
    pub lanes: Seq<LaneView>,
    pub timeout_secs: nat,
}

impl View for Lane {
    type V = LaneView;

    open spec fn view(&self) -> LaneView {
        LaneView {
            a: self.a,
            b: self.b,
            distance: self.distance,
            begun: !(self.state is Waiting),
            ended: self.ended@,
        }
    }
}

impl View for Judging {
    type V = JudgingView;

    open spec fn view(&self) -> JudgingView {
        JudgingView {
            lanes: self.lanes@.map_values(|lane: Lane| lane@),
            timeout_secs: self.timeout_secs as nat,
        }
    }
}

/// What the calls on a pair have come to: nothing before the first has ended,
/// nor while the last is to be repeated.
pub open spec fn lane_verdict(lane: LaneView, timeout_secs: nat) -> Option<
    Result<VerdictView, Seq<char>>,
> {
    if lane.ended.len() == 0 {
        None
    } else {
        judge_step(lane.ended.len() as int, timeout_secs, lane.ended.last())
    }
}

/// A call on the pair is running.
pub open spec fn is_running(lane: LaneView, timeout_secs: nat) -> bool {
    lane.begun && lane_verdict(lane, timeout_secs) is None
}

/// How many calls are running.
pub open spec fn in_flight(lanes: Seq<LaneView>, timeout_secs: nat) -> nat
    decreases lanes.len(),
{
    if lanes.len() == 0 {
        0
    } else {
        in_flight(lanes.drop_last(), timeout_secs) + if is_running(lanes.last(), timeout_secs) {
            1nat
        } else {
            0
        }
    }
}

/// The first pair from `from` on that has no call yet.
pub open spec fn first_waiting(lanes: Seq<LaneView>, from: int) -> Option<int>
    decreases lanes.len() - from,
{
    if from >= lanes.len() {
        None
    } else if !lanes[from].begun {
        Some(from)
    } else {
        first_waiting(lanes, from + 1)
    }
}

/// The pair whose first call is to be made next, while there is room for one.
pub open spec fn next_lane(v: JudgingView) -> Option<int> {
    if in_flight(v.lanes, v.timeout_secs) < MAX_JUDGE_CONCURRENCY {
        first_waiting(v.lanes, 0)
    } else {
        None
    }
}

/// The candidates before any call.
pub open spec fn before_judging(found: Seq<(i64, i64, u64)>, timeout_secs: nat) -> JudgingView {
    JudgingView {
        lanes: found.map_values(
            |c: (i64, i64, u64)|
                LaneView {
                    a: c.0,
                    b: c.1,
                    distance: c.2,
                    begun: false,
                    ended: Seq::empty(),
                },
        ),
        timeout_secs,
    }
}

/// After the next first call was made, where there is room for one.
pub open spec fn with_next_begun(v: JudgingView) -> JudgingView {
    match next_lane(v) {
        Some(i) => JudgingView {
            lanes: v.lanes.update(i, LaneView { begun: true, ..v.lanes[i] }),
            ..v
        },
        None => v,
    }
}

/// After the running call on a pair ended. Where no call runs nothing happens.
pub open spec fn with_call_ended(v: JudgingView, i: int, call: JudgeOutcome) -> JudgingView {
    if 0 <= i < v.lanes.len() && is_running(v.lanes[i], v.timeout_secs) {
        JudgingView {
            lanes: v.lanes.update(
                i,
                LaneView { ended: v.lanes[i].ended.push(call), ..v.lanes[i] },
            ),
            ..v
        }
    } else {
        v
    }
}

/// There is one result for each candidate, with what its calls have come to.
pub open spec fn are_results(v: JudgingView, results: Seq<PairResult>) -> bool {
    &&& results.len() == v.lanes.len()
    &&& forall|i: int|
        0 <= i < results.len() ==> {
            &&& (#[trigger] results[i]).a == v.lanes[i].a
            &&& results[i].b == v.lanes[i].b
            &&& results[i].distance == v.lanes[i].distance
            &&& lane_verdict(v.lanes[i], v.timeout_secs) == Some(result_view(results[i].verdict))
        }
}

/// Every pair is settled.
pub open spec fn is_over(v: JudgingView) -> bool {
    forall|i: int|
        0 <= i < v.lanes.len() ==> lane_verdict(#[trigger] v.lanes[i], v.timeout_secs) is Some
}

/// A change of one pair changes the number of running calls by what it does to
/// that pair's.
proof fn in_flight_after_update(
    lanes: Seq<LaneView>,
    timeout_secs: nat,
    i: int,
    lane: LaneView,
)
    requires
        0 <= i < lanes.len(),
    ensures
        in_flight(lanes.update(i, lane), timeout_secs) + (if is_running(lanes[i], timeout_secs) {
            1int
        } else {
            0
        }) == in_flight(lanes, timeout_secs) + (if is_running(lane, timeout_secs) {
            1int
        } else {
            0
        }),
    decreases lanes.len(),
{
    let after = lanes.update(i, lane);
    if i == lanes.len() - 1 {
        assert(after.drop_last() =~= lanes.drop_last());
    } else {
        assert(after.drop_last() =~= lanes.drop_last().update(i, lane));
        in_flight_after_update(lanes.drop_last(), timeout_secs, i, lane);
    }
}

proof fn first_waiting_is_waiting(lanes: Seq<LaneView>, from: int)
    requires
        0 <= from,
    ensures
        match first_waiting(lanes, from) {
            Some(i) => from <= i < lanes.len() && !lanes[i].begun,
            None => forall|i: int| from <= i < lanes.len() ==> (#[trigger] lanes[i]).begun,
        },
    decreases lanes.len() - from,
{
    if from < lanes.len() && lanes[from].begun {
        first_waiting_is_waiting(lanes, from + 1);
    }
}

impl Lane {
    /// The state says what the calls that ended have come to.
    pub open spec fn wf(self, timeout_secs: nat) -> bool {
        match self.state {
            LaneState::Waiting => self.ended@.len() == 0,
            LaneState::Running(n) => n == self.ended@.len() + 1 && lane_verdict(
                self@,
                timeout_secs,
            ) is None,
            LaneState::Settled(v) => lane_verdict(self@, timeout_secs) == Some(result_view(v)),
        }
    }
}

impl Judging {
    /// Every state says what the calls have come to, and no more calls run than
    /// may run at once.
    pub open spec fn wf(self) -> bool {
        &&& forall|i: int|
            0 <= i < self.lanes@.len() ==> (#[trigger] self.lanes@[i]).wf(self.timeout_secs as nat)
        &&& in_flight(self@.lanes, self@.timeout_secs) <= MAX_JUDGE_CONCURRENCY
    }

    /// Sets out with the candidates of a pass.
    pub fn start(found: &Vec<(i64, i64, u64)>, timeout_secs: u64) -> (r: Judging)
        ensures
            r.wf(),
            r@ == before_judging(found@, timeout_secs as nat),
    {
        let mut lanes: Vec<Lane> = Vec::new();
        let mut i: usize = 0;
        while i < found.len()
            invariant
                i <= found@.len(),
                lanes@.len() == i,
                forall|k: int|
                    0 <= k < i ==> (#[trigger] lanes@[k])@ == before_judging(
                        found@,
                        timeout_secs as nat,
                    ).lanes[k] && lanes@[k].wf(timeout_secs as nat),
                in_flight(lanes@.map_values(|lane: Lane| lane@), timeout_secs as nat) == 0,
            decreases found@.len() - i,
        {
            let ghost before = lanes@.map_values(|lane: Lane| lane@);
            let (a, b, distance) = found[i];
            let lane = Lane {
                a,
                b,
                distance,
                state: LaneState::Waiting,
                ended: Ghost(Seq::empty()),
            };
            lanes.push(lane);
            assert(lanes@.map_values(|lane: Lane| lane@).drop_last() =~= before);
            i += 1;
        }
        let r = Judging { lanes, timeout_secs };
        assert(r@.lanes =~= before_judging(found@, timeout_secs as nat).lanes);
        r
    }

    fn count_running(&self) -> (n: usize)
        requires
            self.wf(),
        ensures
            n == in_flight(self@.lanes, self@.timeout_secs),
    {
        let mut n: usize = 0;
        let mut i: usize = 0;
        assert(self@.lanes.take(0) =~= Seq::empty());
        while i < self.lanes.len()
            invariant
                self.wf(),
                i <= self.lanes@.len(),
                n <= i,
                n == in_flight(self@.lanes.take(i as int), self@.timeout_secs),
            decreases self.lanes@.len() - i,
        {
            assert(self@.lanes.take(i + 1).drop_last() =~= self@.lanes.take(i as int));
            assert(self@.lanes.take(i + 1).last() == self.lanes@[i as int]@);
            assert(self.lanes@[i as int].wf(self.timeout_secs as nat));
            if let LaneState::Running(_) = &self.lanes[i].state {
                n += 1;
            }
            i += 1;
        }
        assert(self@.lanes.take(i as int) =~= self@.lanes);
        n
    }

    /// Makes the next first call, where there is room for one more: gives back
    /// whose call it is.
    pub fn next_call(&mut self) -> (r: Option<usize>)
        requires
            old(self).wf(),
        ensures
            final(self).wf(),
            final(self)@ == with_next_begun(old(self)@),
            match r {
                Some(i) => next_lane(old(self)@) == Some(i as int),
                None => next_lane(old(self)@) is None,
            },
    {
        if self.count_running() >= MAX_JUDGE_CONCURRENCY {
            return None;
        }
        let ghost start = *self;
        let mut i: usize = 0;
        while i < self.lanes.len()
            invariant
                *self == start,
                start == *old(self),
                start.wf(),
                i <= self.lanes@.len(),
                in_flight(start@.lanes, start@.timeout_secs) < MAX_JUDGE_CONCURRENCY,
                first_waiting(start@.lanes, 0) == first_waiting(start@.lanes, i as int),
            decreases self.lanes@.len() - i,
        {
            assert(start@.lanes[i as int] == self.lanes@[i as int]@);
            if let LaneState::Waiting = &self.lanes[i].state {
                let lane = Lane {
                    a: self.lanes[i].a,
                    b: self.lanes[i].b,
                    distance: self.lanes[i].distance,
                    state: LaneState::Running(1),
                    ended: Ghost(Seq::empty()),
                };
                assert(self.lanes@[i as int].wf(self.timeout_secs as nat));
                self.lanes.set(i, lane);
                proof {
                    assert(self@.lanes =~= start@.lanes.update(i as int, lane@));
                    assert(lane@.ended =~= start@.lanes[i as int].ended);
                    in_flight_after_update(start@.lanes, start@.timeout_secs, i as int, lane@);
                }
                return Some(i);
            }
            i += 1;
        }
        None
    }

    /// Takes in how the running call on the `i`-th pair ended, and says whether
    /// the judge is to be asked again. Where no call runs nothing happens.
    pub fn call_ended(&mut self, i: usize, call: JudgeOutcome) -> (again: bool)
        requires
            old(self).wf(),
        ensures
            final(self).wf(),
            final(self)@ == with_call_ended(old(self)@, i as int, call),
            again == (i < old(self)@.lanes.len() && is_running(
                old(self)@.lanes[i as int],
                old(self)@.timeout_secs,
            ) && is_running(final(self)@.lanes[i as int], final(self)@.timeout_secs)),
    {
        if i >= self.lanes.len() {
            return false;
        }
        let ghost start = *self;
        assert(start@.lanes[i as int] == self.lanes@[i as int]@);
        assert(self.lanes@[i as int].wf(self.timeout_secs as nat));
        let attempt: usize = match &self.lanes[i].state {
            LaneState::Running(n) => *n,
            _ => return false,
        };
        let ghost ended = self.lanes@[i as int].ended@.push(call);
        let (state, again) = match after_judge_call(attempt, self.timeout_secs, call) {
            JudgeStep::Retry => (LaneState::Running(attempt + 1), true),
            JudgeStep::Settled(v) => (LaneState::Settled(v), false),
        };
        let lane = Lane {
            a: self.lanes[i].a,
            b: self.lanes[i].b,
            distance: self.lanes[i].distance,
            state,
            ended: Ghost(ended),
        };
        self.lanes.set(i, lane);
        proof {
            assert(self@.lanes =~= start@.lanes.update(i as int, lane@));
            in_flight_after_update(start@.lanes, start@.timeout_secs, i as int, lane@);
        }
        again
    }

    /// The results, where every pair is settled.
    pub fn results(self) -> (r: Option<Vec<PairResult>>)
        requires
            self.wf(),
        ensures
            match r {
                Some(results) => are_results(self@, results@),
                None => !is_over(self@),
            },
    {
        let ghost all = self.lanes@;
        let ghost v = self@;
        let mut out: Vec<PairResult> = Vec::new();
        for lane in it: self.lanes
            invariant
                it.seq() == all,
                v.lanes == all.map_values(|lane: Lane| lane@),
                forall|k: int| 0 <= k < all.len() ==> (#[trigger] all[k]).wf(v.timeout_secs),
                out@.len() == it.index(),
                forall|k: int|
                    0 <= k < out@.len() ==> {
                        &&& (#[trigger] out@[k]).a == v.lanes[k].a
                        &&& out@[k].b == v.lanes[k].b
                        &&& out@[k].distance == v.lanes[k].distance
                        &&& lane_verdict(v.lanes[k], v.timeout_secs) == Some(
                            result_view(out@[k].verdict),
                        )
                    },
        {
            let ghost k = it.index();
            assert(all[k].wf(v.timeout_secs));
            assert(v.lanes[k] == lane@);
            match lane.state {
                LaneState::Settled(verdict) => out.push(
                    PairResult { a: lane.a, b: lane.b, distance: lane.distance, verdict },
                ),
                _ => return None,
            }
        }
        Some(out)
    }
}

impl Ledger {
    /// Ends a pass: takes in what the judging of all its candidates has come to,
    /// and gives back how many audit rows were written. `None`, with nothing
    /// taken in, where a pair is not settled.
    pub fn consolidate_once(&mut self, run_ts: i64, judging: Judging, dry_run: bool) -> (written:
        Option<usize>)
        requires
            judging.wf(),
            old(self).next_audit_id + judging.lanes@.len() <= i64::MAX,
        ensures
            match written {
                Some(n) => n == judging.lanes@.len() && exists|results: Seq<PairResult>|
                    are_results(judging@, results) && #[trigger] after_results(
                        old(self)@,
                        run_ts,
                        in_order(results),
                        dry_run,
                    ) == final(self)@,
                None => !is_over(judging@) && final(self)@ == old(self)@,
            },
    {
        match judging.results() {
            Some(results) => {
                let ghost taken = results@;
                let n = self.apply_results(run_ts, results, dry_run);
                assert(after_results(old(self)@, run_ts, in_order(taken), dry_run) == self@);
                Some(n)
            },
            None => None,
        }
    }
}

/// What can happen while the candidates are judged.
pub ghost enum JudgeEvent {
    /// The next first call is made, where there is room for one.
    Begin,
    /// The running call on a pair ended.
    Ended { lane: int, call: JudgeOutcome },
}

/// The candidates after these events, in whatever order they came.
pub open spec fn judging_after(
    found: Seq<(i64, i64, u64)>,
    timeout_secs: nat,
    events: Seq<JudgeEvent>,
) -> JudgingView
    decreases events.len(),
{
    if events.len() == 0 {
        before_judging(found, timeout_secs)
    } else {
        let before = judging_after(found, timeout_secs, events.drop_last());
        match events.last() {
            JudgeEvent::Begin => with_next_begun(before),
            JudgeEvent::Ended { lane, call } => with_call_ended(before, lane, call),
        }
    }
}

/// How many calls have been made on a pair, a running one included.
pub open spec fn calls_made(lane: LaneView, timeout_secs: nat) -> int {
    lane.ended.len() + if is_running(lane, timeout_secs) {
        1int
    } else {
        0
    }
}

/// The judge was asked again only after time-outs, and three times at most.
pub open spec fn asked_sparingly(lane: LaneView, timeout_secs: nat) -> bool {
    &&& !lane.begun ==> lane.ended.len() == 0
    &&& calls_made(lane, timeout_secs) <= MAX_JUDGE_RETRIES + 1
    &&& forall|j: int|
        0 <= j < calls_made(lane, timeout_secs) - 1 ==> #[trigger] lane.ended[j] is TimedOut
}

/// However the calls end and whatever their order, no more calls run than may
/// run at once, and the judge is asked sparingly.
pub proof fn judging_is_kept_in_bounds(
    found: Seq<(i64, i64, u64)>,
    timeout_secs: nat,
    events: Seq<JudgeEvent>,
)
    ensures
        ({
            let v = judging_after(found, timeout_secs, events);
            &&& v.timeout_secs == timeout_secs
            &&& v.lanes.len() == found.len()
            &&& in_flight(v.lanes, timeout_secs) <= MAX_JUDGE_CONCURRENCY
            &&& forall|i: int|
                0 <= i < v.lanes.len() ==> {
                    &&& found[i] == ((
                    #[trigger] v.lanes[i]).a, v.lanes[i].b, v.lanes[i].distance)
                    &&& asked_sparingly(v.lanes[i], timeout_secs)
                }
        }),
    decreases events.len(),
{
    let v = judging_after(found, timeout_secs, events);
    if events.len() == 0 {
        none_in_flight(v.lanes, timeout_secs);
    } else {
        let before = judging_after(found, timeout_secs, events.drop_last());
        judging_is_kept_in_bounds(found, timeout_secs, events.drop_last());
        match events.last() {
            JudgeEvent::Begin => {
                first_waiting_is_waiting(before.lanes, 0);
                if let Some(i) = next_lane(before) {
                    in_flight_after_update(before.lanes, timeout_secs, i, v.lanes[i]);
                    assert(asked_sparingly(before.lanes[i], timeout_secs));
                }
            },
            JudgeEvent::Ended { lane: i, call } => {
                if 0 <= i < before.lanes.len() && is_running(before.lanes[i], timeout_secs) {
                    in_flight_after_update(before.lanes, timeout_secs, i, v.lanes[i]);
                    let old_lane = before.lanes[i];
                    assert(asked_sparingly(old_lane, timeout_secs));
                    assert forall|j: int|
                        0 <= j < calls_made(v.lanes[i], timeout_secs)
                            - 1 implies #[trigger] v.lanes[i].ended[j] is TimedOut by {
                        if j < old_lane.ended.len() {
                            assert(v.lanes[i].ended[j] == old_lane.ended[j]);
                        }
                    }
                }
            },
        }
    }
}

proof fn none_in_flight(lanes: Seq<LaneView>, timeout_secs: nat)
    requires
        forall|i: int| 0 <= i < lanes.len() ==> !is_running(#[trigger] lanes[i], timeout_secs),
    ensures
        in_flight(lanes, timeout_secs) == 0,
    decreases lanes.len(),
{
    if lanes.len() > 0 {
        assert forall|i: int| 0 <= i < lanes.drop_last().len() implies !is_running(
            #[trigger] lanes.drop_last()[i],
            timeout_secs,
        ) by {
            assert(lanes.drop_last()[i] == lanes[i]);
        }
        none_in_flight(lanes.drop_last(), timeout_secs);
        assert(!is_running(lanes[lanes.len() - 1], timeout_secs));
    }
}

/// As long as a pair is not settled, a call is running or the next can be made:
/// no pass comes to a standstill.
pub proof fn judging_goes_on(v: JudgingView)
    requires
        !is_over(v),
    ensures
        in_flight(v.lanes, v.timeout_secs) > 0 || next_lane(v) is Some,
{
    if in_flight(v.lanes, v.timeout_secs) == 0 {
        let i = choose|i: int|
            0 <= i < v.lanes.len() && lane_verdict(#[trigger] v.lanes[i], v.timeout_secs) is None;
        if v.lanes[i].begun {
            in_flight_after_update(v.lanes, v.timeout_secs, i, LaneView { begun: false, ..v.lanes[i]
            });
        }
        first_waiting_is_waiting(v.lanes, 0);
    }
}

/// A whole pass. Its candidates are judged in any order: never more than eight
/// calls run at once, and a pair is asked about again only after a time-out,
/// never after an error, and three times at most. Every candidate then has one
/// audit row, a failed judging included, after the rows that were there and in
/// the order of the ids. A second pass over the same vectors finds no candidate
/// and changes nothing.
#[verifier::spinoff_prover]
#[verifier::rlimit(50)]
pub proof fn consolidation_pass(
    l: LedgerView,
    live: Seq<i64>,
    links: Seq<Link>,
    timeout_secs: nat,
    events: Seq<JudgeEvent>,
    results: Seq<PairResult>,
    run_ts: i64,
    dry_run: bool,
    later: Seq<i64>,
    later_links: Seq<Link>,
)
    requires
        forall|id: i64| #[trigger] live.contains(id) <==> is_live(l.rows, id),
        are_results(
            judging_after(candidates(live, audited_pairs(l.audit), links), timeout_secs, events),
            results,
        ),
        forall|id: i64| #[trigger]
            later.contains(id) <==> is_live(
                after_results(l, run_ts, in_order(results), dry_run).rows,
                id,
            ),
        forall|k: int| 0 <= k < later_links.len() ==> links.contains(#[trigger] later_links[k]),
    ensures
        ({
            let found = candidates(live, audited_pairs(l.audit), links);
            let judged = judging_after(found, timeout_secs, events);
            let after = after_results(l, run_ts, in_order(results), dry_run);
            let n = l.audit.len() as int;
            let again = candidates(later, audited_pairs(after.audit), later_links);
            &&& forall|k: int|
                0 <= k <= events.len() ==> in_flight(
                    (#[trigger] judging_after(found, timeout_secs, events.take(k))).lanes,
                    timeout_secs,
                ) <= MAX_JUDGE_CONCURRENCY
            &&& forall|i: int|
                0 <= i < judged.lanes.len() ==> {
                    let lane = #[trigger] judged.lanes[i];
                    &&& found[i] == (lane.a, lane.b, lane.distance)
                    &&& 1 <= lane.ended.len() <= MAX_JUDGE_RETRIES + 1
                    &&& forall|j: int|
                        0 <= j < lane.ended.len() - 1 ==> #[trigger] lane.ended[j] is TimedOut
                }
            &&& results.len() == found.len()
            &&& after.audit.len() == n + found.len()
            &&& l.audit.is_prefix_of(after.audit)
            &&& forall|i: int, j: int|
                n <= i < j < after.audit.len() ==> {
                    let x = #[trigger] after.audit[i];
                    let y = #[trigger] after.audit[j];
                    x.kp_a < y.kp_a || (x.kp_a == y.kp_a && x.kp_b < y.kp_b)
                }
            &&& forall|k: int|
                0 <= k < results.len() ==> exists|i: int|
                    n <= i < after.audit.len() && audits(
                        #[trigger] after.audit[i],
                        run_ts,
                        #[trigger] results[k],
                        dry_run,
                    )
            &&& again.len() == 0
            &&& forall|more: Seq<PairResult>, ts: i64, dry: bool|
                are_results(before_judging(again, timeout_secs), more) ==> #[trigger] after_results(
                    after,
                    ts,
                    in_order(more),
                    dry,
                ) == after
        }),
{
    let found = candidates(live, audited_pairs(l.audit), links);
    let judged = judging_after(found, timeout_secs, events);
    let after = after_results(l, run_ts, in_order(results), dry_run);
    assert forall|k: int| 0 <= k <= events.len() implies in_flight(
        (#[trigger] judging_after(found, timeout_secs, events.take(k))).lanes,
        timeout_secs,
    ) <= MAX_JUDGE_CONCURRENCY by {
        judging_is_kept_in_bounds(found, timeout_secs, events.take(k));
    }
    judging_is_kept_in_bounds(found, timeout_secs, events);
    candidates_are_fresh_live_pairs(live, audited_pairs(l.audit), links);
    assert forall|i: int| 0 <= i < judged.lanes.len() implies {
        let lane = #[trigger] judged.lanes[i];
        &&& found[i] == (lane.a, lane.b, lane.distance)
        &&& 1 <= lane.ended.len() <= MAX_JUDGE_RETRIES + 1
        &&& forall|j: int| 0 <= j < lane.ended.len() - 1 ==> #[trigger] lane.ended[j] is TimedOut
    } by {
        assert(results[i].a == judged.lanes[i].a);
        assert(asked_sparingly(judged.lanes[i], timeout_secs));
    }
    assert(answers(results, found)) by {
        assert forall|i: int| 0 <= i < results.len() implies found.contains(
            ((#[trigger] results[i]).a, results[i].b, results[i].distance),
        ) by {
            assert(found[i] == (judged.lanes[i].a, judged.lanes[i].b, judged.lanes[i].distance));
        }
        assert forall|i: int, j: int| 0 <= i < j < results.len() implies ((
        #[trigger] results[i]).a, results[i].b) != ((#[trigger] results[j]).a, results[j].b) by {
            assert(found[i] == (judged.lanes[i].a, judged.lanes[i].b, judged.lanes[i].distance));
            assert(found[j] == (judged.lanes[j].a, judged.lanes[j].b, judged.lanes[j].distance));
        }
        assert forall|k: int| 0 <= k < found.len() implies exists|i: int|
            0 <= i < results.len() && #[trigger] found[k] == ((
            #[trigger] results[i]).a, results[i].b, results[i].distance) by {
            assert(found[k] == (judged.lanes[k].a, judged.lanes[k].b, judged.lanes[k].distance));
            assert(found[k] == (results[k].a, results[k].b, results[k].distance));
        }
    }
    pass_audits_each_candidate_once(l, found, run_ts, results, dry_run);
    second_pass_does_nothing(
        l,
        live,
        links,
        run_ts,
        results,
        dry_run,
        later,
        later_links,
    );
}

// ---------------------------------------------------------------------------
// When the background run sets off

/// The live rows with an id beyond the marker.
pub open spec fn new_live(rows: Seq<LogRow>, marker: i64) -> nat
    decreases rows.len(),
{
    if rows.len() == 0 {
        0
    } else {
        new_live(rows.drop_last(), marker) + (if rows.last().superseded_by is None
            && rows.last().id > marker {
            1nat
        } else {
            0nat
        })
    }
}

/// The largest id; zero where there are no rows.
pub open spec fn max_id(rows: Seq<LogRow>) -> i64
    decreases rows.len(),
{
    if rows.len() == 0 {
        0
    } else if rows.last().id > max_id(rows.drop_last()) || rows.len() == 1 {
        rows.last().id
    } else {
        max_id(rows.drop_last())
    }
}

/// Counting goes row by row: a live row beyond the marker counts one, any other
/// none. The largest id is one of the rows', and none is larger.
pub proof fn new_rows_are_counted_one_by_one(a: Seq<LogRow>, b: Seq<LogRow>, row: LogRow, marker: i64)
    ensures
        new_live(a + b, marker) == new_live(a, marker) + new_live(b, marker),
        new_live(seq![row], marker) == (if row.superseded_by is None && row.id > marker {
            1nat
        } else {
            0
        }),
        forall|i: int| 0 <= i < a.len() ==> (#[trigger] a[i]).id <= max_id(a),
        a.len() > 0 ==> exists|i: int| 0 <= i < a.len() && (#[trigger] a[i]).id == max_id(a),
        a.len() == 0 ==> max_id(a) == 0,
    decreases b.len(),
{
    assert(seq![row].drop_last() =~= Seq::empty());
    reveal_with_fuel(new_live, 2);
    max_id_is_one_of(a);
    assert forall|i: int| 0 <= i < a.len() implies (#[trigger] a[i]).id <= max_id(a) by {
        max_id_is_max(a, i);
    }
    if b.len() == 0 {
        assert(a + b =~= a);
    } else {
        assert((a + b).drop_last() =~= a + b.drop_last());
        new_rows_are_counted_one_by_one(a, b.drop_last(), row, marker);
    }
}

proof fn max_id_is_one_of(rows: Seq<LogRow>)
    ensures
        rows.len() > 0 ==> exists|i: int|
            0 <= i < rows.len() && (#[trigger] rows[i]).id == max_id(rows),
    decreases rows.len(),
{
    if rows.len() > 0 {
        let rest = rows.drop_last();
        max_id_is_one_of(rest);
        if rows.last().id > max_id(rest) || rows.len() == 1 {
            assert(rows[rows.len() - 1].id == max_id(rows));
        } else {
            let i = choose|i: int| 0 <= i < rest.len() && (#[trigger] rest[i]).id == max_id(rest);
            assert(rows[i].id == max_id(rows));
        }
    }
}

/// A run is due exactly where enough live rows lie beyond the marker, and the
/// marker then moves to the largest id.
pub proof fn run_is_due_by_count(rows: Seq<LogRow>, marker: i64, threshold: i64)
    ensures
        run_marker(rows, marker, threshold) is Some <==> new_live(rows, marker) >= threshold,
        run_marker(rows, marker, threshold) matches Some(m) ==> m == max_id(rows),
{
}

/// A positive number sets the threshold; no setting, zero, a negative number or
/// no number leaves it at 25.
pub proof fn threshold_is_a_positive_number(n: i64, s: Seq<char>)
    ensures
        min_new_kps(None) == 25,
        n > 0 ==> min_new_kps(Some(text::integer_text(n as int))) == n,
        n <= 0 ==> min_new_kps(Some(text::integer_text(n as int))) == 25,
        min_new_kps(Some(s)) >= 1,
        min_new_kps(Some(s)) != 25 ==> text::int64_of(text::trimmed(s)) == Some(
            min_new_kps(Some(s)),
        ),
{
    text::integers_read_back(n);
    text::number_is_trimmed(n);
}

/// The switch is off unless it is set to `1` or, whatever the case, to `true`,
/// with white space around at most.
pub proof fn switch_is_off_by_default(before: Seq<char>, token: Seq<char>, after: Seq<char>)
    requires
        text::is_white(before),
        text::is_white(after),
        token.len() > 0,
        !text::is_white_space(token[0]),
        !text::is_white_space(token.last()),
    ensures
        !is_enabled(None),
        is_enabled(Some(before + token + after)) <==> token =~= seq!['1'] || (token.len() == 4 && (
        token[0] == 't' || token[0] == 'T') && (token[1] == 'r' || token[1] == 'R') && (token[2]
            == 'u' || token[2] == 'U') && (token[3] == 'e' || token[3] == 'E')),
{
    reveal_strlit("1");
    reveal_strlit("true");
    text::trimming_drops_what_is_blank(before, token, after);
    let low = text::ascii_lowercase(token);
    assert(low.len() == token.len());
    assert(low[0] == text::ascii_lower(token[0]));
    if token.len() == 4 {
        assert(low[1] == text::ascii_lower(token[1]));
        assert(low[2] == text::ascii_lower(token[2]));
        assert(low[3] == text::ascii_lower(token[3]));
        if token[0] == 't' || token[0] == 'T' {
            if (token[1] == 'r' || token[1] == 'R') && (token[2] == 'u' || token[2] == 'U') && (
            token[3] == 'e' || token[3] == 'E') {
                assert(low =~= "true"@);
            }
        }
    }
    if token =~= seq!['1'] {
        assert(low =~= "1"@);
    }
}

impl Ledger {
    /// How many live rows are newer than the marker.
    pub fn count_new_live(&self, marker: i64) -> (n: usize)
        ensures
            n == new_live(self.rows@, marker),
    {
        let mut n: usize = 0;
        let mut i: usize = 0;
        while i < self.rows.len()
            invariant
                i <= self.rows.len(),
                n <= i,
                n == new_live(self.rows@.take(i as int), marker),
            decreases self.rows@.len() - i,
        {
            assert(self.rows@.take(i + 1).drop_last() =~= self.rows@.take(i as int));
            if self.rows[i].superseded_by.is_none() && self.rows[i].id > marker {
                n += 1;
            }
            i += 1;
        }
        assert(self.rows@.take(i as int) =~= self.rows@);
        n
    }

    /// The largest id in the log; zero in an empty one.
    pub fn max_log_id(&self) -> (n: i64)
        ensures
            n == max_id(self.rows@),
    {
        let mut n: i64 = 0;
        let mut i: usize = 0;
        while i < self.rows.len()
            invariant
                i <= self.rows@.len(),
                n == max_id(self.rows@.take(i as int)),
            decreases self.rows@.len() - i,
        {
            assert(self.rows@.take(i + 1).drop_last() =~= self.rows@.take(i as int));
            if i == 0 || self.rows[i].id > n {
                n = self.rows[i].id;
            }
            i += 1;
        }
        assert(self.rows@.take(i as int) =~= self.rows@);
        n
    }
}

/// Where the marker is to stand after a background run: at the largest id that
/// the run sees at its start. `None` where too few live rows are new for a run.
pub open spec fn run_marker(rows: Seq<LogRow>, marker: i64, threshold: i64) -> Option<i64> {
    if new_live(rows, marker) >= threshold {
        Some(max_id(rows))
    } else {
        None
    }
}

impl Ledger {
    /// Decides whether a background run is due, and where the marker is to stand
    /// once it is over.
    pub fn plan_background_run(&self, marker: i64, threshold: i64) -> (r: Option<i64>)
        ensures
            r == run_marker(self.rows@, marker, threshold),
    {
        if self.count_new_live(marker) as i128 >= threshold as i128 {
            Some(self.max_log_id())
        } else {
            None
        }
    }
}

proof fn max_id_is_max(rows: Seq<LogRow>, i: int)
    requires
        0 <= i < rows.len(),
    ensures
        rows[i].id <= max_id(rows),
    decreases rows.len(),
{
    if i < rows.len() - 1 {
        max_id_is_max(rows.drop_last(), i);
    }
}

proof fn none_beyond(rows: Seq<LogRow>, marker: i64)
    requires
        forall|i: int| 0 <= i < rows.len() ==> (#[trigger] rows[i]).id <= marker,
    ensures
        new_live(rows, marker) == 0,
    decreases rows.len(),
{
    if rows.len() > 0 {
        assert forall|i: int| 0 <= i < rows.drop_last().len() implies (
        #[trigger] rows.drop_last()[i]).id <= marker by {
            assert(rows.drop_last()[i] == rows[i]);
        }
        none_beyond(rows.drop_last(), marker);
    }
}

/// With the marker at the largest id that a run saw at its start, the next
/// count is of the rows that were added since: none is skipped, and none that
/// the run saw is counted again.
pub proof fn marker_counts_only_later_rows(seen: Seq<LogRow>, added: Seq<LogRow>)
    ensures
        new_live(seen + added, max_id(seen)) == new_live(added, max_id(seen)),
    decreases added.len(),
{
    let marker = max_id(seen);
    if added.len() == 0 {
        assert(seen + added =~= seen);
        assert forall|i: int| 0 <= i < seen.len() implies (#[trigger] seen[i]).id <= marker by {
            max_id_is_max(seen, i);
        }
        none_beyond(seen, marker);
    } else {
        assert((seen + added).drop_last() =~= seen + added.drop_last());
        marker_counts_only_later_rows(seen, added.drop_last());
    }
}

proof fn new_live_is_bounded(rows: Seq<LogRow>, marker: i64)
    ensures
        new_live(rows, marker) <= rows.len(),
    decreases rows.len(),
{
    if rows.len() > 0 {
        new_live_is_bounded(rows.drop_last(), marker);
    }
}

/// After a run the next one waits until enough rows have been added: the rows
/// that the run saw set off no other, whether it retired them or not.
pub proof fn next_run_waits_for_new_rows(
    seen: Seq<LogRow>,
    left: Seq<LogRow>,
    added: Seq<LogRow>,
    threshold: i64,
)
    requires
        left.len() == seen.len(),
        forall|i: int| 0 <= i < seen.len() ==> (#[trigger] left[i]).id == seen[i].id,
        added.len() < threshold,
    ensures
        run_marker(left + added, max_id(seen), threshold) is None,
{
    max_id_of_same_ids(seen, left);
    marker_counts_only_later_rows(left, added);
    new_live_is_bounded(added, max_id(seen));
}

proof fn max_id_of_same_ids(a: Seq<LogRow>, b: Seq<LogRow>)
    requires
        a.len() == b.len(),
        forall|i: int| 0 <= i < a.len() ==> (#[trigger] b[i]).id == a[i].id,
    ensures
        max_id(a) == max_id(b),
    decreases a.len(),
{
    if a.len() > 0 {
        assert forall|i: int| 0 <= i < a.drop_last().len() implies (
        #[trigger] b.drop_last()[i]).id == a.drop_last()[i].id by {
            assert(b.drop_last()[i] == b[i]);
        }
        max_id_of_same_ids(a.drop_last(), b.drop_last());
        assert(b[b.len() - 1].id == a[a.len() - 1].id);
    }
}

// ---------------------------------------------------------------------------
// The audit as a table

/// `s` on one line: tabs and line feeds become spaces.
pub open spec fn one_line(s: Seq<char>) -> Seq<char> {
    s.map_values(
        |c: char|
            if c == '\t' || c == '\n' {
                ' '
            } else {
                c
            },
    )
}

fn flatten(s: &str) -> (r: String)
    ensures
        r@ == one_line(s@),
{
    let v = text::chars_of(s);
    let mut out = String::new();
    let mut i: usize = 0;
    while i < v.len()
        invariant
            v@ == s@,
            i <= v@.len(),
            out@ == one_line(s@.take(i as int)),
        decreases v@.len() - i,
    {
        let c = if v[i] == '\t' || v[i] == '\n' {
            ' '
        } else {
            v[i]
        };
        out.push(c);
        i += 1;
        assert(out@ =~= one_line(s@.take(i as int)));
    }
    assert(s@.take(i as int) =~= s@);
    out
}

/// A flag as a number.
pub open spec fn flag_text(b: bool) -> Seq<char> {
    if b {
        "1"@
    } else {
        "0"@
    }
}

/// The head of the table.
pub open spec fn tsv_head() -> Seq<char> {
    "run_ts\tkp_a\tkp_b\tdistance\trelation\taction\tsuperseded_id\tdry_run\tapplied\trationale\n"@
}

/// One audit row as a line of the table, with its distance as it is shown.
pub open spec fn tsv_line(r: AuditView, distance: Seq<char>) -> Seq<char> {
    text::integer_text(r.run_ts as int) + "\t"@ + text::integer_text(r.kp_a as int) + "\t"@
        + text::integer_text(r.kp_b as int) + "\t"@ + distance + "\t"@ + r.relation + "\t"@
        + r.action + "\t"@ + (match r.superseded_id {
        Some(x) => text::integer_text(x as int),
        None => "null"@,
    }) + "\t"@ + flag_text(r.dry_run) + "\t"@ + flag_text(r.applied) + "\t"@ + one_line(
        r.rationale,
    ) + "\n"@
}

/// The audit as a table of tab-separated values.
pub open spec fn tsv_text(rows: Seq<AuditView>, distances: Seq<Seq<char>>) -> Seq<char>
    decreases rows.len(),
{
    if rows.len() == 0 {
        tsv_head()
    } else {
        tsv_text(rows.drop_last(), distances) + tsv_line(rows.last(), distances[rows.len() - 1])
    }
}

fn show_flag(b: bool) -> (r: &'static str)
    ensures
        r@ == flag_text(b),
{
    if b {
        "1"
    } else {
        "0"
    }
}

fn show_audit_row(r: &AuditRow, distance: &str) -> (line: String)
    ensures
        line@ == tsv_line(r@, distance@),
{
    let superseded = match r.superseded_id {
        Some(x) => text::i64_text(x),
        None => "null".to_owned(),
    };
    text::i64_text(r.run_ts).concat("\t").concat(text::i64_text(r.kp_a).as_str()).concat(
        "\t",
    ).concat(text::i64_text(r.kp_b).as_str()).concat("\t").concat(distance).concat("\t").concat(
        r.relation.as_str(),
    ).concat("\t").concat(r.action.as_str()).concat("\t").concat(superseded.as_str()).concat(
        "\t",
    ).concat(show_flag(r.dry_run)).concat("\t").concat(show_flag(r.applied)).concat("\t").concat(
        flatten(r.rationale.as_str()).as_str(),
    ).concat("\n")
}

/// Writes the audit as a table. `distances` holds each row's distance as it is
/// to be shown.
pub fn audit_tsv(rows: &Vec<AuditRow>, distances: &Vec<String>) -> (r: String)
    requires
        rows@.len() == distances@.len(),
    ensures
        r@ == tsv_text(rows@.map_values(|x: AuditRow| x@), text::views(distances@)),
{
    let ghost all = rows@.map_values(|x: AuditRow| x@);
    let ghost shown = text::views(distances@);
    let mut out =
        "run_ts\tkp_a\tkp_b\tdistance\trelation\taction\tsuperseded_id\tdry_run\tapplied\trationale\n".to_owned();
    let mut i: usize = 0;
    while i < rows.len()
        invariant
            rows@.len() == distances@.len(),
            i <= rows@.len(),
            all == rows@.map_values(|x: AuditRow| x@),
            shown == text::views(distances@),
            out@ == tsv_text(all.take(i as int), shown),
        decreases rows@.len() - i,
    {
        assert(all.take(i + 1).drop_last() =~= all.take(i as int));
        assert(all.take(i + 1).last() == rows@[i as int]@);
        out.append(show_audit_row(&rows[i], distances[i].as_str()).as_str());
        i += 1;
    }
    assert(all.take(i as int) =~= all);
    out
}

// ---------------------------------------------------------------------------
// Laws of the table

/// A text on one line is as long as it was and holds the same characters, but for a
/// space in place of each tab and line feed.
pub proof fn one_line_keeps_the_text(s: Seq<char>)
    ensures
        one_line(s).len() == s.len(),
        forall|i: int|
            0 <= i < s.len() ==> #[trigger] one_line(s)[i] == (if s[i] == '\t' || s[i] == '\n' {
                ' '
            } else {
                s[i]
            }),
        forall|i: int|
            0 <= i < s.len() ==> #[trigger] one_line(s)[i] != '\t' && one_line(s)[i] != '\n',
{
}

/// The columns of a line: what its tabs part.
pub open spec fn columns(s: Seq<char>) -> Seq<Seq<char>>
    decreases s.len(),
{
    if s.len() == 0 {
        seq![Seq::empty()]
    } else {
        let rest = columns(s.skip(1));
        if s[0] == '\t' {
            seq![Seq::empty()] + rest
        } else {
            seq![seq![s[0]] + rest[0]] + rest.skip(1)
        }
    }
}

spec fn is_plain(s: Seq<char>) -> bool {
    forall|i: int| 0 <= i < s.len() ==> s[i] != '\t'
}

proof fn columns_of_plain(s: Seq<char>)
    requires
        is_plain(s),
    ensures
        columns(s) == seq![s],
    decreases s.len(),
{
    if s.len() > 0 {
        let rest = s.skip(1);
        assert forall|i: int| 0 <= i < rest.len() implies rest[i] != '\t' by {
            assert(rest[i] == s[i + 1]);
        }
        columns_of_plain(rest);
        assert(seq![s[0]] + rest =~= s);
        assert(columns(s) =~= seq![s]);
    } else {
        assert(s =~= Seq::empty());
        assert(columns(s) =~= seq![s]);
    }
}

proof fn columns_split(a: Seq<char>, b: Seq<char>)
    requires
        is_plain(b),
    ensures
        columns(a + "\t"@ + b) == columns(a).push(b),
        columns(a).len() > 0,
    decreases a.len(),
{
    reveal_strlit("\t");
    let s = a + "\t"@ + b;
    if a.len() == 0 {
        assert(s.skip(1) =~= b);
        assert(s[0] == '\t');
        columns_of_plain(b);
        assert(columns(s) =~= columns(a).push(b));
    } else {
        let rest = a.skip(1);
        columns_split(rest, b);
        assert(s.skip(1) =~= rest + "\t"@ + b);
        assert(s[0] == a[0]);
        assert(columns(s) =~= columns(a).push(b));
    }
}

proof fn columns_are_joined(cols: Seq<Seq<char>>, next: Seq<char>)
    requires
        cols.len() > 0,
        columns(text::joined(cols, "\t"@)) == cols,
        is_plain(next),
    ensures
        text::joined(cols.push(next), "\t"@) == text::joined(cols, "\t"@) + "\t"@ + next,
        columns(text::joined(cols.push(next), "\t"@)) == cols.push(next),
{
    assert(cols.push(next).drop_last() =~= cols);
    columns_split(text::joined(cols, "\t"@), next);
}

proof fn numbers_are_plain(n: int)
    ensures
        is_plain(text::integer_text(n)),
{
    if n < 0 {
        let m = (-n) as nat;
        text::naturals_read_back(m);
        assert forall|i: int| 0 <= i < text::integer_text(n).len() implies text::integer_text(n)[i]
            != '\t' by {
            if i > 0 {
                assert(text::is_digit(text::decimal_text(m)[i - 1]));
            }
        }
    } else {
        text::naturals_read_back(n as nat);
        assert forall|i: int| 0 <= i < text::integer_text(n).len() implies text::integer_text(n)[i]
            != '\t' by {
            assert(text::is_digit(text::decimal_text(n as nat)[i]));
        }
    }
}

/// A line of the table has ten columns, from which the audit row can be read: its
/// time, the two rows, the distance, the relation, the action, the row that the judge
/// named, whether it was a dry run, whether it was applied, and the rationale.
pub proof fn table_lines_read_back(r: AuditView, distance: Seq<char>)
    requires
        forall|i: int| 0 <= i < distance.len() ==> distance[i] != '\t',
        forall|i: int| 0 <= i < r.relation.len() ==> r.relation[i] != '\t',
        forall|i: int| 0 <= i < r.action.len() ==> r.action[i] != '\t',
    ensures
        ({
            let line = tsv_line(r, distance);
            let found = columns(line.take(line.len() - 1));
            &&& line.len() > 0 && line[line.len() - 1] == '\n'
            &&& found.len() == 10
            &&& text::int64_of(found[0]) == Some(r.run_ts)
            &&& text::int64_of(found[1]) == Some(r.kp_a)
            &&& text::int64_of(found[2]) == Some(r.kp_b)
            &&& found[3] == distance
            &&& found[4] == r.relation
            &&& found[5] == r.action
            &&& r.superseded_id is Some ==> text::int64_of(found[6]) == r.superseded_id
            &&& r.superseded_id is None ==> found[6] == "null"@
            &&& found[7] == seq![if r.dry_run {
                '1'
            } else {
                '0'
            }]
            &&& found[8] == seq![if r.applied {
                '1'
            } else {
                '0'
            }]
            &&& found[9] == one_line(r.rationale)
        }),
{
    reveal_strlit("\t");
    reveal_strlit("\n");
    reveal_strlit("null");
    reveal_strlit("0");
    reveal_strlit("1");
    let tab = "\t"@;
    let c0 = text::integer_text(r.run_ts as int);
    let c1 = text::integer_text(r.kp_a as int);
    let c2 = text::integer_text(r.kp_b as int);
    let c6 = match r.superseded_id {
        Some(x) => text::integer_text(x as int),
        None => "null"@,
    };
    let c7 = flag_text(r.dry_run);
    let c8 = flag_text(r.applied);
    let c9 = one_line(r.rationale);
    numbers_are_plain(r.run_ts as int);
    numbers_are_plain(r.kp_a as int);
    numbers_are_plain(r.kp_b as int);
    text::integers_read_back(r.run_ts);
    text::integers_read_back(r.kp_a);
    text::integers_read_back(r.kp_b);
    if let Some(x) = r.superseded_id {
        numbers_are_plain(x as int);
        text::integers_read_back(x);
    }
    one_line_keeps_the_text(r.rationale);
    let k0 = Seq::<Seq<char>>::empty().push(c0);
    columns_of_plain(c0);
    assert(seq![c0] =~= k0);
    assert(text::joined(k0, tab) == c0);
    columns_are_joined(k0, c1);
    let k1 = k0.push(c1);
    columns_are_joined(k1, c2);
    let k2 = k1.push(c2);
    columns_are_joined(k2, distance);
    let k3 = k2.push(distance);
    columns_are_joined(k3, r.relation);
    let k4 = k3.push(r.relation);
    columns_are_joined(k4, r.action);
    let k5 = k4.push(r.action);
    columns_are_joined(k5, c6);
    let k6 = k5.push(c6);
    columns_are_joined(k6, c7);
    let k7 = k6.push(c7);
    columns_are_joined(k7, c8);
    let k8 = k7.push(c8);
    columns_are_joined(k8, c9);
    let k9 = k8.push(c9);
    let line = tsv_line(r, distance);
    assert(line == text::joined(k9, tab) + "\n"@);
    assert(line.take(line.len() - 1) =~= text::joined(k9, tab));
    assert(c7 =~= seq![if r.dry_run {
        '1'
    } else {
        '0'
    }]);
    assert(c8 =~= seq![if r.applied {
        '1'
    } else {
        '0'
    }]);
}

/// The head names the ten columns, in their order.
pub proof fn head_names_the_columns()
    ensures
        tsv_head() == text::joined(
            seq![
                "run_ts"@,
                "kp_a"@,
                "kp_b"@,
                "distance"@,
                "relation"@,
                "action"@,
                "superseded_id"@,
                "dry_run"@,
                "applied"@,
                "rationale"@,
            ],
            "\t"@,
        ) + "\n"@,
{
    reveal_strlit(
        "run_ts\tkp_a\tkp_b\tdistance\trelation\taction\tsuperseded_id\tdry_run\tapplied\trationale\n",
    );
    reveal_strlit("run_ts");
    reveal_strlit("kp_a");
    reveal_strlit("kp_b");
    reveal_strlit("distance");
    reveal_strlit("relation");
    reveal_strlit("action");
    reveal_strlit("superseded_id");
    reveal_strlit("dry_run");
    reveal_strlit("applied");
    reveal_strlit("rationale");
    reveal_strlit("\t");
    reveal_strlit("\n");
    let tab = "\t"@;
    let k0 = Seq::<Seq<char>>::empty().push("run_ts"@);
    let k1 = k0.push("kp_a"@);
    let k2 = k1.push("kp_b"@);
    let k3 = k2.push("distance"@);
    let k4 = k3.push("relation"@);
    let k5 = k4.push("action"@);
    let k6 = k5.push("superseded_id"@);
    let k7 = k6.push("dry_run"@);
    let k8 = k7.push("applied"@);
    let k9 = k8.push("rationale"@);
    one_more_column(k0, "kp_a"@);
    one_more_column(k1, "kp_b"@);
    one_more_column(k2, "distance"@);
    one_more_column(k3, "relation"@);
    one_more_column(k4, "action"@);
    one_more_column(k5, "superseded_id"@);
    one_more_column(k6, "dry_run"@);
    one_more_column(k7, "applied"@);
    one_more_column(k8, "rationale"@);
    assert(text::joined(k0, tab) == "run_ts"@);
    assert(tsv_head() =~= text::joined(k9, tab) + "\n"@);
    assert(k9 =~= seq![
        "run_ts"@,
        "kp_a"@,
        "kp_b"@,
        "distance"@,
        "relation"@,
        "action"@,
        "superseded_id"@,
        "dry_run"@,
        "applied"@,
        "rationale"@,
    ]);
}

proof fn one_more_column(cols: Seq<Seq<char>>, next: Seq<char>)
    requires
        cols.len() > 0,
    ensures
        text::joined(cols.push(next), "\t"@) == text::joined(cols, "\t"@) + "\t"@ + next,
{
    assert(cols.push(next).drop_last() =~= cols);
}

/// The table begins with its head, and every row adds its line behind those before.
pub proof fn every_row_has_its_line(rows: Seq<AuditView>, distances: Seq<Seq<char>>, i: int)
    requires
        0 <= i < rows.len(),
    ensures
        text::begins(tsv_text(rows, distances), tsv_head()),
        text::begins(
            tsv_text(rows, distances),
            tsv_text(rows.take(i), distances) + tsv_line(rows[i], distances[i]),
        ),
    decreases rows.len(),
{
    let before = rows.drop_last();
    let whole = tsv_text(rows, distances);
    let line = tsv_line(rows.last(), distances[rows.len() - 1]);
    let head = tsv_text(before, distances);
    assert(whole == head + line);
    if i < before.len() {
        every_row_has_its_line(before, distances, i);
        assert(before.take(i) =~= rows.take(i));
        let part = tsv_text(rows.take(i), distances) + tsv_line(rows[i], distances[i]);
        assert(whole.take(part.len() as int) =~= head.take(part.len() as int));
        assert(whole.take(tsv_head().len() as int) =~= head.take(tsv_head().len() as int));
    } else {
        assert(rows.take(i) =~= before);
        assert(whole.take(whole.len() as int) =~= whole);
        if before.len() == 0 {
            assert(whole.take(tsv_head().len() as int) =~= tsv_head());
        } else {
            every_row_has_its_line(before, distances, 0);
            assert(whole.take(tsv_head().len() as int) =~= head.take(tsv_head().len() as int));
        }
    }
}

/// A call that ends is kept behind those that ended before it on its pair, so that every
/// try counts; what the pair has come to is decided by it and by how many there were; and no
/// other pair is touched. Where no call runs on the pair, nothing changes.
pub proof fn ended_calls_count_on_their_pair(v: JudgingView, i: int, call: JudgeOutcome)
    ensures
        ({
            let w = with_call_ended(v, i, call);
            let runs = 0 <= i < v.lanes.len() && v.lanes[i].begun && lane_verdict(
                v.lanes[i],
                v.timeout_secs,
            ) is None;
            &&& w.timeout_secs == v.timeout_secs
            &&& w.lanes.len() == v.lanes.len()
            &&& forall|j: int|
                0 <= j < v.lanes.len() && (j != i || !runs) ==> #[trigger] w.lanes[j] == v.lanes[j]
            &&& runs ==> {
                &&& w.lanes[i].ended.len() == v.lanes[i].ended.len() + 1
                &&& w.lanes[i].ended.drop_last() == v.lanes[i].ended
                &&& w.lanes[i].ended.last() == call
                &&& w.lanes[i].a == v.lanes[i].a && w.lanes[i].b == v.lanes[i].b
                &&& w.lanes[i].distance == v.lanes[i].distance
                &&& w.lanes[i].begun
                &&& lane_verdict(w.lanes[i], v.timeout_secs) == judge_step(
                    v.lanes[i].ended.len() as int + 1,
                    v.timeout_secs,
                    call,
                )
            }
        }),
{
    if 0 <= i < v.lanes.len() && is_running(v.lanes[i], v.timeout_secs) {
        let w = with_call_ended(v, i, call);
        assert(w.lanes[i].ended.drop_last() =~= v.lanes[i].ended);
    }
}

/// Beginning the next pair begins that one alone, and none where there is none to begin.
pub proof fn one_pair_is_begun_at_a_time(v: JudgingView)
    ensures
        ({
            let w = with_next_begun(v);
            &&& w.timeout_secs == v.timeout_secs
            &&& w.lanes.len() == v.lanes.len()
            &&& forall|j: int|
                0 <= j < v.lanes.len() && next_lane(v) != Some(j) ==> #[trigger] w.lanes[j]
                    == v.lanes[j]
            &&& next_lane(v) matches Some(i) ==> {
                &&& w.lanes[i].begun
                &&& w.lanes[i].ended == v.lanes[i].ended
                &&& w.lanes[i].a == v.lanes[i].a && w.lanes[i].b == v.lanes[i].b
                &&& w.lanes[i].distance == v.lanes[i].distance
            }
        }),
{
    first_waiting_is_first(v.lanes, 0);
}

} // verus!
