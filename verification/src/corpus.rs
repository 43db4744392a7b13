//! The evaluation corpus: what a case's ground truth expects, and how ingested
//! lines and distilled rows are held against it.
use crate::render;
use crate::render::ParsedLine;
use crate::text;
use vstd::prelude::*;
use vstd::string::*;

verus! {

/// What ingesting a case's rollout is to give.
#[derive(Debug, Clone, Default)]
pub struct ExpectedIngest {
    pub raw_event_count: i64,
    pub kept_line_nos: Vec<i64>,
    pub dropped_line_nos: Vec<i64>,
    pub boundary_line_nos: Vec<i64>,
}

/// A knowledge point that distillation is to find.
#[derive(Debug, Clone, Default)]
pub struct ExpectedKp {
    /// Advisory: the same lesson is validly framed under more than one kind.
    pub kind: Option<String>,
    pub summary_must_contain_any: Vec<String>,
    pub summary_must_not_contain: Vec<String>,
    /// Every group needs one of its members in the detail.
    pub detail_must_mention_all: Vec<Vec<String>>,
    pub detail_must_not_mention: Vec<String>,
}

/// What distilling a case is to give.
#[derive(Debug, Clone, Default)]
pub struct ExpectedDistill {
    pub expected_kp_count: i64,
    pub knowledge_points: Vec<ExpectedKp>,
}

/// What distilling one segment of a case is to give.
#[derive(Debug, Clone, Default)]
pub struct ExpectedSegment {
    pub segment_index: i64,
    pub expected_kp_count: i64,
    pub knowledge_points: Vec<ExpectedKp>,
    pub prior_summary_note: String,
}

/// What a search in a case's memory is to find.
#[derive(Debug, Clone, Default)]
pub struct ExpectedSearch {
    pub query: String,
    pub limit: u64,
    pub expected_top1_summary_must_match_any: Vec<String>,
    pub expected_top1_summary_must_not_match: Vec<String>,
    /// Every group is to be met by some hit.
    pub expected_topk_members: Vec<Vec<String>>,
}

/// How a case's knowledge relates to that of another case.
#[derive(Debug, Clone, Default)]
pub struct ConsolidationRelation {
    pub with_case: String,
    pub relation: String,
    pub expected_action: String,
    pub reason: String,
}

/// What is expected of one case.
#[derive(Debug, Clone, Default)]
pub struct GroundTruth {
    pub case_id: String,
    pub title: String,
    pub agent_id: String,
    pub team_id: String,
    pub project_hash: String,
    pub expected_ingest: Option<ExpectedIngest>,
    pub expected_distill: Option<ExpectedDistill>,
    pub expected_distill_segments: Option<Vec<ExpectedSegment>>,
    /// Each group needs one of its members somewhere in the case's rows.
    pub expected_distill_case_level: Vec<Vec<String>>,
    /// None of these may stand in any of the case's rows.
    pub expected_distill_case_level_forbidden: Vec<String>,
    pub expected_search: Vec<ExpectedSearch>,
    pub consolidation_relations: Vec<ConsolidationRelation>,
    /// Cases of one group share a memory; empty for a case on its own.
    pub group: String,
    pub created_at_offset_hours: Option<i64>,
}

/// The characters of each string of each group.
pub open spec fn group_views(groups: Seq<Vec<String>>) -> Seq<Seq<Seq<char>>> {
    groups.map_values(|g: Vec<String>| text::views(g@))
}

#[verifier::ext_equal]
pub ghost struct KpView {
    pub kind: Option<Seq<char>>,
    pub summary_any: Seq<Seq<char>>,
    pub summary_not: Seq<Seq<char>>,
    pub detail_all: Seq<Seq<Seq<char>>>,
    pub detail_not: Seq<Seq<char>>,
}

impl View for ExpectedKp {
    type V = KpView;

    open spec fn view(&self) -> KpView {
        KpView {
            kind: text::opt_view(self.kind),
            summary_any: text::views(self.summary_must_contain_any@),
            summary_not: text::views(self.summary_must_not_contain@),
            detail_all: group_views(self.detail_must_mention_all@),
            detail_not: text::views(self.detail_must_not_mention@),
        }
    }
}

pub open spec fn kp_views(kps: Seq<ExpectedKp>) -> Seq<KpView> {
    kps.map_values(|k: ExpectedKp| k@)
}

// ---------------------------------------------------------------------------
// Matching

/// The needle stands in the text, whatever the case.
pub open spec fn ci_has(haystack: Seq<char>, needle: Seq<char>) -> bool {
    text::has(text::lowercase(haystack), text::lowercase(needle))
}

/// One of the needles stands in the text, whatever the case.
pub open spec fn any_has(haystack: Seq<char>, needles: Seq<Seq<char>>) -> bool {
    exists|i: int| 0 <= i < needles.len() && ci_has(haystack, #[trigger] needles[i])
}

/// Each group that is not empty has a member in the text.
pub open spec fn groups_met(haystack: Seq<char>, groups: Seq<Seq<Seq<char>>>) -> bool {
    forall|i: int|
        0 <= i < groups.len() ==> (#[trigger] groups[i]).len() == 0 || any_has(haystack, groups[i])
}

/// Whether the needle stands in the text, whatever the case.
pub fn ci_contains(haystack: &str, needle: &str) -> (r: bool)
    ensures
        r == ci_has(haystack@, needle@),
{
    text::contains(text::to_lowercase(haystack).as_str(), text::to_lowercase(needle).as_str())
}

/// Whether one of the needles stands in the text, whatever the case.
pub fn any_ci(haystack: &str, needles: &[String]) -> (r: bool)
    ensures
        r == any_has(haystack@, text::views(needles@)),
{
    let ghost all = text::views(needles@);
    let mut i: usize = 0;
    while i < needles.len()
        invariant
            i <= needles@.len(),
            all == text::views(needles@),
            forall|j: int| 0 <= j < i ==> !ci_has(haystack@, #[trigger] all[j]),
        decreases needles@.len() - i,
    {
        assert(all[i as int] == needles@[i as int]@);
        if ci_contains(haystack, needles[i].as_str()) {
            return true;
        }
        i += 1;
    }
    false
}

/// Whether each group that is not empty has a member in the text.
pub fn all_groups(detail: &str, groups: &[Vec<String>]) -> (r: bool)
    ensures
        r == groups_met(detail@, group_views(groups@)),
{
    let ghost all = group_views(groups@);
    let mut i: usize = 0;
    while i < groups.len()
        invariant
            i <= groups@.len(),
            all == group_views(groups@),
            forall|j: int|
                0 <= j < i ==> (#[trigger] all[j]).len() == 0 || any_has(detail@, all[j]),
        decreases groups@.len() - i,
    {
        assert(all[i as int] == text::views(groups@[i as int]@));
        if groups[i].len() > 0 && !any_ci(detail, groups[i].as_slice()) {
            return false;
        }
        i += 1;
    }
    true
}

/// The kinds are the same but for white space around them and ASCII case.
pub open spec fn same_kind(a: Seq<char>, b: Seq<char>) -> bool {
    text::ascii_lowercase(text::trimmed(a)) == text::ascii_lowercase(text::trimmed(b))
}

/// Whether two kinds are the same but for white space around them and ASCII
/// case.
pub fn kind_eq(a: &str, b: &str) -> (r: bool)
    ensures
        r == same_kind(a@, b@),
{
    text::same(
        text::to_ascii_lowercase(text::trim(a)).as_str(),
        text::to_ascii_lowercase(text::trim(b)).as_str(),
    )
}

// ---------------------------------------------------------------------------
// Finding the row of a case

/// The groups that are not empty.
pub open spec fn filled(groups: Seq<Seq<Seq<char>>>) -> Seq<Seq<Seq<char>>>
    decreases groups.len(),
{
    if groups.len() == 0 {
        Seq::empty()
    } else if groups.last().len() == 0 {
        filled(groups.drop_last())
    } else {
        filled(groups.drop_last()).push(groups.last())
    }
}

/// The groups by which the row of a case is found: those of the case where it
/// has any, else those of its first knowledge point.
pub open spec fn locators(gt: GroundTruth) -> Seq<Seq<Seq<char>>> {
    if gt.expected_distill_case_level@.len() > 0 {
        group_views(gt.expected_distill_case_level@)
    } else {
        match gt.expected_distill {
            Some(d) => if d.knowledge_points@.len() > 0 {
                let kp = d.knowledge_points@[0]@;
                filled(seq![kp.summary_any] + kp.detail_all)
            } else {
                Seq::empty()
            },
            None => Seq::empty(),
        }
    }
}

fn copy_group(group: &Vec<String>) -> (r: Vec<String>)
    ensures
        text::views(r@) == text::views(group@),
{
    let mut out: Vec<String> = Vec::new();
    let mut i: usize = 0;
    while i < group.len()
        invariant
            i <= group@.len(),
            out@.len() == i,
            forall|j: int| 0 <= j < i ==> (#[trigger] out@[j])@ == group@[j]@,
        decreases group@.len() - i,
    {
        out.push(group[i].clone());
        i += 1;
    }
    assert(text::views(out@) =~= text::views(group@));
    out
}

/// Adds the groups that are not empty.
fn add_filled(out: &mut Vec<Vec<String>>, groups: &Vec<Vec<String>>)
    ensures
        group_views(final(out)@) == group_views(old(out)@) + filled(group_views(groups@)),
{
    let ghost all = group_views(groups@);
    let ghost before = group_views(out@);
    let mut i: usize = 0;
    assert(filled(all.take(0)) =~= Seq::empty());
    while i < groups.len()
        invariant
            i <= groups@.len(),
            all == group_views(groups@),
            group_views(out@) == before + filled(all.take(i as int)),
        decreases groups@.len() - i,
    {
        let ghost so_far = out@;
        assert(all.take(i + 1).drop_last() =~= all.take(i as int));
        assert(all[i as int] == text::views(groups@[i as int]@));
        if groups[i].len() > 0 {
            out.push(copy_group(&groups[i]));
            assert(group_views(out@) =~= group_views(so_far).push(all[i as int]));
        }
        i += 1;
        assert(group_views(out@) =~= before + filled(all.take(i as int)));
    }
    assert(all.take(i as int) =~= all);
}

/// The groups by which the row of a case is found: those of the case where it
/// has any, else those of its first knowledge point.
pub fn locator_groups(gt: &GroundTruth) -> (r: Vec<Vec<String>>)
    ensures
        group_views(r@) == locators(*gt),
{
    let mut out: Vec<Vec<String>> = Vec::new();
    if gt.expected_distill_case_level.len() > 0 {
        let mut i: usize = 0;
        while i < gt.expected_distill_case_level.len()
            invariant
                i <= gt.expected_distill_case_level@.len(),
                out@.len() == i,
                forall|j: int|
                    0 <= j < i ==> text::views((#[trigger] out@[j])@) == text::views(
                        gt.expected_distill_case_level@[j]@,
                    ),
            decreases gt.expected_distill_case_level@.len() - i,
        {
            out.push(copy_group(&gt.expected_distill_case_level[i]));
            i += 1;
        }
        assert(group_views(out@) =~= group_views(gt.expected_distill_case_level@));
        return out;
    }
    match &gt.expected_distill {
        Some(d) => {
            if d.knowledge_points.len() > 0 {
                let kp = &d.knowledge_points[0];
                let ghost summary = kp@.summary_any;
                if kp.summary_must_contain_any.len() > 0 {
                    out.push(copy_group(&kp.summary_must_contain_any));
                    assert(group_views(out@) =~= seq![summary]);
                }
                proof {
                    filled_parts(seq![summary], kp@.detail_all);
                    assert(seq![summary].drop_last() =~= Seq::empty());
                    assert(filled(seq![summary].drop_last()) =~= Seq::empty());
                    assert(group_views(out@) =~= filled(seq![summary]));
                }
                add_filled(&mut out, &kp.detail_must_mention_all);
            } else {
                assert(group_views(out@) =~= Seq::empty());
            }
        },
        None => {
            assert(group_views(out@) =~= Seq::empty());
        },
    }
    out
}

proof fn filled_parts(a: Seq<Seq<Seq<char>>>, b: Seq<Seq<Seq<char>>>)
    ensures
        filled(a + b) == filled(a) + filled(b),
    decreases b.len(),
{
    if b.len() == 0 {
        assert(a + b =~= a);
        assert(filled(b) =~= Seq::empty());
        assert(filled(a) + filled(b) =~= filled(a));
    } else {
        filled_parts(a, b.drop_last());
        assert((a + b).drop_last() =~= a + b.drop_last());
        assert(filled(a + b) =~= filled(a) + filled(b));
    }
}

/// The summary and the detail of a row, as they are searched.
pub open spec fn row_text(summary: Seq<char>, detail: Option<Seq<char>>) -> Seq<char> {
    summary + "\n"@ + match detail {
        Some(d) => d,
        None => ""@,
    }
}

/// The id of the first row in whose text one of the tokens stands.
pub open spec fn first_located(
    rows: Seq<(i64, String, Option<String>)>,
    tokens: Seq<Seq<char>>,
) -> Option<i64>
    decreases rows.len(),
{
    if rows.len() == 0 {
        None
    } else if any_has(row_text(rows[0].1@, text::opt_view(rows[0].2)), tokens) {
        Some(rows[0].0)
    } else {
        first_located(rows.drop_first(), tokens)
    }
}

pub(crate) fn text_or_empty(s: &Option<String>) -> (r: &str)
    ensures
        r@ == match text::opt_view(*s) {
            Some(d) => d,
            None => ""@,
        },
{
    match s {
        Some(d) => d.as_str(),
        None => "",
    }
}

/// The id of the first distilled row in whose text one of the tokens stands.
pub fn find_distilled_id(
    rows: &Vec<(i64, String, Option<String>)>,
    tokens: &[String],
) -> (r: Option<i64>)
    ensures
        r == first_located(rows@, text::views(tokens@)),
{
    let mut i: usize = 0;
    assert(rows@.skip(0) =~= rows@);
    while i < rows.len()
        invariant
            i <= rows@.len(),
            first_located(rows@, text::views(tokens@)) == first_located(
                rows@.skip(i as int),
                text::views(tokens@),
            ),
        decreases rows@.len() - i,
    {
        assert(rows@.skip(i as int).drop_first() =~= rows@.skip(i + 1));
        assert(rows@.skip(i as int)[0] == rows@[i as int]);
        let whole = rows[i].1.clone().concat("\n").concat(text_or_empty(&rows[i].2));
        if any_ci(whole.as_str(), tokens) {
            return Some(rows[i].0);
        }
        i += 1;
    }
    None
}

// ---------------------------------------------------------------------------
// Ingested lines against the ground truth

/// The faults that are found in the items, in their order.
pub open spec fn found<A>(items: Seq<A>, fault: spec_fn(A) -> Option<Seq<char>>) -> Seq<Seq<char>>
    decreases items.len(),
{
    if items.len() == 0 {
        Seq::empty()
    } else {
        match fault(items.last()) {
            Some(m) => found(items.drop_last(), fault).push(m),
            None => found(items.drop_last(), fault),
        }
    }
}

/// The name of a line's class.
pub open spec fn class_name(line: render::LineView) -> Seq<char> {
    match line {
        render::LineView::Kept(_) => "kept"@,
        render::LineView::Boundary(_) => "boundary"@,
        render::LineView::Dropped => "dropped"@,
    }
}

/// The name of the class of a raw line.
pub fn classify(payload: &str) -> (r: &'static str)
    ensures
        r@ == class_name(render::text_line(payload@)),
{
    match render::parse_line(payload) {
        ParsedLine::Kept(_) => "kept",
        ParsedLine::Boundary { .. } => "boundary",
        ParsedLine::Dropped => "dropped",
    }
}

/// The class under which a line number is listed. Where it is listed more than
/// once, a boundary outranks a dropped line, and that a kept one.
pub open spec fn listed_class(exp: ExpectedIngest, n: i64) -> Option<Seq<char>> {
    if exp.boundary_line_nos@.contains(n) {
        Some("boundary"@)
    } else if exp.dropped_line_nos@.contains(n) {
        Some("dropped"@)
    } else if exp.kept_line_nos@.contains(n) {
        Some("kept"@)
    } else {
        None
    }
}

/// `[1, 2]`: numbers as `{:?}` shows a list of them.
pub open spec fn number_list(numbers: Seq<i64>) -> Seq<char> {
    "["@ + text::joined(numbers.map_values(|n: i64| text::integer_text(n as int)), ", "@) + "]"@
}

/// What is wrong with the class of a line.
pub open spec fn class_fault(exp: ExpectedIngest) -> spec_fn((i64, String)) -> Option<Seq<char>> {
    |row: (i64, String)|
        {
            let class = class_name(render::text_line(row.1@));
            let label = "L"@ + text::integer_text(row.0 as int);
            match listed_class(exp, row.0) {
                Some(listed) => if listed == class {
                    None
                } else {
                    Some(
                        label + ": parse_line(Rust)="@ + class + " but yaml="@ + listed + "  ::  "@
                            + row.1@.take(
                            if row.1@.len() < 90 {
                                row.1@.len() as int
                            } else {
                                90
                            },
                        ),
                    )
                },
                None => Some(
                    label + ": Rust="@ + class + " but yaml lists no class for this line"@,
                ),
            }
        }
}

/// The line numbers of the rows.
pub open spec fn line_nos(rows: Seq<(i64, String)>) -> Seq<i64> {
    rows.map_values(|row: (i64, String)| row.0)
}

/// The numbers from one on, without a gap.
pub open spec fn counts_up(numbers: Seq<i64>) -> bool {
    forall|i: int| 0 <= i < numbers.len() ==> #[trigger] numbers[i] == i + 1
}

/// What is wrong with the number of rows and with their line numbers.
pub open spec fn count_faults(exp: ExpectedIngest, rows: Seq<(i64, String)>) -> Seq<Seq<char>> {
    let count = text::integer_text(rows.len() as int);
    let wrong_count = "raw_event_count: ingester="@ + count + " yaml="@ + text::integer_text(
        exp.raw_event_count as int,
    );
    let gaps = "line_no set not contiguous 1..="@ + count + ": got "@ + number_list(line_nos(rows));
    (if rows.len() != exp.raw_event_count {
        seq![wrong_count]
    } else {
        Seq::empty()
    }) + (if counts_up(line_nos(rows)) {
        Seq::empty()
    } else {
        seq![gaps]
    })
}

/// All that is wrong with the rows that ingesting a case gave.
pub open spec fn ingest_faults(exp: ExpectedIngest, rows: Seq<(i64, String)>) -> Seq<Seq<char>> {
    count_faults(exp, rows) + found(rows, class_fault(exp))
}

/// How the rows that ingesting a case gave stand against what is expected.
pub open spec fn layer_a(
    case_id: Seq<char>,
    expected: Option<ExpectedIngest>,
    rows: Seq<(i64, String)>,
) -> Result<(), Seq<char>> {
    match expected {
        None => Err(case_id + ": missing expected_ingest"@),
        Some(exp) => {
            let faults = ingest_faults(exp, rows);
            if faults.len() == 0 {
                Ok(())
            } else {
                Err("["@ + case_id + "] "@ + text::joined(faults, "\n         "@))
            }
        },
    }
}

fn lists_number(numbers: &Vec<i64>, n: i64) -> (r: bool)
    ensures
        r == numbers@.contains(n),
{
    let mut i: usize = 0;
    while i < numbers.len()
        invariant
            i <= numbers@.len(),
            forall|j: int| 0 <= j < i ==> #[trigger] numbers@[j] != n,
        decreases numbers@.len() - i,
    {
        if numbers[i] == n {
            return true;
        }
        i += 1;
    }
    false
}

fn find_class(exp: &ExpectedIngest, n: i64) -> (r: Option<&'static str>)
    ensures
        text::opt_str_view(r) == listed_class(*exp, n),
{
    if lists_number(&exp.boundary_line_nos, n) {
        Some("boundary")
    } else if lists_number(&exp.dropped_line_nos, n) {
        Some("dropped")
    } else if lists_number(&exp.kept_line_nos, n) {
        Some("kept")
    } else {
        None
    }
}

fn show_line_nos(rows: &Vec<(i64, String)>) -> (r: String)
    ensures
        r@ == number_list(line_nos(rows@)),
{
    let ghost wanted = line_nos(rows@).map_values(|n: i64| text::integer_text(n as int));
    let mut shown: Vec<String> = Vec::new();
    let mut i: usize = 0;
    while i < rows.len()
        invariant
            i <= rows@.len(),
            wanted == line_nos(rows@).map_values(|n: i64| text::integer_text(n as int)),
            shown@.len() == i,
            forall|j: int| 0 <= j < i ==> (#[trigger] shown@[j])@ == wanted[j],
        decreases rows@.len() - i,
    {
        shown.push(text::i64_text(rows[i].0));
        i += 1;
    }
    assert(text::views(shown@) =~= wanted);
    "[".to_owned().concat(text::join(&shown, ", ").as_str()).concat("]")
}

fn check_counts(exp: &ExpectedIngest, rows: &Vec<(i64, String)>) -> (r: Vec<String>)
    ensures
        text::views(r@) == count_faults(*exp, rows@),
{
    let mut errs: Vec<String> = Vec::new();
    let count = text::u64_text(rows.len() as u64);
    if rows.len() as i128 != exp.raw_event_count as i128 {
        errs.push(
            "raw_event_count: ingester=".to_owned().concat(count.as_str()).concat(" yaml=").concat(
                text::i64_text(exp.raw_event_count).as_str(),
            ),
        );
    }
    let ghost counted = text::views(errs@);
    let mut up = true;
    let mut i: usize = 0;
    while i < rows.len()
        invariant
            i <= rows.len(),
            up == counts_up(line_nos(rows@).take(i as int)),
        decreases rows@.len() - i,
    {
        let ghost seen = line_nos(rows@).take(i as int);
        let ghost next = line_nos(rows@).take(i + 1);
        assert(next[i as int] == rows@[i as int].0);
        assert(forall|j: int| 0 <= j < i ==> seen[j] == #[trigger] next[j]);
        if rows[i].0 as i128 != i as i128 + 1 {
            up = false;
        }
        i += 1;
        assert(up == counts_up(next)) by {
            if counts_up(next) {
                assert forall|j: int| 0 <= j < seen.len() implies #[trigger] seen[j] == j + 1 by {
                    assert(next[j] == j + 1);
                }
            }
        }
    }
    assert(line_nos(rows@).take(i as int) =~= line_nos(rows@));
    if !up {
        errs.push(
            "line_no set not contiguous 1..=".to_owned().concat(count.as_str()).concat(
                ": got ",
            ).concat(show_line_nos(rows).as_str()),
        );
        assert(text::views(errs@) =~= counted.push(errs@.last()@));
    }
    assert(text::views(errs@) =~= count_faults(*exp, rows@));
    errs
}

fn check_class(exp: &ExpectedIngest, row: &(i64, String)) -> (r: Option<String>)
    ensures
        text::opt_view(r) == class_fault(*exp)(*row),
{
    let class = classify(row.1.as_str());
    let label = "L".to_owned().concat(text::i64_text(row.0).as_str());
    match find_class(exp, row.0) {
        Some(listed) => {
            if text::same(listed, class) {
                None
            } else {
                Some(
                    label.concat(": parse_line(Rust)=").concat(class).concat(" but yaml=").concat(
                        listed,
                    ).concat("  ::  ").concat(
                        text::head(
                            row.1.as_str(),
                            if row.1.as_str().unicode_len() < 90 {
                                row.1.as_str().unicode_len()
                            } else {
                                90
                            },
                        ),
                    ),
                )
            }
        },
        None => Some(
            label.concat(": Rust=").concat(class).concat(
                " but yaml lists no class for this line",
            ),
        ),
    }
}

/// Holds the rows that ingesting a case gave against what is expected: their
/// number, their line numbers, and the class of each line.
pub fn check_layer_a(
    case_id: &str,
    expected: &Option<ExpectedIngest>,
    rows: &Vec<(i64, String)>,
) -> (r: Result<(), String>)
    ensures
        match r {
            Ok(_) => layer_a(case_id@, *expected, rows@) == Ok::<(), Seq<char>>(()),
            Err(e) => layer_a(case_id@, *expected, rows@) == Err::<(), Seq<char>>(e@),
        },
{
    let exp = match expected {
        Some(exp) => exp,
        None => return Err(case_id.to_owned().concat(": missing expected_ingest")),
    };
    let mut errs = check_counts(exp, rows);
    let ghost counted = count_faults(*exp, rows@);
    let ghost fault = class_fault(*exp);
    let mut i: usize = 0;
    assert(found(rows@.take(0), fault) =~= Seq::empty());
    while i < rows.len()
        invariant
            i <= rows@.len(),
            fault == class_fault(*exp),
            text::views(errs@) == counted + found(rows@.take(i as int), fault),
        decreases rows@.len() - i,
    {
        let ghost before = errs@;
        assert(rows@.take(i + 1).drop_last() =~= rows@.take(i as int));
        if let Some(m) = check_class(exp, &rows[i]) {
            errs.push(m);
            assert(text::views(errs@) =~= text::views(before).push(m@));
        }
        i += 1;
        assert(text::views(errs@) =~= counted + found(rows@.take(i as int), fault));
    }
    assert(rows@.take(i as int) =~= rows@);
    assert(text::views(errs@).len() == errs@.len());
    if errs.len() == 0 {
        Ok(())
    } else {
        Err(
            "[".to_owned().concat(case_id).concat("] ").concat(
                text::join(&errs, "\n         ").as_str(),
            ),
        )
    }
}

// ---------------------------------------------------------------------------
// Distilled rows against the ground truth

/// A row that distillation wrote.
#[derive(Debug, Clone, Default)]
pub struct DistilledRow {
    pub kind: String,
    pub summary: String,
    pub detail: Option<String>,
}

#[verifier::ext_equal]
pub ghost struct RowView {
    pub kind: Seq<char>,
    pub summary: Seq<char>,
    pub detail: Option<Seq<char>>,
}

impl View for DistilledRow {
    type V = RowView;

    open spec fn view(&self) -> RowView {
        RowView { kind: self.kind@, summary: self.summary@, detail: text::opt_view(self.detail) }
    }
}

impl RowView {
    /// The detail, empty where there is none.
    pub open spec fn detail_text(self) -> Seq<char> {
        match self.detail {
            Some(d) => d,
            None => ""@,
        }
    }
}

pub open spec fn row_views(rows: Seq<DistilledRow>) -> Seq<RowView> {
    rows.map_values(|row: DistilledRow| row@)
}

/// The sum of what the segments are to give.
pub open spec fn segment_total(segments: Seq<ExpectedSegment>) -> int
    decreases segments.len(),
{
    if segments.len() == 0 {
        0
    } else {
        segment_total(segments.drop_last()) + segments.last().expected_kp_count
    }
}

/// The knowledge points of the segments, one after another.
pub open spec fn segment_kps(segments: Seq<ExpectedSegment>) -> Seq<KpView>
    decreases segments.len(),
{
    if segments.len() == 0 {
        Seq::empty()
    } else {
        segment_kps(segments.drop_last()) + kp_views(segments.last().knowledge_points@)
    }
}

/// How many knowledge points a case is to give.
pub open spec fn expected_total(gt: GroundTruth) -> int {
    match gt.expected_distill_segments {
        Some(segments) => segment_total(segments@),
        None => match gt.expected_distill {
            Some(d) => d.expected_kp_count as int,
            None => 0,
        },
    }
}

/// The knowledge points that a case is to give.
pub open spec fn expected_kps(gt: GroundTruth) -> Seq<KpView> {
    match gt.expected_distill_segments {
        Some(segments) => segment_kps(segments@),
        None => match gt.expected_distill {
            Some(d) => kp_views(d.knowledge_points@),
            None => Seq::empty(),
        },
    }
}

/// The row says what the knowledge point asks for. The kind does not matter.
pub open spec fn row_matches(row: RowView, kp: KpView) -> bool {
    &&& kp.summary_any.len() == 0 || any_has(row.summary, kp.summary_any)
    &&& !any_has(row.summary, kp.summary_not)
    &&& groups_met(row.detail_text(), kp.detail_all)
}

/// The first row that says what the knowledge point asks for.
pub open spec fn first_match(rows: Seq<RowView>, kp: KpView) -> Option<RowView>
    decreases rows.len(),
{
    if rows.len() == 0 {
        None
    } else if row_matches(rows[0], kp) {
        Some(rows[0])
    } else {
        first_match(rows.drop_first(), kp)
    }
}

/// `[["a"], []]`: groups as `{:?}` shows a list of them.
pub open spec fn debug_groups(groups: Seq<Seq<Seq<char>>>) -> Seq<char> {
    "["@ + text::joined(
        groups.map_values(|g: Seq<Seq<char>>| text::debug_list(g)),
        ", "@,
    ) + "]"@
}

/// A string that may be missing, as `{:?}` shows it.
pub open spec fn debug_option(s: Option<Seq<char>>) -> Seq<char> {
    match s {
        Some(s) => "Some("@ + text::debug_text(s) + ")"@,
        None => "None"@,
    }
}

/// The fault of a knowledge point that no row meets.
pub open spec fn missing_fault(rows: Seq<RowView>) -> spec_fn(KpView) -> Option<Seq<char>> {
    |kp: KpView|
        match first_match(rows, kp) {
            Some(_) => None,
            None => Some(
                "no row matches expected KP content: summary_any="@ + text::debug_list(
                    kp.summary_any,
                ) + " detail_all="@ + debug_groups(kp.detail_all) + " (expected kind="@
                    + debug_option(kp.kind) + ")"@,
            ),
        }
}

/// What is said of a knowledge point whose row has another kind.
pub open spec fn kind_note(
    case_id: Seq<char>,
    rows: Seq<RowView>,
) -> spec_fn(KpView) -> Option<Seq<char>> {
    |kp: KpView|
        match (first_match(rows, kp), kp.kind) {
            (Some(row), Some(kind)) => if same_kind(row.kind, kind) {
                None
            } else {
                Some(
                    case_id
                        + " KIND ADVISORY: content matched but kind differs — expected "@
                        + text::debug_text(kind) + ", got "@ + text::debug_text(row.kind)
                        + " (summary_any="@ + text::debug_list(kp.summary_any) + ")"@,
                )
            },
            _ => None,
        }
}

/// What is said of the rows of a case whose kinds differ from the expected ones;
/// of a case that is to give no rows nothing is.
pub open spec fn kind_remarks(
    case_id: Seq<char>,
    gt: GroundTruth,
    rows: Seq<RowView>,
) -> Seq<Seq<char>> {
    if expected_total(gt) == 0 {
        Seq::empty()
    } else {
        found(expected_kps(gt), kind_note(case_id, rows))
    }
}

/// What no summary may hold.
pub open spec fn forbidden_in_summaries(kps: Seq<KpView>) -> Seq<Seq<char>>
    decreases kps.len(),
{
    if kps.len() == 0 {
        Seq::empty()
    } else {
        forbidden_in_summaries(kps.drop_last()) + kps.last().summary_not
    }
}

/// What no detail may hold.
pub open spec fn forbidden_in_details(kps: Seq<KpView>) -> Seq<Seq<char>>
    decreases kps.len(),
{
    if kps.len() == 0 {
        Seq::empty()
    } else {
        forbidden_in_details(kps.drop_last()) + kps.last().detail_not
    }
}

/// The fault of a forbidden token that stands in a summary.
pub open spec fn summary_leak(summary: Seq<char>) -> spec_fn(Seq<char>) -> Option<Seq<char>> {
    |token: Seq<char>|
        if ci_has(summary, token) {
            Some(
                "forbidden token "@ + text::debug_text(token) + " appeared in a summary: "@
                    + summary,
            )
        } else {
            None
        }
}

/// The fault of a forbidden token that stands in a detail.
pub open spec fn detail_leak(detail: Seq<char>) -> spec_fn(Seq<char>) -> Option<Seq<char>> {
    |token: Seq<char>|
        if ci_has(detail, token) {
            Some("forbidden token "@ + text::debug_text(token) + " appeared in a detail"@)
        } else {
            None
        }
}

/// The forbidden tokens that stand in the rows.
pub open spec fn leaks(
    rows: Seq<RowView>,
    in_summaries: Seq<Seq<char>>,
    in_details: Seq<Seq<char>>,
) -> Seq<Seq<char>>
    decreases rows.len(),
{
    if rows.len() == 0 {
        Seq::empty()
    } else {
        leaks(rows.drop_last(), in_summaries, in_details) + found(
            in_summaries,
            summary_leak(rows.last().summary),
        ) + found(in_details, detail_leak(rows.last().detail_text()))
    }
}

/// The texts of all rows.
pub open spec fn all_text(rows: Seq<RowView>) -> Seq<char> {
    text::joined(
        rows.map_values(
            |row: RowView| row.kind + "\n"@ + row.summary + "\n"@ + row.detail_text(),
        ),
        "\n"@,
    )
}

/// The fault of a group without a member in the rows.
pub open spec fn group_fault(haystack: Seq<char>) -> spec_fn(Seq<Seq<char>>) -> Option<Seq<char>> {
    |group: Seq<Seq<char>>|
        if any_has(haystack, group) {
            None
        } else {
            Some("case-level: no distilled row text matches any of "@ + text::debug_list(group))
        }
}

/// The fault of a token that stands in the rows and may not.
pub open spec fn case_leak(haystack: Seq<char>) -> spec_fn(Seq<char>) -> Option<Seq<char>> {
    |token: Seq<char>|
        if ci_has(haystack, token) {
            Some(
                "case-level forbidden token "@ + text::debug_text(token)
                    + " appeared in a distilled row"@,
            )
        } else {
            None
        }
}

/// All that is wrong with the rows that distilling a case gave. A case that is
/// to give none is wrong with any; in another one, more rows than expected are
/// no fault.
pub open spec fn distill_faults(gt: GroundTruth, rows: Seq<RowView>) -> Seq<Seq<char>> {
    let kps = expected_kps(gt);
    let leaked = "expected [] (no durable KP) but got "@ + text::integer_text(rows.len() as int)
        + " row(s)"@;
    if expected_total(gt) == 0 {
        if rows.len() == 0 {
            Seq::empty()
        } else {
            seq![leaked]
        }
    } else {
        found(kps, missing_fault(rows)) + leaks(
            rows,
            forbidden_in_summaries(kps),
            forbidden_in_details(kps),
        ) + found(group_views(gt.expected_distill_case_level@), group_fault(all_text(rows)))
            + found(
            text::views(gt.expected_distill_case_level_forbidden@),
            case_leak(all_text(rows)),
        )
    }
}

/// One row as it is listed.
pub open spec fn shown_row(i: int, row: RowView) -> Seq<char> {
    "\n    ["@ + text::integer_text(i) + "] kind="@ + row.kind + " summary="@ + row.summary
        + "\n        detail="@ + match row.detail {
        Some(d) => d,
        None => "<none>"@,
    }
}

/// The rows as they are listed, without the word for none.
pub open spec fn shown_rows(rows: Seq<RowView>) -> Seq<char>
    decreases rows.len(),
{
    if rows.len() == 0 {
        Seq::empty()
    } else {
        shown_rows(rows.drop_last()) + shown_row(rows.len() - 1, rows.last())
    }
}

/// The rows as they are listed.
pub open spec fn dumped(rows: Seq<RowView>) -> Seq<char> {
    if rows.len() == 0 {
        " <none>"@
    } else {
        shown_rows(rows)
    }
}

/// How the rows that distilling a case gave stand against what is expected.
pub open spec fn layer_b(case_id: Seq<char>, gt: GroundTruth, rows: Seq<RowView>) -> Result<
    Seq<char>,
    Seq<char>,
> {
    let faults = distill_faults(gt, rows);
    let count = text::integer_text(rows.len() as int);
    if faults.len() == 0 {
        Ok(count + " distilled row(s) match"@)
    } else {
        Err(
            "["@ + case_id + "] "@ + text::joined(faults, "\n         "@)
                + "\n  ── actual LLM KPs ("@ + count + " rows):"@ + dumped(rows),
        )
    }
}

spec fn ref_views(kps: Seq<&ExpectedKp>) -> Seq<KpView> {
    kps.map_values(|k: &ExpectedKp| k@)
}

/// Adds references to all of the knowledge points.
fn add_kps<'a>(out: &mut Vec<&'a ExpectedKp>, kps: &'a Vec<ExpectedKp>)
    ensures
        ref_views(final(out)@) == ref_views(old(out)@) + kp_views(kps@),
{
    let ghost before = ref_views(out@);
    let mut i: usize = 0;
    while i < kps.len()
        invariant
            i <= kps@.len(),
            ref_views(out@) == before + kp_views(kps@).take(i as int),
        decreases kps@.len() - i,
    {
        let ghost so_far = out@;
        out.push(&kps[i]);
        i += 1;
        assert(ref_views(out@) =~= ref_views(so_far).push(kps@[i - 1]@));
        assert(ref_views(out@) =~= before + kp_views(kps@).take(i as int));
    }
    assert(kp_views(kps@).take(i as int) =~= kp_views(kps@));
}

fn collect_kps(gt: &GroundTruth) -> (r: (i128, Vec<&ExpectedKp>))
    ensures
        r.0 == expected_total(*gt),
        ref_views(r.1@) == expected_kps(*gt),
{
    let mut kps: Vec<&ExpectedKp> = Vec::new();
    assert(ref_views(kps@) =~= Seq::empty());
    match &gt.expected_distill_segments {
        Some(segments) => {
            let mut total: i128 = 0;
            let mut i: usize = 0;
            assert(segments@.take(0) =~= Seq::empty());
            while i < segments.len()
                invariant
                    i <= segments.len(),
                    total == segment_total(segments@.take(i as int)),
                    ref_views(kps@) == segment_kps(segments@.take(i as int)),
                    i * i64::MIN <= total <= i * i64::MAX,
                decreases segments@.len() - i,
            {
                assert(segments@.take(i + 1).drop_last() =~= segments@.take(i as int));
                total = total + segments[i].expected_kp_count as i128;
                add_kps(&mut kps, &segments[i].knowledge_points);
                i += 1;
            }
            assert(segments@.take(i as int) =~= segments@);
            (total, kps)
        },
        None => match &gt.expected_distill {
            Some(d) => {
                add_kps(&mut kps, &d.knowledge_points);
                assert(ref_views(kps@) =~= kp_views(d.knowledge_points@));
                (d.expected_kp_count as i128, kps)
            },
            None => (0, kps),
        },
    }
}

fn meets(row: &DistilledRow, kp: &ExpectedKp) -> (r: bool)
    ensures
        r == row_matches(row@, kp@),
{
    (kp.summary_must_contain_any.len() == 0 || any_ci(
        row.summary.as_str(),
        kp.summary_must_contain_any.as_slice(),
    )) && !any_ci(row.summary.as_str(), kp.summary_must_not_contain.as_slice()) && all_groups(
        text_or_empty(&row.detail),
        kp.detail_must_mention_all.as_slice(),
    )
}

fn find_match<'a>(rows: &'a Vec<DistilledRow>, kp: &ExpectedKp) -> (r: Option<&'a DistilledRow>)
    ensures
        match r {
            Some(row) => first_match(row_views(rows@), kp@) == Some(row@),
            None => first_match(row_views(rows@), kp@) is None,
        },
{
    let ghost all = row_views(rows@);
    let mut i: usize = 0;
    assert(all.skip(0) =~= all);
    while i < rows.len()
        invariant
            i <= rows@.len(),
            all == row_views(rows@),
            first_match(all, kp@) == first_match(all.skip(i as int), kp@),
        decreases rows@.len() - i,
    {
        assert(all.skip(i as int).drop_first() =~= all.skip(i + 1));
        assert(all.skip(i as int)[0] == rows@[i as int]@);
        if meets(&rows[i], kp) {
            return Some(&rows[i]);
        }
        i += 1;
    }
    None
}

fn show_groups(groups: &Vec<Vec<String>>) -> (r: String)
    ensures
        r@ == debug_groups(group_views(groups@)),
{
    let ghost wanted = group_views(groups@).map_values(|g: Seq<Seq<char>>| text::debug_list(g));
    let mut shown: Vec<String> = Vec::new();
    let mut i: usize = 0;
    while i < groups.len()
        invariant
            i <= groups@.len(),
            wanted == group_views(groups@).map_values(|g: Seq<Seq<char>>| text::debug_list(g)),
            shown@.len() == i,
            forall|j: int| 0 <= j < i ==> (#[trigger] shown@[j])@ == wanted[j],
        decreases groups@.len() - i,
    {
        shown.push(text::show_list(&groups[i]));
        i += 1;
    }
    assert(text::views(shown@) =~= wanted);
    "[".to_owned().concat(text::join(&shown, ", ").as_str()).concat("]")
}

fn show_option(s: &Option<String>) -> (r: String)
    ensures
        r@ == debug_option(text::opt_view(*s)),
{
    match s {
        Some(s) => "Some(".to_owned().concat(text::debug(s.as_str()).as_str()).concat(")"),
        None => "None".to_owned(),
    }
}

fn check_missing(rows: &Vec<DistilledRow>, kps: &Vec<&ExpectedKp>) -> (errs: Vec<String>)
    ensures
        text::views(errs@) == found(ref_views(kps@), missing_fault(row_views(rows@))),
{
    let ghost all = ref_views(kps@);
    let ghost fault = missing_fault(row_views(rows@));
    let mut errs: Vec<String> = Vec::new();
    let mut i: usize = 0;
    assert(text::views(errs@) =~= found(all.take(0), fault));
    while i < kps.len()
        invariant
            i <= kps@.len(),
            all == ref_views(kps@),
            fault == missing_fault(row_views(rows@)),
            text::views(errs@) == found(all.take(i as int), fault),
        decreases kps@.len() - i,
    {
        let ghost before = errs@;
        assert(all.take(i + 1).drop_last() =~= all.take(i as int));
        let kp = kps[i];
        assert(all[i as int] == kp@);
        if find_match(rows, kp).is_none() {
            errs.push(
                "no row matches expected KP content: summary_any=".to_owned().concat(
                    text::show_list(&kp.summary_must_contain_any).as_str(),
                ).concat(" detail_all=").concat(
                    show_groups(&kp.detail_must_mention_all).as_str(),
                ).concat(" (expected kind=").concat(show_option(&kp.kind).as_str()).concat(")"),
            );
            assert(text::views(errs@) =~= text::views(before).push(errs@.last()@));
        }
        i += 1;
        assert(text::views(errs@) =~= found(all.take(i as int), fault));
    }
    assert(all.take(i as int) =~= all);
    errs
}

/// What is to be said of knowledge points whose row has another kind than was
/// expected: no fault, since the same lesson is validly framed in more than one
/// way.
pub fn kind_notes(case_id: &str, gt: &GroundTruth, rows: &Vec<DistilledRow>) -> (r: Vec<String>)
    ensures
        text::views(r@) == kind_remarks(case_id@, *gt, row_views(rows@)),
{
    let (total, kps) = collect_kps(gt);
    let ghost all = ref_views(kps@);
    let ghost note = kind_note(case_id@, row_views(rows@));
    let mut notes: Vec<String> = Vec::new();
    if total == 0 {
        assert(text::views(notes@) =~= Seq::empty());
        return notes;
    }
    let mut i: usize = 0;
    assert(text::views(notes@) =~= found(all.take(0), note));
    while i < kps.len()
        invariant
            i <= kps@.len(),
            all == ref_views(kps@),
            note == kind_note(case_id@, row_views(rows@)),
            text::views(notes@) == found(all.take(i as int), note),
        decreases kps@.len() - i,
    {
        let ghost before = notes@;
        assert(all.take(i + 1).drop_last() =~= all.take(i as int));
        let kp = kps[i];
        assert(all[i as int] == kp@);
        if let Some(row) = find_match(rows, kp) {
            if let Some(kind) = &kp.kind {
                if !kind_eq(row.kind.as_str(), kind.as_str()) {
                    notes.push(
                        case_id.to_owned().concat(
                            " KIND ADVISORY: content matched but kind differs — expected ",
                        ).concat(text::debug(kind.as_str()).as_str()).concat(", got ").concat(
                            text::debug(row.kind.as_str()).as_str(),
                        ).concat(" (summary_any=").concat(
                            text::show_list(&kp.summary_must_contain_any).as_str(),
                        ).concat(")"),
                    );
                    assert(text::views(notes@) =~= text::views(before).push(notes@.last()@));
                }
            }
        }
        i += 1;
        assert(text::views(notes@) =~= found(all.take(i as int), note));
    }
    assert(all.take(i as int) =~= all);
    notes
}

fn collect_forbidden(kps: &Vec<&ExpectedKp>) -> (r: (Vec<String>, Vec<String>))
    ensures
        text::views(r.0@) == forbidden_in_summaries(ref_views(kps@)),
        text::views(r.1@) == forbidden_in_details(ref_views(kps@)),
{
    let ghost all = ref_views(kps@);
    let mut in_summaries: Vec<String> = Vec::new();
    let mut in_details: Vec<String> = Vec::new();
    let mut i: usize = 0;
    assert(text::views(in_summaries@) =~= Seq::empty());
    assert(text::views(in_details@) =~= Seq::empty());
    while i < kps.len()
        invariant
            i <= kps@.len(),
            all == ref_views(kps@),
            text::views(in_summaries@) == forbidden_in_summaries(all.take(i as int)),
            text::views(in_details@) == forbidden_in_details(all.take(i as int)),
        decreases kps@.len() - i,
    {
        assert(all.take(i + 1).drop_last() =~= all.take(i as int));
        assert(all[i as int] == kps@[i as int]@);
        add_texts(&mut in_summaries, &kps[i].summary_must_not_contain);
        add_texts(&mut in_details, &kps[i].detail_must_not_mention);
        i += 1;
    }
    assert(all.take(i as int) =~= all);
    (in_summaries, in_details)
}

fn add_texts(out: &mut Vec<String>, more: &Vec<String>)
    ensures
        text::views(final(out)@) == text::views(old(out)@) + text::views(more@),
{
    let ghost before = text::views(out@);
    let mut i: usize = 0;
    while i < more.len()
        invariant
            i <= more@.len(),
            text::views(out@) == before + text::views(more@).take(i as int),
        decreases more@.len() - i,
    {
        let ghost so_far = out@;
        out.push(more[i].clone());
        i += 1;
        assert(text::views(out@) =~= text::views(so_far).push(more@[i - 1]@));
        assert(text::views(out@) =~= before + text::views(more@).take(i as int));
    }
    assert(text::views(more@).take(i as int) =~= text::views(more@));
}

fn check_summary(errs: &mut Vec<String>, summary: &str, tokens: &Vec<String>)
    ensures
        text::views(final(errs)@) == text::views(old(errs)@) + found(
            text::views(tokens@),
            summary_leak(summary@),
        ),
{
    let ghost all = text::views(tokens@);
    let ghost fault = summary_leak(summary@);
    let ghost start = text::views(errs@);
    let mut i: usize = 0;
    assert(found(all.take(0), fault) =~= Seq::empty());
    while i < tokens.len()
        invariant
            i <= tokens@.len(),
            all == text::views(tokens@),
            fault == summary_leak(summary@),
            text::views(errs@) == start + found(all.take(i as int), fault),
        decreases tokens@.len() - i,
    {
        let ghost before = errs@;
        assert(all.take(i + 1).drop_last() =~= all.take(i as int));
        assert(all[i as int] == tokens@[i as int]@);
        if ci_contains(summary, tokens[i].as_str()) {
            errs.push(
                "forbidden token ".to_owned().concat(
                    text::debug(tokens[i].as_str()).as_str(),
                ).concat(" appeared in a summary: ").concat(summary),
            );
            assert(text::views(errs@) =~= text::views(before).push(errs@.last()@));
        }
        i += 1;
        assert(text::views(errs@) =~= start + found(all.take(i as int), fault));
    }
    assert(all.take(i as int) =~= all);
}

fn check_detail(errs: &mut Vec<String>, detail: &str, tokens: &Vec<String>)
    ensures
        text::views(final(errs)@) == text::views(old(errs)@) + found(
            text::views(tokens@),
            detail_leak(detail@),
        ),
{
    let ghost all = text::views(tokens@);
    let ghost fault = detail_leak(detail@);
    let ghost start = text::views(errs@);
    let mut i: usize = 0;
    assert(found(all.take(0), fault) =~= Seq::empty());
    while i < tokens.len()
        invariant
            i <= tokens@.len(),
            all == text::views(tokens@),
            fault == detail_leak(detail@),
            text::views(errs@) == start + found(all.take(i as int), fault),
        decreases tokens@.len() - i,
    {
        let ghost before = errs@;
        assert(all.take(i + 1).drop_last() =~= all.take(i as int));
        assert(all[i as int] == tokens@[i as int]@);
        if ci_contains(detail, tokens[i].as_str()) {
            errs.push(
                "forbidden token ".to_owned().concat(
                    text::debug(tokens[i].as_str()).as_str(),
                ).concat(" appeared in a detail"),
            );
            assert(text::views(errs@) =~= text::views(before).push(errs@.last()@));
        }
        i += 1;
        assert(text::views(errs@) =~= start + found(all.take(i as int), fault));
    }
    assert(all.take(i as int) =~= all);
}

fn check_leaks(errs: &mut Vec<String>, rows: &Vec<DistilledRow>, kps: &Vec<&ExpectedKp>)
    ensures
        text::views(final(errs)@) == text::views(old(errs)@) + leaks(
            row_views(rows@),
            forbidden_in_summaries(ref_views(kps@)),
            forbidden_in_details(ref_views(kps@)),
        ),
{
    let (in_summaries, in_details) = collect_forbidden(kps);
    let ghost all = row_views(rows@);
    let ghost fs = text::views(in_summaries@);
    let ghost fd = text::views(in_details@);
    let ghost start = text::views(errs@);
    let mut i: usize = 0;
    assert(leaks(all.take(0), fs, fd) =~= Seq::empty());
    while i < rows.len()
        invariant
            i <= rows@.len(),
            all == row_views(rows@),
            fs == text::views(in_summaries@),
            fd == text::views(in_details@),
            text::views(errs@) == start + leaks(all.take(i as int), fs, fd),
        decreases rows@.len() - i,
    {
        assert(all.take(i + 1).drop_last() =~= all.take(i as int));
        assert(all[i as int] == rows@[i as int]@);
        check_summary(errs, rows[i].summary.as_str(), &in_summaries);
        check_detail(errs, text_or_empty(&rows[i].detail), &in_details);
        i += 1;
        assert(text::views(errs@) =~= start + leaks(all.take(i as int), fs, fd));
    }
    assert(all.take(i as int) =~= all);
}

fn join_rows(rows: &Vec<DistilledRow>) -> (r: String)
    ensures
        r@ == all_text(row_views(rows@)),
{
    let ghost wanted = row_views(rows@).map_values(
        |row: RowView| row.kind + "\n"@ + row.summary + "\n"@ + row.detail_text(),
    );
    let mut parts: Vec<String> = Vec::new();
    let mut i: usize = 0;
    while i < rows.len()
        invariant
            i <= rows@.len(),
            wanted == row_views(rows@).map_values(
                |row: RowView| row.kind + "\n"@ + row.summary + "\n"@ + row.detail_text(),
            ),
            parts@.len() == i,
            forall|j: int| 0 <= j < i ==> (#[trigger] parts@[j])@ == wanted[j],
        decreases rows@.len() - i,
    {
        parts.push(
            rows[i].kind.clone().concat("\n").concat(rows[i].summary.as_str()).concat("\n").concat(
                text_or_empty(&rows[i].detail),
            ),
        );
        i += 1;
    }
    assert(text::views(parts@) =~= wanted);
    text::join(&parts, "\n")
}

fn check_case_level(errs: &mut Vec<String>, gt: &GroundTruth, rows: &Vec<DistilledRow>)
    ensures
        text::views(final(errs)@) == text::views(old(errs)@) + found(
            group_views(gt.expected_distill_case_level@),
            group_fault(all_text(row_views(rows@))),
        ) + found(
            text::views(gt.expected_distill_case_level_forbidden@),
            case_leak(all_text(row_views(rows@))),
        ),
{
    let haystack = join_rows(rows);
    let groups = &gt.expected_distill_case_level;
    let tokens = &gt.expected_distill_case_level_forbidden;
    let ghost start = text::views(errs@);
    let ghost all_of = group_views(groups@);
    let ghost missing = group_fault(haystack@);
    let mut i: usize = 0;
    assert(found(all_of.take(0), missing) =~= Seq::empty());
    while i < groups.len()
        invariant
            i <= groups@.len(),
            all_of == group_views(groups@),
            missing == group_fault(haystack@),
            text::views(errs@) == start + found(all_of.take(i as int), missing),
        decreases groups@.len() - i,
    {
        let ghost before = errs@;
        assert(all_of.take(i + 1).drop_last() =~= all_of.take(i as int));
        assert(all_of[i as int] == text::views(groups@[i as int]@));
        if !any_ci(haystack.as_str(), groups[i].as_slice()) {
            errs.push(
                "case-level: no distilled row text matches any of ".to_owned().concat(
                    text::show_list(&groups[i]).as_str(),
                ),
            );
            assert(text::views(errs@) =~= text::views(before).push(errs@.last()@));
        }
        i += 1;
        assert(text::views(errs@) =~= start + found(all_of.take(i as int), missing));
    }
    assert(all_of.take(i as int) =~= all_of);
    let ghost middle = text::views(errs@);
    let ghost none_of = text::views(tokens@);
    let ghost leak = case_leak(haystack@);
    let mut k: usize = 0;
    assert(found(none_of.take(0), leak) =~= Seq::empty());
    while k < tokens.len()
        invariant
            k <= tokens@.len(),
            none_of == text::views(tokens@),
            leak == case_leak(haystack@),
            text::views(errs@) == middle + found(none_of.take(k as int), leak),
        decreases tokens@.len() - k,
    {
        let ghost before = errs@;
        assert(none_of.take(k + 1).drop_last() =~= none_of.take(k as int));
        assert(none_of[k as int] == tokens@[k as int]@);
        if ci_contains(haystack.as_str(), tokens[k].as_str()) {
            errs.push(
                "case-level forbidden token ".to_owned().concat(
                    text::debug(tokens[k].as_str()).as_str(),
                ).concat(" appeared in a distilled row"),
            );
            assert(text::views(errs@) =~= text::views(before).push(errs@.last()@));
        }
        k += 1;
        assert(text::views(errs@) =~= middle + found(none_of.take(k as int), leak));
    }
    assert(none_of.take(k as int) =~= none_of);
}

/// Lists the rows.
pub fn dump_kps(rows: &Vec<DistilledRow>) -> (r: String)
    ensures
        r@ == dumped(row_views(rows@)),
{
    let ghost all = row_views(rows@);
    let mut out = String::new();
    let mut i: usize = 0;
    while i < rows.len()
        invariant
            i <= rows.len(),
            all == row_views(rows@),
            out@ == shown_rows(all.take(i as int)),
        decreases rows@.len() - i,
    {
        assert(all.take(i + 1).drop_last() =~= all.take(i as int));
        assert(all[i as int] == rows@[i as int]@);
        let detail = match &rows[i].detail {
            Some(d) => d.as_str(),
            None => "<none>",
        };
        let line = "\n    [".to_owned().concat(text::u64_text(i as u64).as_str()).concat(
            "] kind=",
        ).concat(rows[i].kind.as_str()).concat(" summary=").concat(
            rows[i].summary.as_str(),
        ).concat("\n        detail=").concat(detail);
        out.append(line.as_str());
        i += 1;
    }
    assert(all.take(i as int) =~= all);
    if rows.len() == 0 {
        out.append(" <none>");
        assert(out@ =~= " <none>"@);
    }
    out
}

fn collect_faults(gt: &GroundTruth, rows: &Vec<DistilledRow>) -> (errs: Vec<String>)
    ensures
        text::views(errs@) == distill_faults(*gt, row_views(rows@)),
{
    let (total, kps) = collect_kps(gt);
    if total == 0 {
        let mut errs: Vec<String> = Vec::new();
        if rows.len() > 0 {
            errs.push(
                "expected [] (no durable KP) but got ".to_owned().concat(
                    text::u64_text(rows.len() as u64).as_str(),
                ).concat(" row(s)"),
            );
        }
        assert(text::views(errs@) =~= distill_faults(*gt, row_views(rows@)));
        return errs;
    }
    let mut errs = check_missing(rows, &kps);
    check_leaks(&mut errs, rows, &kps);
    check_case_level(&mut errs, gt, rows);
    errs
}

/// Holds the rows that distilling a case gave against what is expected: that
/// each expected knowledge point is there, that nothing forbidden is, and what
/// the case asks of its rows as a whole.
pub fn check_layer_b(case_id: &str, gt: &GroundTruth, rows: &Vec<DistilledRow>) -> (r: Result<
    String,
    String,
>)
    ensures
        match r {
            Ok(m) => layer_b(case_id@, *gt, row_views(rows@)) == Ok::<Seq<char>, Seq<char>>(m@),
            Err(e) => layer_b(case_id@, *gt, row_views(rows@)) == Err::<Seq<char>, Seq<char>>(e@),
        },
{
    let errs = collect_faults(gt, rows);
    let count = text::u64_text(rows.len() as u64);
    assert(text::views(errs@).len() == errs@.len());
    if errs.len() == 0 {
        Ok(count.concat(" distilled row(s) match"))
    } else {
        Err(
            "[".to_owned().concat(case_id).concat("] ").concat(
                text::join(&errs, "\n         ").as_str(),
            ).concat("\n  ── actual LLM KPs (").concat(count.as_str()).concat(" rows):").concat(
                dump_kps(rows).as_str(),
            ),
        )
    }
}

// ---------------------------------------------------------------------------
// What a clean case amounts to

pub(crate) proof fn found_nothing<A>(items: Seq<A>, fault: spec_fn(A) -> Option<Seq<char>>)
    ensures
        found(items, fault).len() == 0 <==> forall|i: int|
            0 <= i < items.len() ==> fault(#[trigger] items[i]) is None,
    decreases items.len(),
{
    if items.len() > 0 {
        let rest = items.drop_last();
        found_nothing(rest, fault);
        assert(items.last() == items[items.len() - 1]);
        if found(items, fault).len() == 0 {
            assert forall|i: int| 0 <= i < items.len() implies fault(#[trigger] items[i]) is None by {
                if i < rest.len() {
                    assert(fault(rest[i]) is None);
                }
            }
        } else if fault(items.last()) is None {
            let i = choose|i: int| 0 <= i < rest.len() && !(fault(#[trigger] rest[i]) is None);
            assert(!(fault(items[i]) is None));
        }
    }
}

/// Ingesting a case is clean exactly if the rows are as many as expected, their
/// line numbers count up from one without a gap, and each line is of the class
/// under which its number is listed.
pub proof fn clean_ingest_agrees_line_for_line(
    case_id: Seq<char>,
    exp: ExpectedIngest,
    rows: Seq<(i64, String)>,
)
    ensures
        layer_a(case_id, Some(exp), rows) is Ok <==> {
            &&& rows.len() == exp.raw_event_count
            &&& counts_up(line_nos(rows))
            &&& forall|i: int|
                0 <= i < rows.len() ==> listed_class(exp, (#[trigger] rows[i]).0) == Some(
                    class_name(render::text_line(rows[i].1@)),
                )
        },
{
    let fault = class_fault(exp);
    found_nothing(rows, fault);
    assert forall|i: int| 0 <= i < rows.len() implies (fault(#[trigger] rows[i]) is None
        <==> listed_class(exp, rows[i].0) == Some(class_name(render::text_line(rows[i].1@)))) by {}
}

/// A case that is to give nothing is clean exactly if it gave nothing: a single
/// row is a fault.
pub proof fn silent_case_admits_no_row(case_id: Seq<char>, gt: GroundTruth, rows: Seq<RowView>)
    requires
        expected_total(gt) == 0,
    ensures
        layer_b(case_id, gt, rows) is Ok <==> rows.len() == 0,
{
}

proof fn first_match_stays(rows: Seq<RowView>, more: Seq<RowView>, kp: KpView)
    requires
        first_match(rows, kp) is Some,
    ensures
        first_match(rows + more, kp) == first_match(rows, kp),
    decreases rows.len(),
{
    if rows.len() > 0 {
        assert((rows + more)[0] == rows[0]);
        if !row_matches(rows[0], kp) {
            first_match_stays(rows.drop_first(), more, kp);
            assert((rows + more).drop_first() =~= rows.drop_first() + more);
        }
    }
}

/// More rows than expected leave no knowledge point unmet that was met before.
pub proof fn further_rows_unmeet_nothing(
    kps: Seq<KpView>,
    rows: Seq<RowView>,
    more: Seq<RowView>,
)
    requires
        found(kps, missing_fault(rows)).len() == 0,
    ensures
        found(kps, missing_fault(rows + more)).len() == 0,
{
    found_nothing(kps, missing_fault(rows));
    found_nothing(kps, missing_fault(rows + more));
    assert forall|i: int| 0 <= i < kps.len() implies missing_fault(rows + more)(
        #[trigger] kps[i],
    ) is None by {
        assert(missing_fault(rows)(kps[i]) is None);
        first_match_stays(rows, more, kps[i]);
    }
}

/// Whether a row meets a knowledge point does not rest on either kind.
pub proof fn kind_is_advisory(
    row: RowView,
    kp: KpView,
    row_kind: Seq<char>,
    kp_kind: Option<Seq<char>>,
)
    ensures
        row_matches(RowView { kind: row_kind, ..row }, KpView { kind: kp_kind, ..kp })
            == row_matches(row, kp),
{
}

/// Faults are found item by item, in the order of the items.
pub proof fn faults_are_found_in_order<A>(
    a: Seq<A>,
    b: Seq<A>,
    fault: spec_fn(A) -> Option<Seq<char>>,
)
    ensures
        found(a + b, fault) == found(a, fault) + found(b, fault),
        a.len() == 1 ==> found(a, fault) == (match fault(a[0]) {
            Some(m) => seq![m],
            None => Seq::empty(),
        }),
    decreases b.len(),
{
    if b.len() == 0 {
        assert(a + b =~= a);
    } else {
        assert((a + b).drop_last() =~= a + b.drop_last());
        faults_are_found_in_order(a, b.drop_last(), fault);
    }
    assert(found(a + b, fault) =~= found(a, fault) + found(b, fault));
    if a.len() == 1 {
        assert(a.drop_last() =~= Seq::empty());
        assert(found(a.drop_last(), fault) =~= Seq::empty());
        assert(found(a, fault) =~= (match fault(a[0]) {
            Some(m) => seq![m],
            None => Seq::empty(),
        }));
    }
}

/// A number that is listed as a boundary is one, whatever else it is listed as; one that
/// is listed as dropped and as kept is dropped; one that is listed nowhere has no class.
pub proof fn boundaries_outrank_dropped_and_kept(exp: ExpectedIngest, n: i64)
    ensures
        ({
            let boundary = exp.boundary_line_nos@.contains(n);
            let dropped = exp.dropped_line_nos@.contains(n);
            let kept = exp.kept_line_nos@.contains(n);
            &&& boundary ==> listed_class(exp, n) == Some("boundary"@)
            &&& !boundary && dropped ==> listed_class(exp, n) == Some("dropped"@)
            &&& !boundary && !dropped && kept ==> listed_class(exp, n) == Some("kept"@)
            &&& !boundary && !dropped && !kept ==> listed_class(exp, n) is None
        }),
{
}

/// What is wrong with ingesting a case is told in full, under the case's name.
pub proof fn ingest_faults_are_told(
    case_id: Seq<char>,
    exp: ExpectedIngest,
    rows: Seq<(i64, String)>,
    i: int,
)
    requires
        0 <= i < ingest_faults(exp, rows).len(),
    ensures
        layer_a(case_id, Some(exp), rows) is Err,
        text::has(layer_a(case_id, Some(exp), rows)->Err_0, ingest_faults(exp, rows)[i]),
        layer_a(case_id, None, rows) is Err,
{
    let faults = ingest_faults(exp, rows);
    text::each_part_is_in_the_whole(faults, "\n         "@, i);
    let told = layer_a(case_id, Some(exp), rows)->Err_0;
    let whole = text::joined(faults, "\n         "@);
    let n = told.len() - whole.len();
    assert(told =~= told.take(n) + whole + Seq::empty());
    text::has_is_kept(told.take(n), whole, Seq::empty(), faults[i]);
}

/// A word stands in a text where its lower case stands in the lower case of the text; a
/// list of words is met by one of them, and a list of groups by one word of each group
/// that has any.
pub proof fn words_are_met_in_any_case(
    said: Seq<char>,
    words: Seq<Seq<char>>,
    groups: Seq<Seq<Seq<char>>>,
)
    ensures
        any_has(said, words) <==> exists|i: int|
            0 <= i < words.len() && text::has(
                text::lowercase(said),
                text::lowercase(#[trigger] words[i]),
            ),
        groups_met(said, groups) <==> forall|g: int|
            0 <= g < groups.len() && (#[trigger] groups[g]).len() > 0 ==> exists|i: int|
                0 <= i < groups[g].len() && text::has(
                    text::lowercase(said),
                    text::lowercase(#[trigger] groups[g][i]),
                ),
{
    if any_has(said, words) {
        let i = choose|i: int| 0 <= i < words.len() && ci_has(said, #[trigger] words[i]);
        assert(text::has(text::lowercase(said), text::lowercase(words[i])));
    }
    if exists|i: int|
        0 <= i < words.len() && text::has(
            text::lowercase(said),
            text::lowercase(#[trigger] words[i]),
        ) {
        let i = choose|i: int|
            0 <= i < words.len() && text::has(
                text::lowercase(said),
                text::lowercase(#[trigger] words[i]),
            );
        assert(ci_has(said, words[i]));
    }
    assert forall|g: int| 0 <= g < groups.len() implies (any_has(said, #[trigger] groups[g])
        <==> exists|i: int|
        0 <= i < groups[g].len() && text::has(
            text::lowercase(said),
            text::lowercase(#[trigger] groups[g][i]),
        )) by {
        if any_has(said, groups[g]) {
            let i = choose|i: int|
                0 <= i < groups[g].len() && ci_has(said, #[trigger] groups[g][i]);
            assert(text::has(text::lowercase(said), text::lowercase(groups[g][i])));
        }
        if exists|i: int|
            0 <= i < groups[g].len() && text::has(
                text::lowercase(said),
                text::lowercase(#[trigger] groups[g][i]),
            ) {
            let i = choose|i: int|
                0 <= i < groups[g].len() && text::has(
                    text::lowercase(said),
                    text::lowercase(#[trigger] groups[g][i]),
                );
            assert(ci_has(said, groups[g][i]));
        }
    }
    if groups_met(said, groups) {
        assert forall|g: int| 0 <= g < groups.len() && (#[trigger] groups[g]).len() > 0 implies (
        exists|i: int|
            0 <= i < groups[g].len() && text::has(
                text::lowercase(said),
                text::lowercase(#[trigger] groups[g][i]),
            )) by {
            assert(any_has(said, groups[g]));
        }
    }
}

/// A row meets a knowledge point exactly where its summary holds one of the words that
/// are asked for, if any are, and none of those that are not wanted, and its detail
/// holds a word of each group.
pub proof fn rows_meet_what_is_asked(row: RowView, kp: KpView)
    ensures
        row_matches(row, kp) <==> (kp.summary_any.len() > 0 ==> any_has(
            row.summary,
            kp.summary_any,
        )) && (forall|i: int|
            0 <= i < kp.summary_not.len() ==> !ci_has(
                row.summary,
                #[trigger] kp.summary_not[i],
            )) && groups_met(
            match row.detail {
                Some(d) => d,
                None => Seq::empty(),
            },
            kp.detail_all,
        ),
{
    reveal_strlit("");
    assert(""@ =~= Seq::<char>::empty());
    if !any_has(row.summary, kp.summary_not) {
        assert forall|i: int| 0 <= i < kp.summary_not.len() implies !ci_has(
            row.summary,
            #[trigger] kp.summary_not[i],
        ) by {}
    }
}

/// The match of a knowledge point is the first row that meets it, and there is one
/// exactly where some row does.
pub proof fn first_match_is_first(rows: Seq<RowView>, kp: KpView)
    ensures
        first_match(rows, kp) is Some <==> exists|i: int|
            0 <= i < rows.len() && row_matches(#[trigger] rows[i], kp),
        first_match(rows, kp) matches Some(row) ==> exists|i: int|
            0 <= i < rows.len() && #[trigger] rows[i] == row && row_matches(row, kp) && forall|
                j: int,
            |
                0 <= j < i ==> !row_matches(#[trigger] rows[j], kp),
    decreases rows.len(),
{
    if rows.len() > 0 && !row_matches(rows[0], kp) {
        let rest = rows.drop_first();
        first_match_is_first(rest, kp);
        if let Some(row) = first_match(rest, kp) {
            let i = choose|i: int|
                0 <= i < rest.len() && #[trigger] rest[i] == row && row_matches(row, kp) && forall|
                    j: int,
                |
                    0 <= j < i ==> !row_matches(#[trigger] rest[j], kp);
            assert(rows[i + 1] == row);
            assert forall|j: int| 0 <= j < i + 1 implies !row_matches(#[trigger] rows[j], kp) by {
                if j > 0 {
                    assert(rest[j - 1] == rows[j]);
                }
            }
        } else {
            assert forall|i: int| 0 <= i < rows.len() implies !row_matches(
                #[trigger] rows[i],
                kp,
            ) by {
                if i > 0 {
                    assert(rest[i - 1] == rows[i]);
                }
            }
        }
    } else if rows.len() > 0 {
        assert(rows[0] == rows[0]);
    }
}

proof fn no_leaks(rows: Seq<RowView>, in_summaries: Seq<Seq<char>>, in_details: Seq<Seq<char>>)
    ensures
        leaks(rows, in_summaries, in_details).len() == 0 <==> forall|r: int|
            0 <= r < rows.len() ==> !any_has((#[trigger] rows[r]).summary, in_summaries)
                && !any_has(rows[r].detail_text(), in_details),
    decreases rows.len(),
{
    if rows.len() > 0 {
        let init = rows.drop_last();
        let last = rows.len() - 1;
        let row = rows.last();
        no_leaks(init, in_summaries, in_details);
        let fs = summary_leak(row.summary);
        let fd = detail_leak(row.detail_text());
        found_nothing(in_summaries, fs);
        found_nothing(in_details, fd);
        assert(found(in_summaries, fs).len() == 0 <==> !any_has(row.summary, in_summaries)) by {
            assert forall|i: int| 0 <= i < in_summaries.len() implies (fs(
                #[trigger] in_summaries[i],
            ) is None <==> !ci_has(row.summary, in_summaries[i])) by {}
        }
        assert(found(in_details, fd).len() == 0 <==> !any_has(row.detail_text(), in_details)) by {
            assert forall|i: int| 0 <= i < in_details.len() implies (fd(#[trigger] in_details[i])
                is None <==> !ci_has(row.detail_text(), in_details[i])) by {}
        }
        assert(rows[last] == row);
        if leaks(rows, in_summaries, in_details).len() == 0 {
            assert forall|r: int| 0 <= r < rows.len() implies !any_has(
                (#[trigger] rows[r]).summary,
                in_summaries,
            ) && !any_has(rows[r].detail_text(), in_details) by {
                if r < last {
                    assert(init[r] == rows[r]);
                }
            }
        } else if forall|r: int|
            0 <= r < rows.len() ==> !any_has((#[trigger] rows[r]).summary, in_summaries)
                && !any_has(rows[r].detail_text(), in_details) {
            assert forall|r: int| 0 <= r < init.len() implies !any_has(
                (#[trigger] init[r]).summary,
                in_summaries,
            ) && !any_has(init[r].detail_text(), in_details) by {
                assert(init[r] == rows[r]);
            }
            assert(!any_has(rows[last].summary, in_summaries));
        }
    }
}

/// A case that is to give something is clean exactly where every knowledge point is met
/// by some row, no row holds what is not wanted in it, every group of the case has a word
/// in the rows, and no word that the case forbids stands in them.
pub proof fn clean_distilling_meets_everything(
    case_id: Seq<char>,
    gt: GroundTruth,
    rows: Seq<RowView>,
)
    requires
        expected_total(gt) != 0,
    ensures
        ({
            let kps = expected_kps(gt);
            let groups = group_views(gt.expected_distill_case_level@);
            let forbidden = text::views(gt.expected_distill_case_level_forbidden@);
            layer_b(case_id, gt, rows) is Ok <==> {
                &&& forall|k: int|
                    0 <= k < kps.len() ==> exists|i: int|
                        0 <= i < rows.len() && row_matches(#[trigger] rows[i], #[trigger] kps[k])
                &&& forall|r: int|
                    0 <= r < rows.len() ==> !any_has(
                        (#[trigger] rows[r]).summary,
                        forbidden_in_summaries(kps),
                    ) && !any_has(rows[r].detail_text(), forbidden_in_details(kps))
                &&& forall|g: int|
                    0 <= g < groups.len() ==> any_has(all_text(rows), #[trigger] groups[g])
                &&& forall|f: int|
                    0 <= f < forbidden.len() ==> !ci_has(all_text(rows), #[trigger] forbidden[f])
            }
        }),
{
    let kps = expected_kps(gt);
    let groups = group_views(gt.expected_distill_case_level@);
    let forbidden = text::views(gt.expected_distill_case_level_forbidden@);
    let missing = missing_fault(rows);
    let lacking = group_fault(all_text(rows));
    let leaking = case_leak(all_text(rows));
    found_nothing(kps, missing);
    found_nothing(groups, lacking);
    found_nothing(forbidden, leaking);
    no_leaks(rows, forbidden_in_summaries(kps), forbidden_in_details(kps));
    assert forall|k: int| 0 <= k < kps.len() implies (missing(#[trigger] kps[k]) is None
        <==> exists|i: int| 0 <= i < rows.len() && row_matches(#[trigger] rows[i], kps[k])) by {
        first_match_is_first(rows, kps[k]);
    }
    assert forall|g: int| 0 <= g < groups.len() implies (lacking(#[trigger] groups[g]) is None
        <==> any_has(all_text(rows), groups[g])) by {}
    assert forall|f: int| 0 <= f < forbidden.len() implies (leaking(#[trigger] forbidden[f])
        is None <==> !ci_has(all_text(rows), forbidden[f])) by {}
    let met = forall|k: int|
        0 <= k < kps.len() ==> exists|i: int|
            0 <= i < rows.len() && row_matches(#[trigger] rows[i], #[trigger] kps[k]);
    assert(found(kps, missing).len() == 0 <==> met) by {
        if found(kps, missing).len() == 0 {
            assert forall|k: int| 0 <= k < kps.len() implies exists|i: int|
                0 <= i < rows.len() && row_matches(#[trigger] rows[i], #[trigger] kps[k]) by {
                assert(missing(kps[k]) is None);
            }
        }
        if met {
            assert forall|k: int| 0 <= k < kps.len() implies missing(#[trigger] kps[k]) is None by {
                assert(exists|i: int| 0 <= i < rows.len() && row_matches(#[trigger] rows[i], kps[k]));
            }
        }
    }
    assert(found(groups, lacking).len() == 0 <==> forall|g: int|
        0 <= g < groups.len() ==> any_has(all_text(rows), #[trigger] groups[g])) by {
        if found(groups, lacking).len() == 0 {
            assert forall|g: int| 0 <= g < groups.len() implies any_has(
                all_text(rows),
                #[trigger] groups[g],
            ) by {
                assert(lacking(groups[g]) is None);
            }
        }
    }
    assert(found(forbidden, leaking).len() == 0 <==> forall|f: int|
        0 <= f < forbidden.len() ==> !ci_has(all_text(rows), #[trigger] forbidden[f])) by {
        if found(forbidden, leaking).len() == 0 {
            assert forall|f: int| 0 <= f < forbidden.len() implies !ci_has(
                all_text(rows),
                #[trigger] forbidden[f],
            ) by {
                assert(leaking(forbidden[f]) is None);
            }
        }
    }
}

/// What is forbidden in summaries and in details is what any knowledge point forbids
/// there.
pub proof fn forbidden_words_are_those_of_all_points(kps: Seq<KpView>, word: Seq<char>)
    ensures
        forbidden_in_summaries(kps).contains(word) <==> exists|k: int|
            0 <= k < kps.len() && (#[trigger] kps[k]).summary_not.contains(word),
        forbidden_in_details(kps).contains(word) <==> exists|k: int|
            0 <= k < kps.len() && (#[trigger] kps[k]).detail_not.contains(word),
    decreases kps.len(),
{
    if kps.len() > 0 {
        let init = kps.drop_last();
        let last = kps.len() - 1;
        forbidden_words_are_those_of_all_points(init, word);
        let s = forbidden_in_summaries(init);
        let d = forbidden_in_details(init);
        in_either(s, kps.last().summary_not, word);
        in_either(d, kps.last().detail_not, word);
        assert(kps[last] == kps.last());
        if s.contains(word) {
            let k = choose|k: int|
                0 <= k < init.len() && (#[trigger] init[k]).summary_not.contains(word);
            assert(kps[k].summary_not.contains(word));
        }
        if d.contains(word) {
            let k = choose|k: int|
                0 <= k < init.len() && (#[trigger] init[k]).detail_not.contains(word);
            assert(kps[k].detail_not.contains(word));
        }
        assert forall|k: int|
            0 <= k < kps.len() && (#[trigger] kps[k]).summary_not.contains(
                word,
            ) implies forbidden_in_summaries(kps).contains(word) by {
            if k < last {
                assert(init[k] == kps[k]);
            }
        }
        assert forall|k: int|
            0 <= k < kps.len() && (#[trigger] kps[k]).detail_not.contains(
                word,
            ) implies forbidden_in_details(kps).contains(word) by {
            if k < last {
                assert(init[k] == kps[k]);
            }
        }
    }
}

proof fn in_either(a: Seq<Seq<char>>, b: Seq<Seq<char>>, x: Seq<char>)
    ensures
        (a + b).contains(x) <==> a.contains(x) || b.contains(x),
{
    if a.contains(x) {
        let i = choose|i: int| 0 <= i < a.len() && a[i] == x;
        assert((a + b)[i] == x);
    }
    if b.contains(x) {
        let i = choose|i: int| 0 <= i < b.len() && b[i] == x;
        assert((a + b)[a.len() + i] == x);
    }
    if (a + b).contains(x) {
        let i = choose|i: int| 0 <= i < (a + b).len() && (a + b)[i] == x;
        if i < a.len() {
            assert(a[i] == x);
        } else {
            assert(b[i - a.len()] == x);
        }
    }
}

/// A case in segments is to give what its segments give, one after another; a case
/// without is to give its own.
pub proof fn segments_give_their_points_in_order(a: Seq<ExpectedSegment>, b: Seq<ExpectedSegment>)
    ensures
        segment_kps(a + b) == segment_kps(a) + segment_kps(b),
        segment_total(a + b) == segment_total(a) + segment_total(b),
        a.len() == 1 ==> segment_kps(a) == kp_views(a[0].knowledge_points@) && segment_total(a)
            == a[0].expected_kp_count,
    decreases b.len(),
{
    if b.len() == 0 {
        assert(a + b =~= a);
    } else {
        assert((a + b).drop_last() =~= a + b.drop_last());
        segments_give_their_points_in_order(a, b.drop_last());
    }
    assert(segment_kps(a + b) =~= segment_kps(a) + segment_kps(b));
    if a.len() == 1 {
        assert(a.drop_last() =~= Seq::empty());
        assert(segment_kps(a.drop_last()) =~= Seq::empty());
        assert(segment_total(a.drop_last()) == 0);
        assert(a.last() == a[0]);
        assert(segment_kps(a) =~= kp_views(a[0].knowledge_points@));
    }
}

/// The text that a case's groups are looked for in holds all that every row says.
pub proof fn all_text_holds_every_row(rows: Seq<RowView>, i: int)
    requires
        0 <= i < rows.len(),
    ensures
        text::has(all_text(rows), rows[i].summary),
        text::has(all_text(rows), rows[i].detail_text()),
        text::has(all_text(rows), rows[i].kind),
{
    let texts = rows.map_values(
        |row: RowView| row.kind + "\n"@ + row.summary + "\n"@ + row.detail_text(),
    );
    let row = rows[i];
    let said = row.kind + "\n"@ + row.summary + "\n"@ + row.detail_text();
    assert(texts[i] == said);
    text::each_part_is_in_the_whole(texts, "\n"@, i);
    let whole = all_text(rows);
    lines_hold_their_parts(row.kind, row.summary, row.detail_text());
    has_through(whole, said, row.kind);
    has_through(whole, said, row.summary);
    has_through(whole, said, row.detail_text());
}

proof fn has_through(whole: Seq<char>, part: Seq<char>, word: Seq<char>)
    requires
        text::has(whole, part),
        text::has(part, word),
    ensures
        text::has(whole, word),
{
    let at = choose|at: int| #[trigger] text::occurs_at(whole, part, at);
    assert(whole =~= whole.take(at) + part + whole.skip(at + part.len()));
    text::has_is_kept(whole.take(at), part, whole.skip(at + part.len()), word);
}

proof fn lines_hold_their_parts(a: Seq<char>, b: Seq<char>, c: Seq<char>)
    ensures
        text::has(a + "\n"@ + b + "\n"@ + c, a),
        text::has(a + "\n"@ + b + "\n"@ + c, b),
        text::has(a + "\n"@ + b + "\n"@ + c, c),
{
    let s = a + "\n"@ + b + "\n"@ + c;
    assert(text::has(s, a)) by {
        let rest = "\n"@ + b + "\n"@ + c;
        text::parts_stand_in_the_whole(Seq::empty(), a, rest);
        assert(s =~= Seq::empty() + a + rest);
    }
    assert(text::has(s, b)) by {
        text::parts_stand_in_the_whole(a + "\n"@, b, "\n"@ + c);
        assert(s =~= a + "\n"@ + b + ("\n"@ + c));
    }
    assert(text::has(s, c)) by {
        let front = a + "\n"@ + b + "\n"@;
        text::parts_stand_in_the_whole(front, c, Seq::empty());
        assert(s =~= front + c + Seq::empty());
    }
}

/// The row of a case is the first in whose summary or detail one of the tokens stands.
pub proof fn first_located_is_first(
    rows: Seq<(i64, String, Option<String>)>,
    tokens: Seq<Seq<char>>,
)
    ensures
        match first_located(rows, tokens) {
            Some(id) => exists|i: int|
                0 <= i < rows.len() && (#[trigger] rows[i]).0 == id && any_has(
                    row_text(rows[i].1@, text::opt_view(rows[i].2)),
                    tokens,
                ) && forall|j: int|
                    0 <= j < i ==> !any_has(
                        row_text((#[trigger] rows[j]).1@, text::opt_view(rows[j].2)),
                        tokens,
                    ),
            None => forall|j: int|
                0 <= j < rows.len() ==> !any_has(
                    row_text((#[trigger] rows[j]).1@, text::opt_view(rows[j].2)),
                    tokens,
                ),
        },
    decreases rows.len(),
{
    if rows.len() > 0 {
        if any_has(row_text(rows[0].1@, text::opt_view(rows[0].2)), tokens) {
            assert(rows[0].0 == rows[0].0);
        } else {
            let rest = rows.drop_first();
            first_located_is_first(rest, tokens);
            match first_located(rest, tokens) {
                Some(id) => {
                    let i = choose|i: int|
                        0 <= i < rest.len() && (#[trigger] rest[i]).0 == id && any_has(
                            row_text(rest[i].1@, text::opt_view(rest[i].2)),
                            tokens,
                        ) && forall|j: int|
                            0 <= j < i ==> !any_has(
                                row_text((#[trigger] rest[j]).1@, text::opt_view(rest[j].2)),
                                tokens,
                            );
                    assert(rows[i + 1].0 == id);
                    assert forall|j: int| 0 <= j < i + 1 implies !any_has(
                        row_text((#[trigger] rows[j]).1@, text::opt_view(rows[j].2)),
                        tokens,
                    ) by {
                        if j > 0 {
                            assert(rest[j - 1] == rows[j]);
                        }
                    }
                },
                None => {
                    assert forall|j: int| 0 <= j < rows.len() implies !any_has(
                        row_text((#[trigger] rows[j]).1@, text::opt_view(rows[j].2)),
                        tokens,
                    ) by {
                        if j > 0 {
                            assert(rest[j - 1] == rows[j]);
                        }
                    }
                },
            }
        }
    }
}

/// A row is searched by all that it says: its whole summary and its whole detail.
pub proof fn rows_are_searched_whole(summary: Seq<char>, detail: Seq<char>)
    ensures
        text::begins(row_text(summary, Some(detail)), summary),
        text::ends(row_text(summary, Some(detail)), detail),
        text::begins(row_text(summary, None), summary),
        row_text(summary, Some(detail)).len() == summary.len() + 1 + detail.len(),
{
    reveal_strlit("\n");
    reveal_strlit("");
    text::parts_stand_in_the_whole(summary + "\n"@, detail, Seq::empty());
    assert(summary + "\n"@ + detail =~= summary + ("\n"@ + detail));
    text::parts_stand_in_the_whole(Seq::empty(), summary, "\n"@ + detail);
    assert(summary + "\n"@ + ""@ =~= summary + ("\n"@ + ""@));
    text::parts_stand_in_the_whole(Seq::empty(), summary, "\n"@ + ""@);
}

/// A case is found by its own groups where it has any; else by the words of its first
/// knowledge point's summary and by all groups of its detail; a case with neither cannot be
/// found.
pub proof fn cases_are_found_by_their_groups(gt: GroundTruth)
    ensures
        gt.expected_distill_case_level@.len() > 0 ==> locators(gt) == group_views(
            gt.expected_distill_case_level@,
        ),
        gt.expected_distill_case_level@.len() == 0 ==> match gt.expected_distill {
            Some(d) => if d.knowledge_points@.len() > 0 {
                let words = text::views(d.knowledge_points@[0].summary_must_contain_any@);
                let groups = group_views(d.knowledge_points@[0].detail_must_mention_all@);
                locators(gt) == (if words.len() > 0 {
                    seq![words]
                } else {
                    Seq::empty()
                }) + filled(groups)
            } else {
                locators(gt).len() == 0
            },
            None => locators(gt).len() == 0,
        },
{
    if let Some(d) = gt.expected_distill {
        if d.knowledge_points@.len() > 0 {
            let kp = d.knowledge_points@[0]@;
            only_empty_groups_are_left_out(seq![kp.summary_any], kp.detail_all);
        }
    }
}

/// Empty groups are left out, and all others stay, in order.
pub proof fn only_empty_groups_are_left_out(a: Seq<Seq<Seq<char>>>, b: Seq<Seq<Seq<char>>>)
    ensures
        filled(a + b) == filled(a) + filled(b),
        a.len() == 1 ==> filled(a) == (if a[0].len() == 0 {
            Seq::empty()
        } else {
            a
        }),
{
    filled_parts(a, b);
    if a.len() == 1 {
        assert(a.drop_last() =~= Seq::empty());
        assert(filled(a.drop_last()) =~= Seq::empty());
        assert(filled(a) =~= (if a[0].len() == 0 {
            Seq::empty()
        } else {
            a
        }));
    }
}

/// Two kinds are the same whatever white space stands around them.
pub proof fn kinds_are_compared_without_white_space(
    before: Seq<char>,
    kind: Seq<char>,
    after: Seq<char>,
    other: Seq<char>,
)
    requires
        text::is_white(before),
        text::is_white(after),
        kind.len() > 0,
        !text::is_white_space(kind[0]),
        !text::is_white_space(kind.last()),
        other.len() > 0,
        !text::is_white_space(other[0]),
        !text::is_white_space(other.last()),
    ensures
        same_kind(before + kind + after, other) <==> text::ascii_lowercase(kind)
            == text::ascii_lowercase(other),
{
    text::trimming_drops_what_is_blank(before, kind, after);
    text::trimming_nothing(other);
}

/// The listing of the rows shows every row in full.
pub proof fn listings_show_every_row(rows: Seq<RowView>, i: int)
    requires
        0 <= i < rows.len(),
    ensures
        text::has(dumped(rows), rows[i].summary),
        text::has(dumped(rows), rows[i].kind),
        rows[i].detail is Some ==> text::has(dumped(rows), rows[i].detail->0),
    decreases rows.len(),
{
    let init = rows.drop_last();
    let last = rows.len() - 1;
    let shown = shown_row(last, rows.last());
    let front = shown_rows(init);
    assert(shown_rows(rows) =~= front + shown + Seq::empty());
    assert(shown_rows(rows) =~= Seq::empty() + front + shown);
    if i < last {
        listings_show_every_row(init, i);
        assert(init[i] == rows[i]);
        text::has_is_kept(Seq::empty(), front, shown, rows[i].summary);
        text::has_is_kept(Seq::empty(), front, shown, rows[i].kind);
        if rows[i].detail is Some {
            text::has_is_kept(Seq::empty(), front, shown, rows[i].detail->0);
        }
    } else {
        let row = rows[i];
        let d = match row.detail {
            Some(d) => d,
            None => "<none>"@,
        };
        let a = "\n    ["@ + text::integer_text(last) + "] kind="@;
        let b = " summary="@ + row.summary + "\n        detail="@ + d;
        assert(shown =~= a + row.kind + b);
        text::parts_stand_in_the_whole(a, row.kind, b);
        let c = a + row.kind + " summary="@;
        let e = "\n        detail="@ + d;
        assert(shown =~= c + row.summary + e);
        text::parts_stand_in_the_whole(c, row.summary, e);
        let f = c + row.summary + "\n        detail="@;
        assert(shown =~= f + d + Seq::empty());
        text::parts_stand_in_the_whole(f, d, Seq::empty());
        text::has_is_kept(front, shown, Seq::empty(), row.kind);
        text::has_is_kept(front, shown, Seq::empty(), row.summary);
        text::has_is_kept(front, shown, Seq::empty(), d);
    }
}

/// A kind is remarked on exactly where the row that meets a point has another one than
/// the point names.
pub proof fn other_kinds_are_remarked_on(
    case_id: Seq<char>,
    gt: GroundTruth,
    rows: Seq<RowView>,
)
    requires
        expected_total(gt) != 0,
    ensures
        ({
            let kps = expected_kps(gt);
            kind_remarks(case_id, gt, rows).len() == 0 <==> forall|k: int|
                0 <= k < kps.len() && (#[trigger] kps[k]).kind is Some && first_match(rows, kps[k])
                    is Some ==> same_kind(first_match(rows, kps[k])->0.kind, kps[k].kind->0)
        }),
{
    let kps = expected_kps(gt);
    let note = kind_note(case_id, rows);
    found_nothing(kps, note);
    assert forall|k: int| 0 <= k < kps.len() implies (note(#[trigger] kps[k]) is None <==> (
    kps[k].kind is Some && first_match(rows, kps[k]) is Some ==> same_kind(
        first_match(rows, kps[k])->0.kind,
        kps[k].kind->0,
    ))) by {}
}

/// A fault tells the words that it is about: a group that no row meets is shown whole, and a
/// forbidden word is named where it stands in the rows, in a summary or in a detail. Words
/// that do not stand there, and groups that are met, are no fault.
pub proof fn faults_name_their_words(said: Seq<char>, word: Seq<char>, group: Seq<Seq<char>>)
    ensures
        case_leak(said)(word) is Some <==> text::has(text::lowercase(said), text::lowercase(word)),
        case_leak(said)(word) matches Some(m) ==> text::has(m, text::debug_text(word)),
        summary_leak(said)(word) is Some <==> text::has(
            text::lowercase(said),
            text::lowercase(word),
        ),
        summary_leak(said)(word) matches Some(m) ==> text::has(m, text::debug_text(word))
            && text::ends(m, said),
        detail_leak(said)(word) is Some <==> text::has(
            text::lowercase(said),
            text::lowercase(word),
        ),
        detail_leak(said)(word) matches Some(m) ==> text::has(m, text::debug_text(word)),
        group_fault(said)(group) is None <==> exists|i: int|
            0 <= i < group.len() && text::has(
                text::lowercase(said),
                text::lowercase(#[trigger] group[i]),
            ),
        group_fault(said)(group) matches Some(m) ==> text::ends(m, text::debug_list(group)),
{
    words_are_met_in_any_case(said, group, Seq::empty());
    let shown = text::debug_text(word);
    text::parts_stand_in_the_whole(
        "case-level forbidden token "@,
        shown,
        " appeared in a distilled row"@,
    );
    text::parts_stand_in_the_whole("forbidden token "@, shown, " appeared in a detail"@);
    let rest = " appeared in a summary: "@ + said;
    text::parts_stand_in_the_whole("forbidden token "@, shown, rest);
    assert("forbidden token "@ + shown + rest =~= "forbidden token "@ + shown
        + " appeared in a summary: "@ + said);
    text::parts_stand_in_the_whole(
        "forbidden token "@ + shown + " appeared in a summary: "@,
        said,
        Seq::empty(),
    );
    text::parts_stand_in_the_whole(
        "case-level: no distilled row text matches any of "@,
        text::debug_list(group),
        Seq::empty(),
    );
}

} // verus!
