//! Scenarios of several cases in one memory: what a search is to find, which
//! distilled row stands for which case, and how judged pairs stand against what
//! the cases say of each other.
use crate::corpus;
use crate::corpus::ConsolidationRelation;
use crate::corpus::ExpectedSearch;
use crate::corpus::GroundTruth;
use crate::text;
use vstd::prelude::*;
use vstd::string::*;

verus! {

// ---------------------------------------------------------------------------
// What a search is to find

/// How many hits are asked for; three where the case names no number.
pub open spec fn asked_hits(limit: u64) -> usize {
    if limit == 0 {
        3
    } else {
        limit as usize
    }
}

/// How many hits a search is to ask for.
pub fn search_limit(es: &ExpectedSearch) -> (r: usize)
    ensures
        r == asked_hits(es.limit),
{
    if es.limit == 0 {
        3
    } else {
        es.limit as usize
    }
}

/// What is wrong with the first hit.
pub open spec fn first_hit_faults(
    summary: Seq<char>,
    any: Seq<Seq<char>>,
    not: Seq<Seq<char>>,
) -> Seq<Seq<char>> {
    let unmatched = "top1 "@ + text::debug_text(summary) + " matches none of "@ + text::debug_list(
        any,
    );
    let forbidden = "top1 "@ + text::debug_text(summary) + " hit must_not "@ + text::debug_list(not);
    (if any.len() == 0 || corpus::any_has(summary, any) {
        Seq::empty()
    } else {
        seq![unmatched]
    }) + (if corpus::any_has(summary, not) {
        seq![forbidden]
    } else {
        Seq::empty()
    })
}

/// Some hit meets the group.
pub open spec fn group_is_hit(hits: Seq<Seq<char>>, group: Seq<Seq<char>>) -> bool {
    exists|i: int| 0 <= i < hits.len() && corpus::any_has(#[trigger] hits[i], group)
}

/// The fault of a group that no hit meets.
pub open spec fn member_fault(
    limit: usize,
    hits: Seq<Seq<char>>,
) -> spec_fn(Seq<Seq<char>>) -> Option<Seq<char>> {
    |group: Seq<Seq<char>>|
        if group_is_hit(hits, group) {
            None
        } else {
            Some(
                "top-"@ + text::integer_text(limit as int) + " missing member-set "@
                    + text::debug_list(group),
            )
        }
}

/// All that is wrong with the summaries of the hits.
pub open spec fn search_faults(es: ExpectedSearch, hits: Seq<Seq<char>>) -> Seq<Seq<char>> {
    (if hits.len() == 0 {
        seq!["no hits"@]
    } else {
        first_hit_faults(
            hits[0],
            text::views(es.expected_top1_summary_must_match_any@),
            text::views(es.expected_top1_summary_must_not_match@),
        )
    }) + corpus::found(
        corpus::group_views(es.expected_topk_members@),
        member_fault(asked_hits(es.limit), hits),
    )
}

/// How the hits of a search stand against what is expected.
pub open spec fn layer_c(
    case_id: Seq<char>,
    es: ExpectedSearch,
    hits: Seq<Seq<char>>,
) -> Result<(), Seq<char>> {
    let faults = search_faults(es, hits);
    if faults.len() == 0 {
        Ok(())
    } else {
        Err(
            "["@ + case_id + "] query="@ + text::debug_text(es.query@) + ": "@ + text::joined(
                faults,
                "; "@,
            ),
        )
    }
}

fn hits_group(hits: &Vec<String>, group: &Vec<String>) -> (r: bool)
    ensures
        r == group_is_hit(text::views(hits@), text::views(group@)),
{
    let ghost all = text::views(hits@);
    let mut i: usize = 0;
    while i < hits.len()
        invariant
            i <= hits@.len(),
            all == text::views(hits@),
            forall|j: int|
                0 <= j < i ==> !corpus::any_has(#[trigger] all[j], text::views(group@)),
        decreases hits@.len() - i,
    {
        assert(all[i as int] == hits@[i as int]@);
        if corpus::any_ci(hits[i].as_str(), group.as_slice()) {
            return true;
        }
        i += 1;
    }
    false
}

fn check_first_hit(summary: &str, any: &Vec<String>, not: &Vec<String>) -> (errs: Vec<String>)
    ensures
        text::views(errs@) == first_hit_faults(
            summary@,
            text::views(any@),
            text::views(not@),
        ),
{
    let mut errs: Vec<String> = Vec::new();
    if any.len() > 0 && !corpus::any_ci(summary, any.as_slice()) {
        errs.push(
            "top1 ".to_owned().concat(text::debug(summary).as_str()).concat(
                " matches none of ",
            ).concat(text::show_list(any).as_str()),
        );
    }
    if corpus::any_ci(summary, not.as_slice()) {
        errs.push(
            "top1 ".to_owned().concat(text::debug(summary).as_str()).concat(
                " hit must_not ",
            ).concat(text::show_list(not).as_str()),
        );
    }
    assert(text::views(errs@) =~= first_hit_faults(
        summary@,
        text::views(any@),
        text::views(not@),
    ));
    errs
}

/// Holds the summaries of the hits of a search, the best first, against what is
/// expected: of the first hit, and of all of them together.
pub fn check_search(case_id: &str, es: &ExpectedSearch, hits: &Vec<String>) -> (r: Result<
    (),
    String,
>)
    ensures
        match r {
            Ok(_) => layer_c(case_id@, *es, text::views(hits@)) == Ok::<(), Seq<char>>(()),
            Err(e) => layer_c(case_id@, *es, text::views(hits@)) == Err::<(), Seq<char>>(e@),
        },
{
    let mut errs: Vec<String> = Vec::new();
    if hits.len() == 0 {
        errs.push("no hits".to_owned());
        assert(text::views(errs@) =~= seq!["no hits"@]);
    } else {
        assert(text::views(hits@)[0] == hits@[0]@);
        errs =
        check_first_hit(
            hits[0].as_str(),
            &es.expected_top1_summary_must_match_any,
            &es.expected_top1_summary_must_not_match,
        );
    }
    let limit = text::u64_text(search_limit(es) as u64);
    let groups = &es.expected_topk_members;
    let ghost first = text::views(errs@);
    let ghost all = corpus::group_views(groups@);
    let ghost fault = member_fault(asked_hits(es.limit), text::views(hits@));
    let mut i: usize = 0;
    assert(corpus::found(all.take(0), fault) =~= Seq::empty());
    while i < groups.len()
        invariant
            i <= groups@.len(),
            all == corpus::group_views(groups@),
            fault == member_fault(asked_hits(es.limit), text::views(hits@)),
            limit@ == text::integer_text(asked_hits(es.limit) as int),
            text::views(errs@) == first + corpus::found(all.take(i as int), fault),
        decreases groups@.len() - i,
    {
        let ghost before = errs@;
        assert(all.take(i + 1).drop_last() =~= all.take(i as int));
        assert(all[i as int] == text::views(groups@[i as int]@));
        if !hits_group(hits, &groups[i]) {
            errs.push(
                "top-".to_owned().concat(limit.as_str()).concat(" missing member-set ").concat(
                    text::show_list(&groups[i]).as_str(),
                ),
            );
            assert(text::views(errs@) =~= text::views(before).push(errs@.last()@));
        }
        i += 1;
        assert(text::views(errs@) =~= first + corpus::found(all.take(i as int), fault));
    }
    assert(all.take(i as int) =~= all);
    assert(text::views(errs@).len() == errs@.len());
    if errs.len() == 0 {
        Ok(())
    } else {
        Err(
            "[".to_owned().concat(case_id).concat("] query=").concat(
                text::debug(es.query.as_str()).as_str(),
            ).concat(": ").concat(text::join(&errs, "; ").as_str()),
        )
    }
}

/// A search is clean exactly if it found something, its first hit holds one of
/// the wanted words, where there are any, and none of the forbidden ones, and
/// each group is met by some hit.
pub proof fn clean_search_finds_all_groups(
    case_id: Seq<char>,
    es: ExpectedSearch,
    hits: Seq<Seq<char>>,
)
    ensures
        layer_c(case_id, es, hits) is Ok <==> {
            let any = text::views(es.expected_top1_summary_must_match_any@);
            let not = text::views(es.expected_top1_summary_must_not_match@);
            let groups = corpus::group_views(es.expected_topk_members@);
            &&& hits.len() > 0
            &&& any.len() == 0 || corpus::any_has(hits[0], any)
            &&& !corpus::any_has(hits[0], not)
            &&& forall|i: int| 0 <= i < groups.len() ==> group_is_hit(hits, #[trigger] groups[i])
        },
{
    let groups = corpus::group_views(es.expected_topk_members@);
    let fault = member_fault(asked_hits(es.limit), hits);
    corpus::found_nothing(groups, fault);
    assert forall|i: int| 0 <= i < groups.len() implies (fault(#[trigger] groups[i]) is None
        <==> group_is_hit(hits, groups[i])) by {}
}

// ---------------------------------------------------------------------------
// Pairs of cases

/// `a` stands before `b` in the order of the characters, or is the same.
pub open spec fn not_after(a: Seq<char>, b: Seq<char>) -> bool
    decreases a.len(),
{
    if a.len() == 0 {
        true
    } else if b.len() == 0 {
        false
    } else if a[0] == b[0] {
        not_after(a.drop_first(), b.drop_first())
    } else {
        a[0] < b[0]
    }
}

/// The two in order.
pub open spec fn canonical(a: Seq<char>, b: Seq<char>) -> (Seq<char>, Seq<char>) {
    if not_after(a, b) {
        (a, b)
    } else {
        (b, a)
    }
}

fn comes_first(a: &str, b: &str) -> (r: bool)
    ensures
        r == not_after(a@, b@),
{
    let v = text::chars_of(a);
    let w = text::chars_of(b);
    let mut i: usize = 0;
    assert(a@.skip(0) =~= a@);
    assert(b@.skip(0) =~= b@);
    while i < v.len() && i < w.len()
        invariant
            v@ == a@,
            w@ == b@,
            i <= v@.len(),
            i <= w@.len(),
            not_after(a@, b@) == not_after(a@.skip(i as int), b@.skip(i as int)),
        decreases v@.len() - i,
    {
        assert(a@.skip(i as int).drop_first() =~= a@.skip(i + 1));
        assert(b@.skip(i as int).drop_first() =~= b@.skip(i + 1));
        if v[i] != w[i] {
            return v[i] < w[i];
        }
        i += 1;
    }
    i == v.len()
}

/// The ids of two cases in order, so that a pair has one name.
pub fn canon_ids(a: &str, b: &str) -> (r: (String, String))
    ensures
        (r.0@, r.1@) == canonical(a@, b@),
{
    if comes_first(a, b) {
        (a.to_owned(), b.to_owned())
    } else {
        (b.to_owned(), a.to_owned())
    }
}

proof fn order_is_total(a: Seq<char>, b: Seq<char>)
    ensures
        not_after(a, b) || not_after(b, a),
        not_after(a, b) && not_after(b, a) ==> a == b,
    decreases a.len(),
{
    if a.len() > 0 && b.len() > 0 {
        order_is_total(a.drop_first(), b.drop_first());
        if a[0] == b[0] && a.drop_first() == b.drop_first() {
            assert(a =~= seq![a[0]] + a.drop_first());
            assert(b =~= seq![b[0]] + b.drop_first());
        }
    } else {
        assert(a.len() == 0 && b.len() == 0 ==> a =~= b);
    }
}

/// A pair has one name, whichever of the two is named first, and the name of a
/// name is the name itself.
pub proof fn pair_has_one_name(a: Seq<char>, b: Seq<char>)
    ensures
        canonical(a, b) == canonical(b, a),
        canonical(canonical(a, b).0, canonical(a, b).1) == canonical(a, b),
{
    order_is_total(a, b);
}

// ---------------------------------------------------------------------------
// Which row stands for which case

/// A case of the corpus: its id, and what is expected of it.
#[derive(Debug, Clone, Default)]
pub struct CorpusCase {
    pub id: String,
    pub truth: GroundTruth,
}

/// By how many groups the row of each case is found.
pub open spec fn group_counts(cases: Seq<CorpusCase>) -> Seq<nat> {
    cases.map_values(|c: CorpusCase| corpus::locators(c.truth).len())
}

/// How many positions, from the first on, have at least that count.
pub open spec fn place(order: Seq<int>, counts: Seq<nat>, count: nat) -> int
    decreases order.len(),
{
    if order.len() == 0 || counts[order[0]] < count {
        0
    } else {
        1 + place(order.drop_first(), counts, count)
    }
}

/// The positions by falling count; among equal counts as they are listed.
pub open spec fn by_count(counts: Seq<nat>) -> Seq<int>
    decreases counts.len(),
{
    if counts.len() == 0 {
        Seq::empty()
    } else {
        let before = by_count(counts.drop_last());
        before.insert(place(before, counts, counts.last()), counts.len() - 1)
    }
}

/// The row is claimed.
pub open spec fn is_claimed(claims: Seq<(int, i64)>, id: i64) -> bool {
    exists|i: int| 0 <= i < claims.len() && (#[trigger] claims[i]).1 == id
}

/// The row meets every group.
pub open spec fn row_fits(
    row: (i64, String, Option<String>),
    groups: Seq<Seq<Seq<char>>>,
) -> bool {
    corpus::groups_met(corpus::row_text(row.1@, text::opt_view(row.2)), groups)
}

/// The first row that is not claimed and meets every group.
pub open spec fn first_free(
    rows: Seq<(i64, String, Option<String>)>,
    claims: Seq<(int, i64)>,
    groups: Seq<Seq<Seq<char>>>,
) -> Option<i64>
    decreases rows.len(),
{
    if rows.len() == 0 {
        None
    } else if !is_claimed(claims, rows[0].0) && row_fits(rows[0], groups) {
        Some(rows[0].0)
    } else {
        first_free(rows.drop_first(), claims, groups)
    }
}

/// The rows that the cases claim, one case after another: each the first free
/// row that meets all of its groups. A case without groups claims none.
pub open spec fn claims_in_order(
    order: Seq<int>,
    cases: Seq<CorpusCase>,
    rows: Seq<(i64, String, Option<String>)>,
) -> Seq<(int, i64)>
    decreases order.len(),
{
    if order.len() == 0 {
        Seq::empty()
    } else {
        let before = claims_in_order(order.drop_last(), cases, rows);
        let groups = corpus::locators(cases[order.last()].truth);
        if groups.len() == 0 {
            before
        } else {
            match first_free(rows, before, groups) {
                Some(id) => before.push((order.last(), id)),
                None => before,
            }
        }
    }
}

/// The rows that the cases claim. A case that is found by more groups claims
/// before one that is found by fewer, so that no broad case takes the row of a
/// narrow one.
pub open spec fn claims(
    cases: Seq<CorpusCase>,
    rows: Seq<(i64, String, Option<String>)>,
) -> Seq<(int, i64)> {
    claims_in_order(by_count(group_counts(cases)), cases, rows)
}

/// The positions as numbers.
pub open spec fn positions(v: Seq<usize>) -> Seq<int> {
    v.map_values(|i: usize| i as int)
}

/// The claims, with positions as numbers.
pub open spec fn claim_views(v: Seq<(usize, i64)>) -> Seq<(int, i64)> {
    v.map_values(|c: (usize, i64)| (c.0 as int, c.1))
}

fn order_by_count(groups: &Vec<Vec<Vec<String>>>, Ghost(counts): Ghost<Seq<nat>>) -> (r: Vec<
    usize,
>)
    requires
        counts.len() == groups@.len(),
        forall|i: int| 0 <= i < counts.len() ==> counts[i] == (#[trigger] groups@[i])@.len(),
    ensures
        positions(r@) == by_count(counts),
{
    let mut order: Vec<usize> = Vec::new();
    let mut i: usize = 0;
    assert(counts.take(0) =~= Seq::empty());
    assert(positions(order@) =~= by_count(counts.take(0)));
    while i < groups.len()
        invariant
            i <= groups@.len(),
            counts.len() == groups@.len(),
            forall|j: int| 0 <= j < counts.len() ==> counts[j] == (#[trigger] groups@[j])@.len(),
            order@.len() == i,
            forall|j: int| 0 <= j < i ==> (#[trigger] order@[j]) < i,
            positions(order@) == by_count(counts.take(i as int)),
        decreases groups@.len() - i,
    {
        let ghost now = counts.take(i + 1);
        let ghost before = positions(order@);
        assert(now.drop_last() =~= counts.take(i as int));
        let mut k: usize = 0;
        assert(before.skip(0) =~= before);
        while k < order.len() && groups[order[k]].len() >= groups[i].len()
            invariant
                k <= order@.len(),
                i < groups@.len(),
                order@.len() == i,
                counts.len() == groups@.len(),
                now == counts.take(i + 1),
                before == positions(order@),
                forall|j: int|
                    0 <= j < counts.len() ==> counts[j] == (#[trigger] groups@[j])@.len(),
                forall|j: int| 0 <= j < i ==> (#[trigger] order@[j]) < i,
                place(before, now, now.last()) == k + place(
                    before.skip(k as int),
                    now,
                    now.last(),
                ),
            decreases order@.len() - k,
        {
            assert(before.skip(k as int).drop_first() =~= before.skip(k + 1));
            assert(before.skip(k as int)[0] == order@[k as int]);
            assert(groups@[order@[k as int] as int]@.len() >= groups@[i as int]@.len());
            k += 1;
        }
        assert(place(before.skip(k as int), now, now.last()) == 0) by {
            if k < order@.len() {
                assert(before.skip(k as int)[0] == order@[k as int]);
                assert(groups@[order@[k as int] as int]@.len() < groups@[i as int]@.len());
            }
        }
        order.insert(k, i);
        assert(positions(order@) =~= before.insert(k as int, i as int));
        i += 1;
    }
    assert(counts.take(i as int) =~= counts);
    order
}

fn has_claim(claims: &Vec<(usize, i64)>, id: i64) -> (r: bool)
    ensures
        r == is_claimed(claim_views(claims@), id),
{
    let ghost all = claim_views(claims@);
    let mut i: usize = 0;
    while i < claims.len()
        invariant
            i <= claims@.len(),
            all == claim_views(claims@),
            forall|j: int| 0 <= j < i ==> (#[trigger] all[j]).1 != id,
        decreases claims@.len() - i,
    {
        assert(all[i as int].1 == claims@[i as int].1);
        if claims[i].1 == id {
            return true;
        }
        i += 1;
    }
    false
}

fn find_free(
    rows: &Vec<(i64, String, Option<String>)>,
    claims: &Vec<(usize, i64)>,
    groups: &Vec<Vec<String>>,
) -> (r: Option<i64>)
    ensures
        r == first_free(rows@, claim_views(claims@), corpus::group_views(groups@)),
{
    let ghost taken = claim_views(claims@);
    let ghost wanted = corpus::group_views(groups@);
    let mut i: usize = 0;
    assert(rows@.skip(0) =~= rows@);
    while i < rows.len()
        invariant
            i <= rows@.len(),
            taken == claim_views(claims@),
            wanted == corpus::group_views(groups@),
            first_free(rows@, taken, wanted) == first_free(rows@.skip(i as int), taken, wanted),
        decreases rows@.len() - i,
    {
        assert(rows@.skip(i as int).drop_first() =~= rows@.skip(i + 1));
        assert(rows@.skip(i as int)[0] == rows@[i as int]);
        if !has_claim(claims, rows[i].0) {
            let whole = rows[i].1.clone().concat("\n").concat(corpus::text_or_empty(&rows[i].2));
            if corpus::all_groups(whole.as_str(), groups.as_slice()) {
                return Some(rows[i].0);
            }
        }
        i += 1;
    }
    None
}

/// Finds the row that stands for each case: pairs of a case's position and a
/// row's id, in the order in which the rows were claimed.
pub fn locate_cases(
    cases: &Vec<CorpusCase>,
    rows: &Vec<(i64, String, Option<String>)>,
) -> (r: Vec<(usize, i64)>)
    ensures
        claim_views(r@) == claims(cases@, rows@),
{
    let ghost counts = group_counts(cases@);
    let mut groups: Vec<Vec<Vec<String>>> = Vec::new();
    let mut i: usize = 0;
    while i < cases.len()
        invariant
            i <= cases@.len(),
            groups@.len() == i,
            forall|j: int|
                0 <= j < i ==> corpus::group_views((#[trigger] groups@[j])@) == corpus::locators(
                    cases@[j].truth,
                ),
        decreases cases@.len() - i,
    {
        groups.push(corpus::locator_groups(&cases[i].truth));
        i += 1;
    }
    assert forall|j: int| 0 <= j < counts.len() implies counts[j] == (
    #[trigger] groups@[j])@.len() by {
        assert(corpus::group_views(groups@[j]@).len() == groups@[j]@.len());
    }
    let order = order_by_count(&groups, Ghost(counts));
    let ghost all = by_count(counts);
    proof {
        counted_once(counts);
    }
    let mut out: Vec<(usize, i64)> = Vec::new();
    let mut k: usize = 0;
    assert(claim_views(out@) =~= claims_in_order(all.take(0), cases@, rows@));
    while k < order.len()
        invariant
            k <= order@.len(),
            positions(order@) == all,
            groups@.len() == cases@.len(),
            forall|j: int| 0 <= j < all.len() ==> 0 <= #[trigger] all[j] < cases@.len(),
            forall|j: int|
                0 <= j < cases@.len() ==> corpus::group_views((#[trigger] groups@[j])@)
                    == corpus::locators(cases@[j].truth),
            claim_views(out@) == claims_in_order(all.take(k as int), cases@, rows@),
        decreases order@.len() - k,
    {
        let ghost before = out@;
        assert(all.take(k + 1).drop_last() =~= all.take(k as int));
        assert(all[k as int] == order@[k as int]);
        let c: usize = order[k];
        assert(corpus::group_views(groups@[c as int]@).len() == groups@[c as int]@.len());
        if groups[c].len() > 0 {
            if let Some(id) = find_free(rows, &out, &groups[c]) {
                out.push((c, id));
                assert(claim_views(out@) =~= claim_views(before).push((c as int, id)));
            }
        }
        k += 1;
    }
    assert(all.take(k as int) =~= all);
    out
}

proof fn place_is_within(order: Seq<int>, counts: Seq<nat>, count: nat)
    ensures
        0 <= place(order, counts, count) <= order.len(),
        forall|j: int|
            0 <= j < place(order, counts, count) ==> counts[#[trigger] order[j]] >= count,
        place(order, counts, count) < order.len() ==> counts[order[place(order, counts, count)]]
            < count,
    decreases order.len(),
{
    if order.len() > 0 && counts[order[0]] >= count {
        let rest = order.drop_first();
        place_is_within(rest, counts, count);
        let p = place(rest, counts, count);
        assert forall|j: int| 0 <= j < p + 1 implies counts[#[trigger] order[j]] >= count by {
            if j > 0 {
                assert(order[j] == rest[j - 1]);
            }
        }
        assert(p < rest.len() ==> order[p + 1] == rest[p]);
    }
}

proof fn counted_once(counts: Seq<nat>)
    ensures
        by_count(counts).len() == counts.len(),
        forall|j: int|
            0 <= j < by_count(counts).len() ==> 0 <= #[trigger] by_count(counts)[j] < counts.len(),
    decreases counts.len(),
{
    if counts.len() > 0 {
        let before = by_count(counts.drop_last());
        counted_once(counts.drop_last());
        place_is_within(before, counts, counts.last());
        let p = place(before, counts, counts.last());
        let now = by_count(counts);
        assert forall|j: int| 0 <= j < now.len() implies 0 <= #[trigger] now[j] < counts.len() by {
            if j < p {
                assert(now[j] == before[j]);
            } else if j > p {
                assert(now[j] == before[j - 1]);
            }
        }
    }
}

/// The cases claim by falling number of groups; of two with as many, the one
/// listed first claims first. Every case has its turn, and only one.
pub proof fn narrow_cases_claim_first(counts: Seq<nat>)
    ensures
        by_count(counts).len() == counts.len(),
        by_count(counts).no_duplicates(),
        forall|p: int| 0 <= p < counts.len() ==> #[trigger] by_count(counts).contains(p),
        forall|i: int, j: int|
            0 <= i < j < counts.len() ==> {
                let a = #[trigger] by_count(counts)[i];
                let b = #[trigger] by_count(counts)[j];
                counts[a] > counts[b] || (counts[a] == counts[b] && a < b)
            },
    decreases counts.len(),
{
    counted_once(counts);
    if counts.len() > 0 {
        let less = counts.drop_last();
        let before = by_count(less);
        let n = counts.len() - 1;
        let now = by_count(counts);
        let p = place(before, counts, counts.last());
        narrow_cases_claim_first(less);
        counted_once(less);
        place_is_within(before, counts, counts.last());
        assert(now[p] == n);
        assert(forall|j: int| 0 <= j < p ==> now[j] == before[j]);
        assert(forall|j: int| p < j < now.len() ==> now[j] == before[j - 1]);
        assert forall|i: int, j: int| 0 <= i < j < now.len() implies {
            let a = #[trigger] now[i];
            let b = #[trigger] now[j];
            counts[a] > counts[b] || (counts[a] == counts[b] && a < b)
        } by {
            if j == p {
                assert(now[i] == before[i]);
                assert(counts[before[i]] >= counts.last());
            } else if i == p {
                let k = j - 1;
                assert(counts[before[p]] < counts.last());
                if p < k {
                    assert(less[before[p]] >= less[before[k]]);
                }
                assert(counts[before[k]] < counts.last());
            } else {
                let i0 = if i < p { i } else { i - 1 };
                let j0 = if j < p { j } else { j - 1 };
                assert(now[i] == before[i0] && now[j] == before[j0]);
                assert(0 <= i0 < j0 < less.len());
                assert(less[before[i0]] == counts[before[i0]]);
                assert(less[before[j0]] == counts[before[j0]]);
            }
        }
        assert forall|q: int| 0 <= q < counts.len() implies #[trigger] now.contains(q) by {
            if q == n {
                assert(now[p] == q);
            } else {
                assert(before.contains(q));
                let k = choose|k: int| 0 <= k < before.len() && before[k] == q;
                if k < p {
                    assert(now[k] == q);
                } else {
                    assert(now[k + 1] == q);
                }
            }
        }
    }
}

proof fn free_row_is_free(
    rows: Seq<(i64, String, Option<String>)>,
    taken: Seq<(int, i64)>,
    groups: Seq<Seq<Seq<char>>>,
)
    ensures
        first_free(rows, taken, groups) matches Some(id) ==> !is_claimed(taken, id) && exists|k: int|
            0 <= k < rows.len() && (#[trigger] rows[k]).0 == id && row_fits(rows[k], groups),
    decreases rows.len(),
{
    if rows.len() > 0 {
        let rest = rows.drop_first();
        free_row_is_free(rest, taken, groups);
        if let Some(id) = first_free(rows, taken, groups) {
            if first_free(rest, taken, groups) == Some(id) {
                let k = choose|k: int|
                    0 <= k < rest.len() && (#[trigger] rest[k]).0 == id && row_fits(
                        rest[k],
                        groups,
                    );
                assert(rows[k + 1] == rest[k]);
            }
        }
    }
}

proof fn claims_are_sound(
    order: Seq<int>,
    cases: Seq<CorpusCase>,
    rows: Seq<(i64, String, Option<String>)>,
)
    ensures
        ({
            let all = claims_in_order(order, cases, rows);
            &&& forall|i: int, j: int|
                0 <= i < j < all.len() ==> (#[trigger] all[i]).1 != (#[trigger] all[j]).1
            &&& forall|i: int|
                #![trigger all[i]]
                0 <= i < all.len() ==> order.contains(all[i].0) && exists|k: int|
                    0 <= k < rows.len() && (#[trigger] rows[k]).0 == all[i].1 && row_fits(
                        rows[k],
                        corpus::locators(cases[all[i].0].truth),
                    )
        }),
    decreases order.len(),
{
    if order.len() > 0 {
        let less = order.drop_last();
        let before = claims_in_order(less, cases, rows);
        let all = claims_in_order(order, cases, rows);
        let groups = corpus::locators(cases[order.last()].truth);
        claims_are_sound(less, cases, rows);
        free_row_is_free(rows, before, groups);
        assert forall|i: int, j: int| 0 <= i < j < all.len() implies (#[trigger] all[i]).1 != (
        #[trigger] all[j]).1 by {
            if j == before.len() {
                assert(before[i] == all[i]);
            }
        }
        assert forall|i: int| #![trigger all[i]] 0 <= i < all.len() implies order.contains(
            all[i].0,
        ) && exists|k: int|
            0 <= k < rows.len() && (#[trigger] rows[k]).0 == all[i].1 && row_fits(
                rows[k],
                corpus::locators(cases[all[i].0].truth),
            ) by {
            if i < before.len() {
                assert(before[i] == all[i]);
                let k = choose|k: int| 0 <= k < less.len() && less[k] == before[i].0;
                assert(order[k] == before[i].0);
            } else {
                assert(order[order.len() - 1] == all[i].0);
            }
        }
    }
}

/// No row stands for two cases, and a row that stands for a case is one of the
/// rows and meets every group by which the case is found.
pub proof fn no_row_stands_for_two_cases(
    cases: Seq<CorpusCase>,
    rows: Seq<(i64, String, Option<String>)>,
)
    ensures
        forall|i: int, j: int|
            0 <= i < j < claims(cases, rows).len() ==> (#[trigger] claims(cases, rows)[i]).1 != (
            #[trigger] claims(cases, rows)[j]).1,
        forall|i: int|
            #![trigger claims(cases, rows)[i]]
            0 <= i < claims(cases, rows).len() ==> 0 <= claims(cases, rows)[i].0 < cases.len()
                && exists|k: int|
                0 <= k < rows.len() && (#[trigger] rows[k]).0 == claims(cases, rows)[i].1
                    && row_fits(rows[k], corpus::locators(cases[claims(cases, rows)[i].0].truth)),
{
    let order = by_count(group_counts(cases));
    claims_are_sound(order, cases, rows);
    counted_once(group_counts(cases));
    assert forall|i: int|
        #![trigger claims(cases, rows)[i]]
        0 <= i < claims(cases, rows).len() implies 0 <= claims(cases, rows)[i].0 < cases.len() by {
        let c = claims(cases, rows)[i].0;
        assert(order.contains(c));
        let k = choose|k: int| 0 <= k < order.len() && order[k] == c;
        assert(0 <= order[k] < cases.len());
    }
}

// ---------------------------------------------------------------------------
// Judged pairs against what the cases say of each other

/// The pairs that the judge is shown as examples: what it says of them is no
/// test of it.
pub const SEEN_PAIRS: [(&'static str, &'static str); 5] = [
    ("C031", "C032"),
    ("C019", "C020"),
    ("C017", "C018"),
    ("C035", "C036"),
    ("C020", "C023"),
];

/// The pairs whose newer row replaces something else than the older one.
pub const TARGET_TRAPS: [(&'static str, &'static str); 3] = [
    ("C019", "C024"),
    ("C020", "C024"),
    ("C019", "C023"),
];

/// A pair of rows that was judged. Its rows go by the ids of their cases.
#[derive(Debug, Clone, Default)]
pub struct JudgedPair {
    pub case_a: String,
    pub case_b: String,
    /// The distance of the two, as it is shown.
    pub distance: String,
    pub relation: String,
    pub superseded_id: Option<i64>,
    pub dry_run: i64,
    pub applied: i64,
}

impl JudgedPair {
    /// The name of the pair.
    pub open spec fn name(self) -> (Seq<char>, Seq<char>) {
        canonical(self.case_a@, self.case_b@)
    }

    /// The pair as it is shown.
    pub open spec fn shown(self) -> Seq<char> {
        self.case_a@ + "<->"@ + self.case_b@
    }
}

/// The pair is in the list.
pub open spec fn in_list(
    list: Seq<(&'static str, &'static str)>,
    pair: (Seq<char>, Seq<char>),
) -> bool {
    exists|i: int| 0 <= i < list.len() && ((#[trigger] list[i]).0@, list[i].1@) == pair
}

/// The pair was shown to the judge.
pub open spec fn is_seen(pair: (Seq<char>, Seq<char>)) -> bool {
    in_list(SEEN_PAIRS@, pair)
}

/// The relation that a case lists last with the other case of the pair.
pub open spec fn last_relation(
    id: Seq<char>,
    relations: Seq<ConsolidationRelation>,
    pair: (Seq<char>, Seq<char>),
) -> Option<Seq<char>>
    decreases relations.len(),
{
    if relations.len() == 0 {
        None
    } else if canonical(id, relations.last().with_case@) == pair {
        Some(relations.last().relation@)
    } else {
        last_relation(id, relations.drop_last(), pair)
    }
}

/// What the cases say of the pair; the last word counts.
pub open spec fn annotation(
    cases: Seq<CorpusCase>,
    pair: (Seq<char>, Seq<char>),
) -> Option<Seq<char>>
    decreases cases.len(),
{
    if cases.len() == 0 {
        None
    } else {
        match last_relation(
            cases.last().id@,
            cases.last().truth.consolidation_relations@,
            pair,
        ) {
            Some(relation) => Some(relation),
            None => annotation(cases.drop_last(), pair),
        }
    }
}

/// One of the rows is to give way to the other.
pub open spec fn merges(relation: Seq<char>) -> bool {
    relation == "duplicate"@ || relation == "supersede"@
}

/// What is wrong with a judgement: rows that must both stay were merged, a
/// duplicate was kept, or a contradiction was not seen.
pub open spec fn misjudged(
    expected: Seq<char>,
    judged: Seq<char>,
    trap: bool,
) -> Option<Seq<char>> {
    if (expected == "contradiction"@ || expected == "false_neighbor"@) && merges(judged) {
        Some(
            "gate "@ + (if trap {
                "④/①"@
            } else {
                "①"@
            }) + ": expected "@ + expected + " but judged "@ + judged
                + " (soft-deletes useful memory)"@,
        )
    } else if expected == "duplicate"@ && !merges(judged) {
        Some("gate ②: clear duplicate judged "@ + judged + " (must merge)"@)
    } else if expected == "contradiction"@ && judged != "contradiction"@ {
        Some("gate ③: contradiction judged "@ + judged)
    } else {
        None
    }
}

/// The fault of a pair that is audited as more than a dry run.
pub open spec fn audit_fault(pair: JudgedPair) -> Option<Seq<char>> {
    if pair.dry_run == 1 && pair.applied == 0 {
        None
    } else {
        Some(
            "audit "@ + pair.shown() + ": dry_run/applied must be 1/0, got "@ + text::integer_text(
                pair.dry_run as int,
            ) + "/"@ + text::integer_text(pair.applied as int),
        )
    }
}

/// The fault of a pair that was judged wrongly. Nothing is held against a pair
/// of which the cases say nothing, that the judge was shown, or on which it
/// failed.
pub open spec fn judge_fault(cases: Seq<CorpusCase>, pair: JudgedPair) -> Option<Seq<char>> {
    match annotation(cases, pair.name()) {
        Some(expected) => if pair.relation@ == "error"@ || is_seen(pair.name()) {
            None
        } else {
            match misjudged(expected, pair.relation@, in_list(TARGET_TRAPS@, pair.name())) {
                Some(v) => Some(
                    "HELD-OUT "@ + pair.shown() + ": "@ + v + " [L2="@ + pair.distance@ + "]"@,
                ),
                None => None,
            }
        },
        None => None,
    }
}

/// What is said of a pair of which the cases say something, that the judge was
/// not shown, and on which it failed.
pub open spec fn unjudged(
    cases: Seq<CorpusCase>,
) -> spec_fn(JudgedPair) -> Option<Seq<char>> {
    |pair: JudgedPair|
        match annotation(cases, pair.name()) {
            Some(expected) => if pair.relation@ == "error"@ && !is_seen(pair.name()) {
                Some(pair.shown() + " (expected "@ + expected + ") — judge error"@)
            } else {
                None
            },
            None => None,
        }
}

/// The fault, if there is one.
pub open spec fn as_list(fault: Option<Seq<char>>) -> Seq<Seq<char>> {
    match fault {
        Some(m) => seq![m],
        None => Seq::empty(),
    }
}

/// The faults of the pairs, one pair after another.
pub open spec fn pair_faults(cases: Seq<CorpusCase>, pairs: Seq<JudgedPair>) -> Seq<Seq<char>>
    decreases pairs.len(),
{
    if pairs.len() == 0 {
        Seq::empty()
    } else {
        pair_faults(cases, pairs.drop_last()) + as_list(audit_fault(pairs.last())) + as_list(
            judge_fault(cases, pairs.last()),
        )
    }
}

/// The faults of a dry run that left rows replaced or contradictions recorded.
pub open spec fn change_faults(replaced: i64, contradictions: i64) -> Seq<Seq<char>> {
    let rows = "dry-run set superseded_by on "@ + text::integer_text(replaced as int)
        + " row(s) — must be 0"@;
    let edges = "dry-run wrote "@ + text::integer_text(contradictions as int)
        + " log_contradiction row(s) — must be 0"@;
    as_list(
        if replaced != 0 {
            Some(rows)
        } else {
            None
        },
    ) + as_list(
        if contradictions != 0 {
            Some(edges)
        } else {
            None
        },
    )
}

/// How a dry run over related cases fared.
#[derive(Debug, Clone, Default)]
pub struct AuditReport {
    pub failures: Vec<String>,
    /// Pairs on which the judge failed: neither good nor bad.
    pub not_evaluated: Vec<String>,
}

fn lists_pair(list: &[(&'static str, &'static str)], pair: &(String, String)) -> (r: bool)
    ensures
        r == in_list(list@, (pair.0@, pair.1@)),
{
    let mut i: usize = 0;
    while i < list.len()
        invariant
            i <= list@.len(),
            forall|j: int|
                0 <= j < i ==> ((#[trigger] list@[j]).0@, list@[j].1@) != (pair.0@, pair.1@),
        decreases list@.len() - i,
    {
        if text::same(list[i].0, pair.0.as_str()) && text::same(list[i].1, pair.1.as_str()) {
            return true;
        }
        i += 1;
    }
    false
}

fn find_relation<'a>(
    id: &str,
    relations: &'a Vec<ConsolidationRelation>,
    pair: &(String, String),
) -> (r: Option<&'a str>)
    ensures
        text::opt_str_view(r) == last_relation(id@, relations@, (pair.0@, pair.1@)),
{
    let mut i: usize = relations.len();
    assert(relations@.take(i as int) =~= relations@);
    while i > 0
        invariant
            i <= relations@.len(),
            last_relation(id@, relations@, (pair.0@, pair.1@)) == last_relation(
                id@,
                relations@.take(i as int),
                (pair.0@, pair.1@),
            ),
        decreases i,
    {
        assert(relations@.take(i as int).drop_last() =~= relations@.take(i - 1));
        i -= 1;
        let named = canon_ids(id, relations[i].with_case.as_str());
        if text::same(named.0.as_str(), pair.0.as_str()) && text::same(
            named.1.as_str(),
            pair.1.as_str(),
        ) {
            return Some(relations[i].relation.as_str());
        }
    }
    None
}

/// Finds what the cases say of a pair; the last word counts.
pub fn annotated_relation<'a>(cases: &'a Vec<CorpusCase>, a: &str, b: &str) -> (r: Option<&'a str>)
    ensures
        text::opt_str_view(r) == annotation(cases@, canonical(a@, b@)),
{
    let pair = canon_ids(a, b);
    let mut i: usize = cases.len();
    assert(cases@.take(i as int) =~= cases@);
    while i > 0
        invariant
            i <= cases@.len(),
            (pair.0@, pair.1@) == canonical(a@, b@),
            annotation(cases@, canonical(a@, b@)) == annotation(
                cases@.take(i as int),
                canonical(a@, b@),
            ),
        decreases i,
    {
        assert(cases@.take(i as int).drop_last() =~= cases@.take(i - 1));
        i -= 1;
        let c = &cases[i];
        let relation = find_relation(c.id.as_str(), &c.truth.consolidation_relations, &pair);
        if relation.is_some() {
            return relation;
        }
    }
    None
}

fn is_merge(relation: &str) -> (r: bool)
    ensures
        r == merges(relation@),
{
    text::same(relation, "duplicate") || text::same(relation, "supersede")
}

fn find_misjudgement(expected: &str, judged: &str, trap: bool) -> (r: Option<String>)
    ensures
        text::opt_view(r) == misjudged(expected@, judged@, trap),
{
    let contradicts = text::same(expected, "contradiction");
    if (contradicts || text::same(expected, "false_neighbor")) && is_merge(judged) {
        let mark = if trap {
            "④/①"
        } else {
            "①"
        };
        Some(
            "gate ".to_owned().concat(mark).concat(": expected ").concat(expected).concat(
                " but judged ",
            ).concat(judged).concat(" (soft-deletes useful memory)"),
        )
    } else if text::same(expected, "duplicate") && !is_merge(judged) {
        Some("gate ②: clear duplicate judged ".to_owned().concat(judged).concat(" (must merge)"))
    } else if contradicts && !text::same(judged, "contradiction") {
        Some("gate ③: contradiction judged ".to_owned().concat(judged))
    } else {
        None
    }
}

fn show_pair(pair: &JudgedPair) -> (r: String)
    ensures
        r@ == pair.shown(),
{
    pair.case_a.clone().concat("<->").concat(pair.case_b.as_str())
}

fn check_audited(pair: &JudgedPair) -> (r: Option<String>)
    ensures
        text::opt_view(r) == audit_fault(*pair),
{
    if pair.dry_run == 1 && pair.applied == 0 {
        None
    } else {
        Some(
            "audit ".to_owned().concat(show_pair(pair).as_str()).concat(
                ": dry_run/applied must be 1/0, got ",
            ).concat(text::i64_text(pair.dry_run).as_str()).concat("/").concat(
                text::i64_text(pair.applied).as_str(),
            ),
        )
    }
}

/// Holds one judgement against what the cases say of the pair: what is wrong
/// with it, and what is to be said where the judge failed.
fn check_judged(cases: &Vec<CorpusCase>, pair: &JudgedPair) -> (r: (
    Option<String>,
    Option<String>,
))
    ensures
        text::opt_view(r.0) == judge_fault(cases@, *pair),
        text::opt_view(r.1) == unjudged(cases@)(*pair),
{
    let name = canon_ids(pair.case_a.as_str(), pair.case_b.as_str());
    let seen_pairs = SEEN_PAIRS;
    let traps = TARGET_TRAPS;
    let seen = lists_pair(seen_pairs.as_slice(), &name);
    match annotated_relation(cases, pair.case_a.as_str(), pair.case_b.as_str()) {
        None => (None, None),
        Some(expected) => {
            if seen {
                (None, None)
            } else if text::same(pair.relation.as_str(), "error") {
                let note = show_pair(pair).concat(" (expected ").concat(expected).concat(
                    ") — judge error",
                );
                (None, Some(note))
            } else {
                let trap = lists_pair(traps.as_slice(), &name);
                match find_misjudgement(expected, pair.relation.as_str(), trap) {
                    Some(v) => {
                        let fault = "HELD-OUT ".to_owned().concat(show_pair(pair).as_str()).concat(
                            ": ",
                        ).concat(v.as_str()).concat(" [L2=").concat(
                            pair.distance.as_str(),
                        ).concat("]");
                        (Some(fault), None)
                    },
                    None => (None, None),
                }
            }
        },
    }
}

fn add_fault(out: &mut Vec<String>, fault: Option<String>)
    ensures
        text::views(final(out)@) == text::views(old(out)@) + as_list(text::opt_view(fault)),
{
    let ghost before = out@;
    if let Some(m) = fault {
        out.push(m);
        assert(text::views(out@) =~= text::views(before).push(m@));
    }
    assert(text::views(out@) =~= text::views(before) + as_list(text::opt_view(fault)));
}

/// Holds the judgements of a dry run over related cases against what the cases
/// say of each other. `replaced` rows and `contradictions` are what the run left
/// behind, which is to be nothing.
pub fn check_audit(
    replaced: i64,
    contradictions: i64,
    pairs: &Vec<JudgedPair>,
    cases: &Vec<CorpusCase>,
) -> (r: AuditReport)
    ensures
        text::views(r.failures@) == change_faults(replaced, contradictions) + pair_faults(
            cases@,
            pairs@,
        ),
        text::views(r.not_evaluated@) == corpus::found(pairs@, unjudged(cases@)),
{
    let mut failures: Vec<String> = Vec::new();
    let mut not_evaluated: Vec<String> = Vec::new();
    let rows = if replaced != 0 {
        Some(
            "dry-run set superseded_by on ".to_owned().concat(
                text::i64_text(replaced).as_str(),
            ).concat(" row(s) — must be 0"),
        )
    } else {
        None
    };
    let edges = if contradictions != 0 {
        Some(
            "dry-run wrote ".to_owned().concat(text::i64_text(contradictions).as_str()).concat(
                " log_contradiction row(s) — must be 0",
            ),
        )
    } else {
        None
    };
    assert(text::views(failures@) =~= Seq::empty());
    add_fault(&mut failures, rows);
    add_fault(&mut failures, edges);
    let ghost changes = change_faults(replaced, contradictions);
    assert(text::views(failures@) =~= changes);
    let ghost note = unjudged(cases@);
    let mut i: usize = 0;
    assert(pairs@.take(0) =~= Seq::empty());
    assert(text::views(failures@) =~= changes + pair_faults(cases@, pairs@.take(0)));
    assert(text::views(not_evaluated@) =~= corpus::found(pairs@.take(0), note));
    while i < pairs.len()
        invariant
            i <= pairs@.len(),
            note == unjudged(cases@),
            text::views(failures@) == changes + pair_faults(cases@, pairs@.take(i as int)),
            text::views(not_evaluated@) == corpus::found(pairs@.take(i as int), note),
        decreases pairs@.len() - i,
    {
        let ghost noted = not_evaluated@;
        assert(pairs@.take(i + 1).drop_last() =~= pairs@.take(i as int));
        add_fault(&mut failures, check_audited(&pairs[i]));
        let (fault, failed) = check_judged(cases, &pairs[i]);
        add_fault(&mut failures, fault);
        if let Some(m) = failed {
            not_evaluated.push(m);
            assert(text::views(not_evaluated@) =~= text::views(noted).push(m@));
        }
        i += 1;
        assert(text::views(failures@) =~= changes + pair_faults(cases@, pairs@.take(i as int)));
    }
    assert(pairs@.take(i as int) =~= pairs@);
    AuditReport { failures, not_evaluated }
}

/// A number that may be missing, as `{:?}` shows it.
pub open spec fn debug_number(n: Option<i64>) -> Seq<char> {
    match n {
        Some(n) => "Some("@ + text::integer_text(n as int) + ")"@,
        None => "None"@,
    }
}

/// What is said of a judgement that differs from what is expected in the label
/// alone, or that is watched for its direction. None of it is a fault.
pub open spec fn label_remark(expected: Seq<char>, pair: JudgedPair) -> Option<Seq<char>> {
    let judged = pair.relation@;
    let differs = "advisory "@ + pair.shown() + ": expected "@ + expected + ", judged "@ + judged;
    if expected == "supersede"@ && judged == "duplicate"@ {
        Some(
            "WATCHED "@ + pair.shown()
                + ": supersede mislabelled duplicate (still merges, loses direction — prompt-fix signal)"@,
        )
    } else if expected == "supersede"@ && judged == "supersede"@ {
        Some(
            "watched "@ + pair.shown() + ": supersede ✓ superseded_id="@ + debug_number(
                pair.superseded_id,
            ) + " (reconcile vs older-by-ts)"@,
        )
    } else if expected == "duplicate"@ && judged == "supersede"@ {
        Some(differs + " (both merge — label only)"@)
    } else if (expected == "complement"@ && judged == "no_action"@) || (expected == "no_action"@
        && judged == "complement"@) {
        Some(differs + " (both leave-live — label only)"@)
    } else {
        None
    }
}

fn show_number(n: Option<i64>) -> (r: String)
    ensures
        r@ == debug_number(n),
{
    match n {
        Some(n) => "Some(".to_owned().concat(text::i64_text(n).as_str()).concat(")"),
        None => "None".to_owned(),
    }
}

/// Says where a judgement differs from what is expected in the label alone, or
/// is to be watched for its direction.
pub fn label_note(expected: &str, pair: &JudgedPair) -> (r: Option<String>)
    ensures
        text::opt_view(r) == label_remark(expected@, *pair),
{
    let judged = pair.relation.as_str();
    let shown = show_pair(pair);
    let differs = "advisory ".to_owned().concat(shown.as_str()).concat(": expected ").concat(
        expected,
    ).concat(", judged ").concat(judged);
    let direction = text::same(expected, "supersede");
    if direction && text::same(judged, "duplicate") {
        Some(
            "WATCHED ".to_owned().concat(shown.as_str()).concat(
                ": supersede mislabelled duplicate (still merges, loses direction — prompt-fix signal)",
            ),
        )
    } else if direction && text::same(judged, "supersede") {
        Some(
            "watched ".to_owned().concat(shown.as_str()).concat(
                ": supersede ✓ superseded_id=",
            ).concat(show_number(pair.superseded_id).as_str()).concat(
                " (reconcile vs older-by-ts)",
            ),
        )
    } else if text::same(expected, "duplicate") && text::same(judged, "supersede") {
        Some(differs.concat(" (both merge — label only)"))
    } else if (text::same(expected, "complement") && text::same(judged, "no_action")) || (
    text::same(expected, "no_action") && text::same(judged, "complement")) {
        Some(differs.concat(" (both leave-live — label only)"))
    } else {
        None
    }
}

// ---------------------------------------------------------------------------
// What the judge is held to

/// A pair that was not shown to the judge, and whose rows contradict each other
/// or only seem close, fails whenever it is merged.
pub proof fn useful_rows_are_not_merged(cases: Seq<CorpusCase>, pair: JudgedPair)
    requires
        annotation(cases, pair.name()) == Some("contradiction"@) || annotation(cases, pair.name())
            == Some("false_neighbor"@),
        !is_seen(pair.name()),
        merges(pair.relation@),
    ensures
        judge_fault(cases, pair) is Some,
{
    relations_differ();
}

/// A duplicate that was not shown to the judge and that the judge did judge
/// fails exactly if it is not merged.
pub proof fn duplicates_are_merged(cases: Seq<CorpusCase>, pair: JudgedPair)
    requires
        annotation(cases, pair.name()) == Some("duplicate"@),
        !is_seen(pair.name()),
        pair.relation@ != "error"@,
    ensures
        judge_fault(cases, pair) is Some <==> !merges(pair.relation@),
{
    relations_differ();
}

/// A contradiction that was not shown to the judge and that the judge did judge
/// passes only as a contradiction.
pub proof fn contradictions_are_seen(cases: Seq<CorpusCase>, pair: JudgedPair)
    requires
        annotation(cases, pair.name()) == Some("contradiction"@),
        !is_seen(pair.name()),
        pair.relation@ != "error"@,
    ensures
        judge_fault(cases, pair) is None <==> pair.relation@ == "contradiction"@,
{
    relations_differ();
}

/// A pair on which the judge failed is never counted as judged rightly: where
/// the cases say something of it and the judge was not shown it, it is listed as
/// not evaluated.
pub proof fn failed_judgement_is_no_pass(cases: Seq<CorpusCase>, pair: JudgedPair)
    requires
        annotation(cases, pair.name()) is Some,
        !is_seen(pair.name()),
        pair.relation@ == "error"@,
    ensures
        unjudged(cases)(pair) is Some,
        judge_fault(cases, pair) is None,
{
}

/// Whether a merge is called a duplicate or a replacement is a label only: the
/// one is wrong exactly if the other is.
pub proof fn merge_label_is_advisory(expected: Seq<char>, trap: bool)
    ensures
        misjudged(expected, "duplicate"@, trap) is Some <==> misjudged(
            expected,
            "supersede"@,
            trap,
        ) is Some,
{
    relations_differ();
}

proof fn relations_differ()
    ensures
        "duplicate"@ != "error"@,
        "supersede"@ != "error"@,
        "duplicate"@ != "contradiction"@,
        "supersede"@ != "contradiction"@,
        "contradiction"@ != "error"@,
        "false_neighbor"@ != "duplicate"@,
        "false_neighbor"@ != "contradiction"@,
{
    reveal_strlit("duplicate");
    reveal_strlit("supersede");
    reveal_strlit("contradiction");
    reveal_strlit("false_neighbor");
    reveal_strlit("error");
    assert("duplicate"@.len() == 9 && "supersede"@.len() == 9 && "contradiction"@.len() == 13);
    assert("false_neighbor"@.len() == 14 && "error"@.len() == 5);
}

// ---------------------------------------------------------------------------
// Laws of searches

/// A search asks for as many hits as the case names, and for three where it names none.
pub proof fn hits_asked_for(limit: u64)
    requires
        limit <= usize::MAX,
    ensures
        asked_hits(limit) == (if limit == 0 {
            3int
        } else {
            limit as int
        }),
{
}

/// A group is met where one of its words stands in one of the hits, in any case.
pub proof fn groups_are_met_by_some_hit(
    hits: Seq<Seq<char>>,
    group: Seq<Seq<char>>,
    i: int,
    j: int,
)
    requires
        0 <= i < hits.len(),
        0 <= j < group.len(),
        text::has(text::lowercase(hits[i]), text::lowercase(group[j])),
    ensures
        group_is_hit(hits, group),
{
    assert(corpus::ci_has(hits[i], group[j]));
    assert(corpus::any_has(hits[i], group));
}

/// What is wrong with a search is told in full, with the case and the query.
pub proof fn search_faults_are_told(
    case_id: Seq<char>,
    es: ExpectedSearch,
    hits: Seq<Seq<char>>,
    i: int,
)
    requires
        0 <= i < search_faults(es, hits).len(),
    ensures
        layer_c(case_id, es, hits) is Err,
        text::has(layer_c(case_id, es, hits)->Err_0, search_faults(es, hits)[i]),
        text::has(layer_c(case_id, es, hits)->Err_0, case_id),
{
    let faults = search_faults(es, hits);
    text::each_part_is_in_the_whole(faults, "; "@, i);
    let whole = text::joined(faults, "; "@);
    let rest = "] query="@ + text::debug_text(es.query@) + ": "@ + whole;
    let told = layer_c(case_id, es, hits)->Err_0;
    assert(told =~= "["@ + case_id + rest);
    text::parts_stand_in_the_whole("["@, case_id, rest);
    let front = "["@ + case_id + "] query="@ + text::debug_text(es.query@) + ": "@;
    assert(told =~= front + whole + Seq::empty());
    text::has_is_kept(front, whole, Seq::empty(), faults[i]);
}

// ---------------------------------------------------------------------------
// Laws of pairs and claims

/// The name of a pair holds its two cases, and nothing else.
pub proof fn names_hold_both_cases(a: Seq<char>, b: Seq<char>)
    ensures
        canonical(a, b) == (a, b) || canonical(a, b) == (b, a),
        not_after(canonical(a, b).0, canonical(a, b).1),
{
    order_is_total(a, b);
}

/// Two texts are ordered by the first character in which they differ, and where one goes
/// on with the other, the shorter comes first.
pub proof fn order_is_by_first_difference(p: Seq<char>, a: Seq<char>, b: Seq<char>)
    ensures
        not_after(p + a, p + b) == not_after(a, b),
        a.len() > 0 && b.len() > 0 && a[0] < b[0] ==> not_after(p + a, p + b) && !not_after(
            p + b,
            p + a,
        ),
        not_after(p, p + b),
        b.len() > 0 ==> !not_after(p + b, p),
    decreases p.len(),
{
    if p.len() == 0 {
        assert(p + a =~= a);
        assert(p + b =~= b);
    } else {
        let q = p.drop_first();
        assert((p + a).drop_first() =~= q + a);
        assert((p + b).drop_first() =~= q + b);
        order_is_by_first_difference(q, a, b);
    }
}

proof fn no_free_row_means_none(
    rows: Seq<(i64, String, Option<String>)>,
    taken: Seq<(int, i64)>,
    groups: Seq<Seq<Seq<char>>>,
)
    ensures
        first_free(rows, taken, groups) is None ==> forall|k: int|
            0 <= k < rows.len() && row_fits(#[trigger] rows[k], groups) ==> is_claimed(
                taken,
                rows[k].0,
            ),
    decreases rows.len(),
{
    if rows.len() > 0 && first_free(rows, taken, groups) is None {
        let rest = rows.drop_first();
        no_free_row_means_none(rest, taken, groups);
        assert forall|k: int| 0 <= k < rows.len() && row_fits(
            #[trigger] rows[k],
            groups,
        ) implies is_claimed(taken, rows[k].0) by {
            if k > 0 {
                assert(rest[k - 1] == rows[k]);
            }
        }
    }
}

proof fn claims_are_complete(
    order: Seq<int>,
    cases: Seq<CorpusCase>,
    rows: Seq<(i64, String, Option<String>)>,
    i: int,
)
    requires
        0 <= i < order.len(),
        corpus::locators(cases[order[i]].truth).len() > 0,
    ensures
        ({
            let all = claims_in_order(order, cases, rows);
            ||| exists|c: int| 0 <= c < all.len() && (#[trigger] all[c]).0 == order[i]
            ||| forall|k: int|
                0 <= k < rows.len() && row_fits(
                    #[trigger] rows[k],
                    corpus::locators(cases[order[i]].truth),
                ) ==> is_claimed(all, rows[k].0)
        }),
    decreases order.len(),
{
    let less = order.drop_last();
    let before = claims_in_order(less, cases, rows);
    let all = claims_in_order(order, cases, rows);
    let groups = corpus::locators(cases[order[i]].truth);
    assert(forall|c: int| 0 <= c < before.len() ==> all[c] == before[c]);
    if i < order.len() - 1 {
        assert(less[i] == order[i]);
        claims_are_complete(less, cases, rows, i);
        if exists|c: int| 0 <= c < before.len() && (#[trigger] before[c]).0 == order[i] {
            let c = choose|c: int| 0 <= c < before.len() && (#[trigger] before[c]).0 == order[i];
            assert(all[c].0 == order[i]);
        } else {
            assert forall|k: int| 0 <= k < rows.len() && row_fits(
                #[trigger] rows[k],
                groups,
            ) implies is_claimed(all, rows[k].0) by {
                assert(is_claimed(before, rows[k].0));
                let c = choose|c: int|
                    0 <= c < before.len() && (#[trigger] before[c]).1 == rows[k].0;
                assert(all[c].1 == rows[k].0);
            }
        }
    } else {
        no_free_row_means_none(rows, before, groups);
        if let Some(id) = first_free(rows, before, groups) {
            assert(all[before.len() as int].0 == order[i]);
        }
    }
}

/// A case that can be found claims a row, unless every row that meets its groups stands
/// for another case.
pub proof fn every_case_that_fits_claims(
    cases: Seq<CorpusCase>,
    rows: Seq<(i64, String, Option<String>)>,
    n: int,
)
    requires
        0 <= n < cases.len(),
        corpus::locators(cases[n].truth).len() > 0,
    ensures
        ({
            let all = claims(cases, rows);
            ||| exists|c: int| 0 <= c < all.len() && (#[trigger] all[c]).0 == n
            ||| forall|k: int|
                0 <= k < rows.len() && row_fits(
                    #[trigger] rows[k],
                    corpus::locators(cases[n].truth),
                ) ==> is_claimed(all, rows[k].0)
        }),
{
    let counts = group_counts(cases);
    let order = by_count(counts);
    narrow_cases_claim_first(counts);
    assert(order.contains(n));
    let i = choose|i: int| 0 <= i < order.len() && order[i] == n;
    claims_are_complete(order, cases, rows, i);
}

// ---------------------------------------------------------------------------
// Laws of what is held against a run

/// Of two lists of cases the later has the last word on a pair, and so it is with the
/// relations of one case.
pub proof fn last_word_counts(
    a: Seq<CorpusCase>,
    b: Seq<CorpusCase>,
    id: Seq<char>,
    r: Seq<ConsolidationRelation>,
    s: Seq<ConsolidationRelation>,
    pair: (Seq<char>, Seq<char>),
)
    ensures
        annotation(a + b, pair) == (match annotation(b, pair) {
            Some(x) => Some(x),
            None => annotation(a, pair),
        }),
        last_relation(id, r + s, pair) == (match last_relation(id, s, pair) {
            Some(x) => Some(x),
            None => last_relation(id, r, pair),
        }),
    decreases b.len() + s.len(),
{
    if b.len() == 0 {
        assert(a + b =~= a);
    } else {
        assert((a + b).drop_last() =~= a + b.drop_last());
        last_word_counts(a, b.drop_last(), id, r, s, pair);
    }
    if s.len() == 0 {
        assert(r + s =~= r);
    } else {
        assert((r + s).drop_last() =~= r + s.drop_last());
        last_word_counts(a, b, id, r, s.drop_last(), pair);
    }
}

/// A case says of the pair with another case what its relation with it says.
pub proof fn a_relation_is_said_of_its_pair(
    id: Seq<char>,
    relation: ConsolidationRelation,
    pair: (Seq<char>, Seq<char>),
)
    ensures
        last_relation(id, seq![relation], pair) == (if canonical(id, relation.with_case@) == pair {
            Some(relation.relation@)
        } else {
            None
        }),
{
    let one = seq![relation];
    assert(one.drop_last() =~= Seq::empty());
    assert(last_relation(id, one.drop_last(), pair) is None);
}

/// A judgement is wrong in three ways and no other: two rows that contradict each other
/// or only seem close were merged, a duplicate was not, or a contradiction was called
/// something else.
pub proof fn judgements_are_wrong_in_three_ways(
    expected: Seq<char>,
    judged: Seq<char>,
    trap: bool,
)
    ensures
        ({
            let merged = judged == "duplicate"@ || judged == "supersede"@;
            misjudged(expected, judged, trap) is Some <==> {
                ||| merged && (expected == "contradiction"@ || expected == "false_neighbor"@)
                ||| !merged && expected == "duplicate"@
                ||| judged != "contradiction"@ && expected == "contradiction"@
            }
        }),
{
    relations_differ();
}

/// A run has no faults exactly where every pair was audited as a dry run that changed
/// nothing and was judged rightly, and no row was replaced and no contradiction recorded.
pub proof fn clean_runs_judge_rightly_and_change_nothing(
    cases: Seq<CorpusCase>,
    pairs: Seq<JudgedPair>,
    replaced: i64,
    contradictions: i64,
)
    ensures
        pair_faults(cases, pairs).len() == 0 <==> forall|i: int|
            0 <= i < pairs.len() ==> (#[trigger] pairs[i]).dry_run == 1 && pairs[i].applied == 0
                && judge_fault(cases, pairs[i]) is None,
        change_faults(replaced, contradictions).len() == 0 <==> replaced == 0 && contradictions
            == 0,
    decreases pairs.len(),
{
    if pairs.len() > 0 {
        let init = pairs.drop_last();
        let last = pairs.len() - 1;
        clean_runs_judge_rightly_and_change_nothing(cases, init, replaced, contradictions);
        assert(pairs[last] == pairs.last());
        let before = pair_faults(cases, init);
        let a = as_list(audit_fault(pairs.last()));
        let j = as_list(judge_fault(cases, pairs.last()));
        assert(pair_faults(cases, pairs) == before + a + j);
        if pair_faults(cases, pairs).len() == 0 {
            assert forall|i: int| 0 <= i < pairs.len() implies (#[trigger] pairs[i]).dry_run == 1
                && pairs[i].applied == 0 && judge_fault(cases, pairs[i]) is None by {
                if i < last {
                    assert(init[i] == pairs[i]);
                }
            }
        } else if forall|i: int|
            0 <= i < pairs.len() ==> (#[trigger] pairs[i]).dry_run == 1 && pairs[i].applied == 0
                && judge_fault(cases, pairs[i]) is None {
            assert forall|i: int| 0 <= i < init.len() implies (#[trigger] init[i]).dry_run == 1
                && init[i].applied == 0 && judge_fault(cases, init[i]) is None by {
                assert(init[i] == pairs[i]);
            }
            assert(pairs[last].dry_run == 1);
        }
    }
}

/// The faults of the pairs stand in the order of the pairs, each pair by itself.
pub proof fn pairs_are_held_to_account_in_order(
    cases: Seq<CorpusCase>,
    a: Seq<JudgedPair>,
    b: Seq<JudgedPair>,
)
    ensures
        pair_faults(cases, a + b) == pair_faults(cases, a) + pair_faults(cases, b),
    decreases b.len(),
{
    if b.len() == 0 {
        assert(a + b =~= a);
    } else {
        assert((a + b).drop_last() =~= a + b.drop_last());
        pairs_are_held_to_account_in_order(cases, a, b.drop_last());
    }
    assert(pair_faults(cases, a + b) =~= pair_faults(cases, a) + pair_faults(cases, b));
}

/// A judgement is remarked on where it is a replacement that is expected and a merge, or
/// where only the label differs.
pub proof fn labels_alone_are_remarked_on(expected: Seq<char>, pair: JudgedPair)
    ensures
        ({
            let judged = pair.relation@;
            label_remark(expected, pair) is Some <==> {
                ||| expected == "supersede"@ && (judged == "duplicate"@ || judged == "supersede"@)
                ||| expected == "duplicate"@ && judged == "supersede"@
                ||| expected == "complement"@ && judged == "no_action"@
                ||| expected == "no_action"@ && judged == "complement"@
            }
        }),
{
}

} // verus!
