//! The fixtures: one agent, one user turn and one assertion each, and the rows
//! that the recall fixture is seeded with.
use crate::assertions;
use crate::assertions::AssertionOutcome;
use crate::assertions::MemoryRow;
use crate::assertions::RunArtifacts;
use crate::assertions::TurnResult;
use crate::text;
use vstd::prelude::*;
use vstd::string::*;

verus! {

/// Which assertion a fixture is held to.
#[derive(Debug, Clone, Copy, PartialEq, Eq, Structural)]
pub enum AssertionKind {
    /// The plan tool must be called.
    CallsPlanTool,
    /// The plan tool must not be called.
    AsksBeforePlanning,
    /// The report must be sent, and nothing modified.
    SendsReport,
    /// The decision must be logged and stored.
    LogsDecision,
    /// Nothing must be logged.
    KeepsSilent,
    /// A seeded fact must be looked up and used.
    RecallsFact,
}

/// A fixture.
#[derive(Debug, Clone, Copy)]
pub struct Fixture {
    pub id: &'static str,
    pub description: &'static str,
    /// The directory that holds the team's `team.json`.
    pub team_dir: &'static str,
    /// The agent that the user's message goes to.
    pub user_correspondent_id: &'static str,
    pub user_turn: &'static str,
    pub assertion: AssertionKind,
    /// Whether the agent's log store is seeded before the run.
    pub seeds_memory: bool,
}

/// The fixtures' texts, in the order in which they are run: id, description,
/// directory of the team, the agent addressed, and the user's turn.
pub const FIXTURE_TEXTS: [(
    &'static str,
    &'static str,
    &'static str,
    &'static str,
    &'static str,
); 6] = [
    (
        "01-pm-clear",
        "PM receives a clear request → must emit a well-formed <propose_plan>",
        "01-pm-clear",
        "agent_pm",
        "We need to add audit logging to the Django admin panel. The specifics are all decided: log every create / edit / delete on all models registered in the admin; store field-level diffs (not full before/after snapshots); use the django-auditlog package (do not build a custom solution); surface the logs as a new 'Audit Log' page inside the Django admin; no special retention or performance requirements. Outline the implementation plan.",
    ),
    (
        "02-pm-ambiguous",
        "PM receives an ambiguous request → must clarify before proposing",
        "02-pm-ambiguous",
        "agent_pm",
        "Improve the API.",
    ),
    (
        "03-qa-verification",
        "QA receives a verification ask → must report findings, not modify code",
        "03-qa-verification",
        "agent_qa",
        "Please verify the new auth middleware at apps/api/src/middleware/auth.ts. Acceptance criteria: rejects requests without a token (401), rejects expired tokens (401), accepts valid tokens. Don't fix anything you find — just report what you observe.",
    ),
    (
        "F-mem-write",
        "PM decides + is asked to record it for tomorrow — should call log_progress AND the summary must land in memory.db on disk",
        "01-pm-clear",
        "agent_pm",
        "Quick one before I step away: we're going with PostgreSQL for the new notes module — it's read-heavy, ~10k users projected, and we already run a PostgreSQL cluster for unrelated services so the operational cost is near-zero. Acknowledge the decision and record it so when I check back tomorrow you remember exactly what we landed on and why.",
    ),
    (
        "F-mem-trivial-control",
        "PM gets a trivial ack — should NOT call log_progress",
        "01-pm-clear",
        "agent_pm",
        "thanks — talking later",
    ),
    (
        "F-mem-recall",
        "PM is asked about an older decision that sits OUTSIDE the daily-memory prelude's 10-row window — must call memory_search / memory_get and surface a seeded distinctive fact in the reply",
        "01-pm-clear",
        "agent_pm",
        "Picking up the notes-module work again — what database engine did we actually land on for it, and why? I remember we settled this a while back but I don't have my notes handy. Can you check what you logged?",
    ),
];

/// What each fixture is held to, in order.
pub open spec fn assertion_at(i: int) -> AssertionKind {
    if i == 0 {
        AssertionKind::CallsPlanTool
    } else if i == 1 {
        AssertionKind::AsksBeforePlanning
    } else if i == 2 {
        AssertionKind::SendsReport
    } else if i == 3 {
        AssertionKind::LogsDecision
    } else if i == 4 {
        AssertionKind::KeepsSilent
    } else {
        AssertionKind::RecallsFact
    }
}

/// The fixtures, in order. Only the recall fixture is seeded.
pub open spec fn fixture_at(i: int) -> Fixture {
    Fixture {
        id: FIXTURE_TEXTS@[i].0,
        description: FIXTURE_TEXTS@[i].1,
        team_dir: FIXTURE_TEXTS@[i].2,
        user_correspondent_id: FIXTURE_TEXTS@[i].3,
        user_turn: FIXTURE_TEXTS@[i].4,
        assertion: assertion_at(i),
        seeds_memory: assertion_at(i) == AssertionKind::RecallsFact,
    }
}

/// All fixtures, in order.
pub open spec fn all_fixtures() -> Seq<Fixture> {
    Seq::new(6, |i: int| fixture_at(i))
}

/// All fixtures, in the order in which they are run.
pub fn fixtures() -> (r: Vec<Fixture>)
    ensures
        r@ == all_fixtures(),
{
    let texts = FIXTURE_TEXTS;
    let kinds = [
        AssertionKind::CallsPlanTool,
        AssertionKind::AsksBeforePlanning,
        AssertionKind::SendsReport,
        AssertionKind::LogsDecision,
        AssertionKind::KeepsSilent,
        AssertionKind::RecallsFact,
    ];
    let mut out: Vec<Fixture> = Vec::new();
    let mut i: usize = 0;
    while i < 6
        invariant
            i <= 6,
            texts@ == FIXTURE_TEXTS@,
            texts@.len() == 6,
            kinds@.len() == 6,
            forall|j: int| 0 <= j < 6 ==> #[trigger] kinds@[j] == assertion_at(j),
            out@.len() == i,
            forall|j: int| 0 <= j < i ==> #[trigger] out@[j] == fixture_at(j),
        decreases 6 - i,
    {
        out.push(
            Fixture {
                id: texts[i].0,
                description: texts[i].1,
                team_dir: texts[i].2,
                user_correspondent_id: texts[i].3,
                user_turn: texts[i].4,
                assertion: kinds[i],
                seeds_memory: kinds[i] == AssertionKind::RecallsFact,
            },
        );
        i += 1;
    }
    assert(out@ =~= all_fixtures());
    out
}

/// What the assertion says of a turn.
pub open spec fn verdict(
    kind: AssertionKind,
    turn: assertions::TurnView,
    memory_db: Seq<char>,
    rows: Result<Seq<Seq<char>>, Seq<char>>,
) -> assertions::OutcomeView {
    match kind {
        AssertionKind::CallsPlanTool => assertions::plan_call_outcome(turn),
        AssertionKind::AsksBeforePlanning => assertions::no_plan_call_outcome(turn),
        AssertionKind::SendsReport => assertions::report_call_outcome(turn),
        AssertionKind::LogsDecision => assertions::logging_outcome(turn, memory_db, rows),
        AssertionKind::KeepsSilent => assertions::silence_outcome(turn),
        AssertionKind::RecallsFact => assertions::recall_outcome(turn),
    }
}

/// Holds a turn to a fixture's assertion. `rows` is what an independent read of
/// the agent's log store gave.
pub fn check_turn(
    kind: AssertionKind,
    turn: &TurnResult,
    artifacts: &RunArtifacts,
    rows: &Result<Vec<MemoryRow>, String>,
) -> (r: AssertionOutcome)
    ensures
        r@ == verdict(
            kind,
            turn@,
            assertions::joined_path(
                assertions::joined_path(
                    assertions::joined_path(artifacts.user_data_dir@, "agents"@),
                    artifacts.agent_id@,
                ),
                "memory.db"@,
            ),
            assertions::rows_view(*rows),
        ),
{
    match kind {
        AssertionKind::CallsPlanTool => assertions::pm_calls_propose_plan_tool(turn, artifacts),
        AssertionKind::AsksBeforePlanning => assertions::pm_does_not_propose_when_ambiguous_tool(
            turn,
            artifacts,
        ),
        AssertionKind::SendsReport => assertions::qa_calls_send_message_no_modifying_tool(
            turn,
            artifacts,
        ),
        AssertionKind::LogsDecision => assertions::pm_logs_progress_after_decision(
            turn,
            artifacts,
            rows,
        ),
        AssertionKind::KeepsSilent => assertions::pm_does_not_log_on_trivial(turn, artifacts),
        AssertionKind::RecallsFact => assertions::pm_recalls_seeded_fact(turn, artifacts),
    }
}

/// The fixtures whose id holds the filter, in order; all without one.
pub open spec fn selected(all: Seq<Fixture>, filter: Option<Seq<char>>) -> Seq<Fixture>
    decreases all.len(),
{
    if all.len() == 0 {
        Seq::empty()
    } else {
        let before = selected(all.drop_last(), filter);
        if filter is None || text::has(all.last().id@, filter->0) {
            before.push(all.last())
        } else {
            before
        }
    }
}

/// Selects the fixtures whose id holds the filter.
pub fn select_fixtures(filter: Option<&str>) -> (r: Vec<Fixture>)
    ensures
        r@ == selected(all_fixtures(), text::opt_str_view(filter)),
{
    let all = fixtures();
    let mut out: Vec<Fixture> = Vec::new();
    let mut i: usize = 0;
    assert(all@.take(0) =~= Seq::empty());
    while i < all.len()
        invariant
            i <= all@.len(),
            all@ == all_fixtures(),
            out@ == selected(all@.take(i as int), text::opt_str_view(filter)),
        decreases all@.len() - i,
    {
        assert(all@.take(i + 1).drop_last() =~= all@.take(i as int));
        let keep = match filter {
            Some(f) => text::contains(all[i].id, f),
            None => true,
        };
        if keep {
            out.push(all[i]);
        }
        i += 1;
    }
    assert(all@.take(i as int) =~= all@);
    out
}

// ---------------------------------------------------------------------------
// The seeded log

/// When the oldest seeded row was logged, in milliseconds: the first moment of
/// 12 April 2026, the day that the row itself names.
pub const SEED_BASE_TS_MS: i64 = 1_775_952_000_000;

/// A day, in milliseconds.
pub const DAY_MS: i64 = 86_400_000;

/// How many of the newest rows an agent is shown unasked.
pub const PRELUDE_ROWS: usize = 10;

/// The seeded rows, the oldest first: summary and detail. The first holds what
/// is to be recalled; the others have nothing to do with it.
pub const SEED_TEXTS: [(&'static str, &'static str); 12] = [
    (
        "Picked PostgreSQL for notes-module DB",
        "We chose PostgreSQL for the notes module on 2026-04-12. Rationale: read-heavy workload (~10k users projected), and we already operate a PostgreSQL cluster at notes-pg-primary.internal.example.com:5432 for unrelated services so operational cost is near-zero. The choice was specifically against MySQL and SQLite — Postgres was picked for its read-replica story. Schema design left to a follow-up RFC. Keywords: notes module, database, Postgres, PostgreSQL.",
    ),
    (
        "Frontend bundler migration to Vite",
        "Migrated the marketing site from webpack to Vite. Build time dropped from 42s to 7s on a clean install. No runtime behavior change.",
    ),
    (
        "Standup notes on auth refresh-token rotation",
        "Decided to rotate refresh tokens server-side on every use. JWT short-lived 5m, refresh 30d, sliding window.",
    ),
    (
        "Closed Linear ticket ENG-411",
        "Fixed the trailing slash in the OAuth redirect URI. Stripe webhooks now deliver cleanly in staging.",
    ),
    (
        "Spike on background job queue",
        "Compared Sidekiq vs. RabbitMQ vs. Postgres-backed worker. Deferred the decision; current scale doesn't justify the dependency yet.",
    ),
    (
        "Deployment rollback runbook draft",
        "Drafted the rollback runbook for prod deploys: tag rollback, smoke, page on regression. Pairs with the existing canary script.",
    ),
    (
        "Pairing notes — Maya on the search refactor",
        "Walked Maya through the search facet pipeline. Indexed her open questions; we'll resume the refactor Monday.",
    ),
    (
        "Customer feedback synthesis — Q2 wave",
        "Read the 23 customer-feedback transcripts from the Q2 cohort. Major theme: onboarding clarity. Filed three follow-up tickets.",
    ),
    (
        "Privacy review for analytics events",
        "Reviewed the analytics-event schema with legal. Two events removed; one PII-redaction rule added on the client side.",
    ),
    (
        "RFC review — mobile push notification grouping",
        "Reviewed the push-notification grouping RFC. Approved as written. Mobile rollout planned for next release.",
    ),
    (
        "Hiring loop — staff platform engineer onsite",
        "Sat in on the platform-engineer onsite. Strong yes from the panel. Offer to be drafted by the recruiter.",
    ),
    (
        "Weekly status compilation",
        "Compiled the weekly status report from the per-team channels. Distribution list updated; report posted to #leadership.",
    ),
];

/// A row to be seeded.
#[derive(Debug, Clone, Copy)]
pub struct SeedRow {
    pub ts: i64,
    pub summary: &'static str,
    pub detail: &'static str,
}

/// The rows to be seeded: a day apart, the oldest first.
pub open spec fn seed_row(i: int) -> SeedRow {
    SeedRow {
        ts: (SEED_BASE_TS_MS + i * DAY_MS) as i64,
        summary: SEED_TEXTS@[i].0,
        detail: SEED_TEXTS@[i].1,
    }
}

/// The rows that the recall fixture is seeded with.
pub fn seed_f_mem_recall() -> (r: Vec<SeedRow>)
    ensures
        r@.len() == 12,
        forall|i: int| 0 <= i < 12 ==> #[trigger] r@[i] == seed_row(i),
{
    let texts = SEED_TEXTS;
    let mut out: Vec<SeedRow> = Vec::new();
    let mut i: usize = 0;
    while i < 12
        invariant
            i <= 12,
            texts@ == SEED_TEXTS@,
            texts@.len() == 12,
            out@.len() == i,
            forall|j: int| 0 <= j < i ==> #[trigger] out@[j] == seed_row(j),
        decreases 12 - i,
    {
        let ts: i64 = SEED_BASE_TS_MS + i as i64 * DAY_MS;
        out.push(SeedRow { ts, summary: texts[i].0, detail: texts[i].1 });
        i += 1;
    }
    out
}

/// The row that is to be recalled is older than all others, and more rows are
/// newer than an agent is shown unasked: only a search can bring it up.
pub proof fn seeded_fact_lies_beyond_prelude()
    ensures
        forall|i: int, j: int|
            0 <= i < j < 12 ==> (#[trigger] seed_row(i)).ts < (#[trigger] seed_row(j)).ts,
        12 - 1 > PRELUDE_ROWS,
{
}

/// The fixtures that are selected are those whose id holds the filter, in order and each by
/// itself; without a filter all are.
pub proof fn filters_select_by_id(a: Seq<Fixture>, b: Seq<Fixture>, filter: Option<Seq<char>>)
    ensures
        selected(a + b, filter) == selected(a, filter) + selected(b, filter),
        a.len() == 1 ==> selected(a, filter) == (if filter is Some && !text::has(
            a[0].id@,
            filter->0,
        ) {
            Seq::empty()
        } else {
            a
        }),
        filter is None ==> selected(b, filter) == b,
    decreases b.len(),
{
    if b.len() == 0 {
        assert(a + b =~= a);
        assert(selected(b, filter) =~= b);
    } else {
        assert((a + b).drop_last() =~= a + b.drop_last());
        filters_select_by_id(a, b.drop_last(), filter);
        assert(b.drop_last().push(b.last()) =~= b);
    }
    assert(selected(a + b, filter) =~= selected(a, filter) + selected(b, filter));
    if a.len() == 1 {
        assert(a.drop_last() =~= Seq::empty());
        assert(selected(a.drop_last(), filter) =~= Seq::empty());
        assert(selected(a, filter) =~= (if filter is Some && !text::has(a[0].id@, filter->0) {
            Seq::empty()
        } else {
            a
        }));
    }
}

/// Each fixture goes by its own id, is held to its own assertion, and only the one that
/// asks for a recall is seeded.
pub proof fn fixtures_are_held_to_their_assertions(i: int)
    requires
        0 <= i < 6,
    ensures
        all_fixtures().len() == 6,
        all_fixtures()[i].id@ == FIXTURE_TEXTS@[i].0@,
        all_fixtures()[i].user_turn@ == FIXTURE_TEXTS@[i].4@,
        all_fixtures()[i].seeds_memory <==> i == 5,
        all_fixtures()[0].assertion == AssertionKind::CallsPlanTool,
        all_fixtures()[1].assertion == AssertionKind::AsksBeforePlanning,
        all_fixtures()[2].assertion == AssertionKind::SendsReport,
        all_fixtures()[3].assertion == AssertionKind::LogsDecision,
        all_fixtures()[4].assertion == AssertionKind::KeepsSilent,
        all_fixtures()[5].assertion == AssertionKind::RecallsFact,
{
}

/// The seeded rows are a day apart, from the day that the first of them names, each with
/// its own text.
pub proof fn seeded_rows_are_a_day_apart(i: int)
    requires
        0 <= i < 12,
    ensures
        seed_row(i).ts == 1_775_952_000_000 + i * 86_400_000,
        seed_row(i).summary@ == SEED_TEXTS@[i].0@,
        seed_row(i).detail@ == SEED_TEXTS@[i].1@,
{
}

/// A fixture passes exactly where what it asks for was done.
pub proof fn fixtures_pass_where_their_ask_was_met(
    turn: assertions::TurnView,
    memory_db: Seq<char>,
    rows: Result<Seq<Seq<char>>, Seq<char>>,
)
    ensures
        ({
            let calls = assertions::calls_in(turn.notifications);
            let says = |kind: AssertionKind| verdict(kind, turn, memory_db, rows).passed;
            &&& says(AssertionKind::CallsPlanTool) <==> assertions::count_of(
                calls,
                "propose_plan"@,
            ) > 0 && assertions::all_planned_tasks(calls) > 0
            &&& says(AssertionKind::AsksBeforePlanning) ==> assertions::count_of(
                calls,
                "propose_plan"@,
            ) == 0
            &&& says(AssertionKind::SendsReport) <==> assertions::modifying_calls(
                turn.notifications,
            ).len() == 0 && assertions::sends_report(calls)
            &&& says(AssertionKind::LogsDecision) <==> assertions::logging_outcome(
                turn,
                memory_db,
                rows,
            ).passed
            &&& says(AssertionKind::KeepsSilent) ==> assertions::count_of(calls, "log_progress"@)
                == 0
            &&& says(AssertionKind::RecallsFact) ==> assertions::count_of(calls, "memory_search"@)
                > 0 || assertions::count_of(calls, "memory_get"@) > 0
        }),
{
    assertions::plan_calls_pass_with_a_task(turn);
    assertions::reports_pass_without_modifying(turn);
    assertions::silence_and_recall_pass(turn);
}

} // verus!
