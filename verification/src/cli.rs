//! The command lines of the two programs, and what the evaluation prints.
use crate::text;
use vstd::prelude::*;
use vstd::string::*;

verus! {

/// What the memory server was asked for.
#[derive(Debug, Clone, PartialEq, Eq)]
pub struct Args {
    pub agent_id: String,
}

/// The agent id that the arguments name, from position `i` on; `so_far` is what
/// was named before.
pub open spec fn agent_args(args: Seq<Seq<char>>, i: int, so_far: Option<Seq<char>>) -> Result<
    Seq<char>,
    Seq<char>,
>
    decreases args.len() - i,
{
    if i >= args.len() {
        match so_far {
            Some(id) => Ok(id),
            None => Err("missing required --agent-id"@),
        }
    } else if args[i] == "--agent-id"@ {
        if i + 1 >= args.len() {
            Err("--agent-id needs a value"@)
        } else {
            agent_args(args, i + 2, Some(args[i + 1]))
        }
    } else {
        Err("unexpected argument: "@ + args[i])
    }
}

/// Reads the memory server's arguments. The last agent id counts.
pub fn parse_args(args: &Vec<String>) -> (r: Result<Args, String>)
    ensures
        match r {
            Ok(a) => agent_args(text::views(args@), 0, None) == Ok::<Seq<char>, Seq<char>>(
                a.agent_id@,
            ),
            Err(e) => agent_args(text::views(args@), 0, None) == Err::<Seq<char>, Seq<char>>(e@),
        },
{
    let ghost all = text::views(args@);
    let mut agent_id: Option<String> = None;
    let mut i: usize = 0;
    while i < args.len()
        invariant
            i <= args.len(),
            all == text::views(args@),
            agent_args(all, 0, None) == agent_args(all, i as int, text::opt_view(agent_id)),
        decreases args@.len() - i,
    {
        assert(all[i as int] == args@[i as int]@);
        if text::same(args[i].as_str(), "--agent-id") {
            if args.len() - i < 2 {
                return Err("--agent-id needs a value".to_owned());
            }
            assert(all[i + 1] == args@[i + 1]@);
            agent_id = Some(args[i + 1].clone());
            i += 2;
        } else {
            return Err("unexpected argument: ".to_owned().concat(args[i].as_str()));
        }
    }
    match agent_id {
        Some(agent_id) => Ok(Args { agent_id }),
        None => Err("missing required --agent-id".to_owned()),
    }
}

// ---------------------------------------------------------------------------
// The evaluation

/// What the evaluation was asked for.
#[derive(Debug, Clone, PartialEq, Eq)]
pub enum EvalCommand {
    /// Show how it is used.
    Help,
    /// Run the fixtures whose id holds the filter, each so often.
    Run { filter: Option<String>, runs: usize },
}

#[verifier::ext_equal]
pub ghost enum EvalView {
    Help,
    Run { filter: Option<Seq<char>>, runs: nat },
}

impl View for EvalCommand {
    type V = EvalView;

    open spec fn view(&self) -> EvalView {
        match *self {
            EvalCommand::Help => EvalView::Help,
            EvalCommand::Run { filter, runs } => EvalView::Run {
                filter: text::opt_view(filter),
                runs: runs as nat,
            },
        }
    }
}

/// What `str::parse::<usize>` says of a text that is no such number.
pub uninterp spec fn usize_error_text(s: Seq<char>) -> Seq<char>;

/// `str::parse::<usize>`: digits with an optional plus sign that write a number
/// within range. Of the error's message only that it is settled by the text is
/// claimed.
#[verifier::external_body]
fn parse_usize(s: &str) -> (r: Result<usize, String>)
    ensures
        match r {
            Ok(n) => text::natural_up_to(s@, usize::MAX as nat) == Some(n as nat),
            Err(e) => text::natural_up_to(s@, usize::MAX as nat) is None && e@ == usize_error_text(
                s@,
            ),
        },
{
    s.parse::<usize>().map_err(|e| e.to_string())
}

/// What the arguments ask for, from position `i` on, given what was asked
/// before.
pub open spec fn eval_args(
    args: Seq<Seq<char>>,
    i: int,
    filter: Option<Seq<char>>,
    runs: nat,
) -> Result<EvalView, Seq<char>>
    decreases args.len() - i,
{
    if i >= args.len() {
        Ok(EvalView::Run { filter, runs })
    } else if args[i] == "--filter"@ || args[i] == "-f"@ {
        if i + 1 >= args.len() {
            Err("--filter needs a value"@)
        } else {
            eval_args(args, i + 2, Some(args[i + 1]), runs)
        }
    } else if args[i] == "--runs"@ || args[i] == "-n"@ {
        if i + 1 >= args.len() {
            Err("--runs needs a value"@)
        } else {
            match text::natural_up_to(args[i + 1], usize::MAX as nat) {
                None => Err("--runs not a positive int: "@ + usize_error_text(args[i + 1])),
                Some(n) => if n == 0 {
                    Err("--runs must be ≥ 1"@)
                } else {
                    eval_args(args, i + 2, filter, n)
                },
            }
        }
    } else if args[i] == "--help"@ || args[i] == "-h"@ {
        Ok(EvalView::Help)
    } else {
        Err("unexpected argument: "@ + args[i])
    }
}

/// Reads the evaluation's arguments.
pub fn parse_eval_args(args: &Vec<String>) -> (r: Result<EvalCommand, String>)
    ensures
        match r {
            Ok(c) => eval_args(text::views(args@), 0, None, 1) == Ok::<EvalView, Seq<char>>(c@),
            Err(e) => eval_args(text::views(args@), 0, None, 1) == Err::<EvalView, Seq<char>>(e@),
        },
{
    let ghost all = text::views(args@);
    let mut filter: Option<String> = None;
    let mut runs: usize = 1;
    let mut i: usize = 0;
    while i < args.len()
        invariant
            i <= args.len(),
            all == text::views(args@),
            eval_args(all, 0, None, 1) == eval_args(
                all,
                i as int,
                text::opt_view(filter),
                runs as nat,
            ),
        decreases args@.len() - i,
    {
        let arg = args[i].as_str();
        assert(all[i as int] == arg@);
        let last = args.len() - i < 2;
        if text::same(arg, "--filter") || text::same(arg, "-f") {
            if last {
                return Err("--filter needs a value".to_owned());
            }
            assert(all[i + 1] == args@[i + 1]@);
            filter = Some(args[i + 1].clone());
            i += 2;
        } else if text::same(arg, "--runs") || text::same(arg, "-n") {
            if last {
                return Err("--runs needs a value".to_owned());
            }
            assert(all[i + 1] == args@[i + 1]@);
            match parse_usize(args[i + 1].as_str()) {
                Err(e) => return Err(
                    "--runs not a positive int: ".to_owned().concat(e.as_str()),
                ),
                Ok(n) => {
                    if n == 0 {
                        return Err("--runs must be ≥ 1".to_owned());
                    }
                    runs = n;
                },
            }
            i += 2;
        } else if text::same(arg, "--help") || text::same(arg, "-h") {
            return Ok(EvalCommand::Help);
        } else {
            return Err("unexpected argument: ".to_owned().concat(arg));
        }
    }
    Ok(EvalCommand::Run { filter, runs })
}

/// The text on one line.
pub open spec fn without_feeds(s: Seq<char>) -> Seq<char> {
    s.map_values(
        |c: char|
            if c == '\n' {
                ' '
            } else {
                c
            },
    )
}

/// The text on one line, cut to two hundred characters.
pub open spec fn abbreviated(s: Seq<char>) -> Seq<char> {
    if s.len() <= 200 {
        without_feeds(s)
    } else {
        without_feeds(s).take(200) + "…"@
    }
}

/// Abbreviates a text for the log.
pub fn abbreviate_for_log(s: &str) -> (r: String)
    ensures
        r@ == abbreviated(s@),
{
    let v = text::chars_of(s);
    let n: usize = if v.len() <= 200 {
        v.len()
    } else {
        200
    };
    let mut out = String::new();
    let mut i: usize = 0;
    while i < n
        invariant
            v@ == s@,
            i <= n <= v@.len(),
            out@ == without_feeds(s@).take(i as int),
        decreases n - i,
    {
        let c = if v[i] == '\n' {
            ' '
        } else {
            v[i]
        };
        out.push(c);
        i += 1;
        assert(out@ =~= without_feeds(s@).take(i as int));
    }
    if v.len() > 200 {
        out.append("…");
    } else {
        assert(without_feeds(s@).take(i as int) =~= without_feeds(s@));
    }
    out
}

/// A setting that is set and not blank.
pub open spec fn is_set(v: Option<Seq<char>>) -> bool {
    match v {
        Some(s) => text::trimmed(s).len() > 0,
        None => false,
    }
}

/// Whether a setting is set and not blank.
pub fn setting_is_set(v: Option<&str>) -> (r: bool)
    ensures
        r == is_set(text::opt_str_view(v)),
{
    match v {
        Some(s) => !text::trim(s).is_empty(),
        None => false,
    }
}

/// How one run of a fixture ended.
#[derive(Debug, Clone, Copy, PartialEq, Eq, Structural)]
pub enum RunVerdict {
    Passed,
    Failed,
    /// The harness failed before the assertion.
    Errored,
}

/// The tally of one fixture.
#[derive(Debug, Clone, Copy, PartialEq, Eq, Structural)]
pub struct FixtureTally {
    pub passed: usize,
    pub failed: usize,
    pub errored: usize,
    /// Runs whose text held the retired tag.
    pub retired_tags: usize,
}

/// The tally with one more run.
pub open spec fn tallied(t: FixtureTally, verdict: RunVerdict, retired_tag: bool) -> FixtureTally {
    FixtureTally {
        passed: if verdict == RunVerdict::Passed {
            (t.passed + 1) as usize
        } else {
            t.passed
        },
        failed: if verdict == RunVerdict::Failed {
            (t.failed + 1) as usize
        } else {
            t.failed
        },
        errored: if verdict == RunVerdict::Errored {
            (t.errored + 1) as usize
        } else {
            t.errored
        },
        retired_tags: if retired_tag {
            (t.retired_tags + 1) as usize
        } else {
            t.retired_tags
        },
    }
}

impl FixtureTally {
    pub fn new() -> (r: FixtureTally)
        ensures
            r == (FixtureTally { passed: 0, failed: 0, errored: 0, retired_tags: 0 }),
    {
        FixtureTally { passed: 0, failed: 0, errored: 0, retired_tags: 0 }
    }

    /// Counts a run.
    pub fn record(&mut self, verdict: RunVerdict, retired_tag: bool)
        requires
            verdict == RunVerdict::Passed ==> old(self).passed < usize::MAX,
            verdict == RunVerdict::Failed ==> old(self).failed < usize::MAX,
            verdict == RunVerdict::Errored ==> old(self).errored < usize::MAX,
            retired_tag ==> old(self).retired_tags < usize::MAX,
        ensures
            *final(self) == tallied(*old(self), verdict, retired_tag),
    {
        match verdict {
            RunVerdict::Passed => {
                self.passed = self.passed + 1;
            },
            RunVerdict::Failed => {
                self.failed = self.failed + 1;
            },
            RunVerdict::Errored => {
                self.errored = self.errored + 1;
            },
        }
        if retired_tag {
            self.retired_tags = self.retired_tags + 1;
        }
    }
}

/// No fixture failed or erred.
pub open spec fn all_clean(tallies: Seq<FixtureTally>) -> bool {
    forall|i: int|
        0 <= i < tallies.len() ==> (#[trigger] tallies[i]).failed == 0 && tallies[i].errored == 0
}

/// Whether the evaluation as a whole succeeded.
pub fn succeeded(tallies: &Vec<FixtureTally>) -> (r: bool)
    ensures
        r == all_clean(tallies@),
{
    let mut i: usize = 0;
    while i < tallies.len()
        invariant
            i <= tallies@.len(),
            forall|j: int|
                0 <= j < i ==> (#[trigger] tallies@[j]).failed == 0 && tallies@[j].errored == 0,
        decreases tallies@.len() - i,
    {
        if tallies[i].failed != 0 || tallies[i].errored != 0 {
            return false;
        }
        i += 1;
    }
    true
}

// ---------------------------------------------------------------------------
// Laws of the command lines

proof fn agent_args_read_on(
    a: Seq<Seq<char>>,
    b: Seq<Seq<char>>,
    i: int,
    so_far: Option<Seq<char>>,
)
    requires
        0 <= i <= a.len(),
        agent_args(a, i, so_far) is Ok || (i == a.len() && so_far is None),
    ensures
        agent_args(a + b, i, so_far) == agent_args(
            a + b,
            a.len() as int,
            if i == a.len() && so_far is None {
                None
            } else {
                Some(agent_args(a, i, so_far)->Ok_0)
            },
        ),
    decreases a.len() - i,
{
    if i < a.len() {
        assert((a + b)[i] == a[i]);
        if i + 1 < a.len() {
            assert((a + b)[i + 1] == a[i + 1]);
            agent_args_read_on(a, b, i + 2, Some(a[i + 1]));
        }
    }
}

/// The agent is the one that is named last, behind its flag; without a name there is none.
pub proof fn last_agent_counts(before: Seq<Seq<char>>, id: Seq<char>)
    requires
        before.len() == 0 || agent_args(before, 0, None) is Ok,
    ensures
        agent_args(before + seq!["--agent-id"@, id], 0, None) == Ok::<Seq<char>, Seq<char>>(id),
        agent_args(before + seq!["--agent-id"@], 0, None) is Err,
        agent_args(Seq::empty(), 0, None) is Err,
{
    let n = before.len() as int;
    let all = before + seq!["--agent-id"@, id];
    agent_args_read_on(before, seq!["--agent-id"@, id], 0, None);
    assert(all[n] == "--agent-id"@ && all[n + 1] == id);
    assert(agent_args(all, n + 2, Some(id)) == Ok::<Seq<char>, Seq<char>>(id));
    let cut = before + seq!["--agent-id"@];
    agent_args_read_on(before, seq!["--agent-id"@], 0, None);
    assert(cut[n] == "--agent-id"@);
}

/// What is neither the flag nor its value is refused, and named in the error.
pub proof fn other_arguments_are_refused(before: Seq<Seq<char>>, arg: Seq<char>)
    requires
        before.len() == 0 || agent_args(before, 0, None) is Ok,
        arg != "--agent-id"@,
    ensures
        agent_args(before + seq![arg], 0, None) is Err,
        text::ends(agent_args(before + seq![arg], 0, None)->Err_0, arg),
{
    let n = before.len() as int;
    agent_args_read_on(before, seq![arg], 0, None);
    assert((before + seq![arg])[n] == arg);
    text::parts_stand_in_the_whole("unexpected argument: "@, arg, Seq::empty());
}

proof fn eval_args_read_on(
    a: Seq<Seq<char>>,
    b: Seq<Seq<char>>,
    i: int,
    filter: Option<Seq<char>>,
    runs: nat,
    f: Option<Seq<char>>,
    n: nat,
)
    requires
        0 <= i <= a.len(),
        eval_args(a, i, filter, runs) == Ok::<EvalView, Seq<char>>(
            EvalView::Run { filter: f, runs: n },
        ),
    ensures
        eval_args(a + b, i, filter, runs) == eval_args(a + b, a.len() as int, f, n),
    decreases a.len() - i,
{
    if i < a.len() {
        assert((a + b)[i] == a[i]);
        if i + 1 < a.len() {
            assert((a + b)[i + 1] == a[i + 1]);
            if a[i] == "--filter"@ || a[i] == "-f"@ {
                eval_args_read_on(a, b, i + 2, Some(a[i + 1]), runs, f, n);
            } else if a[i] == "--runs"@ || a[i] == "-n"@ {
                let m = text::natural_up_to(a[i + 1], usize::MAX as nat)->0;
                eval_args_read_on(a, b, i + 2, filter, m, f, n);
            }
        }
    }
}

proof fn eval_flags_differ()
    ensures
        "--runs"@ != "--filter"@ && "--runs"@ != "-f"@,
        "-n"@ != "--filter"@ && "-n"@ != "-f"@,
        "--help"@ != "--filter"@ && "--help"@ != "-f"@ && "--help"@ != "--runs"@ && "--help"@
            != "-n"@,
        "-h"@ != "--filter"@ && "-h"@ != "-f"@ && "-h"@ != "--runs"@ && "-h"@ != "-n"@,
{
    reveal_strlit("--filter");
    reveal_strlit("-f");
    reveal_strlit("--runs");
    reveal_strlit("-n");
    reveal_strlit("--help");
    reveal_strlit("-h");
    assert("--filter"@.len() == 8 && "--runs"@.len() == 6 && "--help"@.len() == 6);
    assert("-f"@.len() == 2 && "-n"@.len() == 2 && "-h"@.len() == 2);
    assert("--runs"@[2] == 'r' && "--help"@[2] == 'h');
    assert("-f"@[1] == 'f' && "-n"@[1] == 'n' && "-h"@[1] == 'h');
}

/// Each setting is taken as it is given and leaves the others as they were; the last of
/// each counts. Without any, all fixtures are run once.
pub proof fn settings_are_taken_one_by_one(
    before: Seq<Seq<char>>,
    filter: Option<Seq<char>>,
    runs: nat,
    word: Seq<char>,
    n: nat,
)
    requires
        eval_args(before, 0, None, 1) == Ok::<EvalView, Seq<char>>(EvalView::Run { filter, runs }),
        1 <= n <= usize::MAX,
    ensures
        eval_args(before + seq!["--filter"@, word], 0, None, 1) == Ok::<EvalView, Seq<char>>(
            EvalView::Run { filter: Some(word), runs },
        ),
        eval_args(before + seq!["-f"@, word], 0, None, 1) == Ok::<EvalView, Seq<char>>(
            EvalView::Run { filter: Some(word), runs },
        ),
        eval_args(before + seq!["--runs"@, text::decimal_text(n)], 0, None, 1) == Ok::<
            EvalView,
            Seq<char>,
        >(EvalView::Run { filter, runs: n }),
        eval_args(before + seq!["-n"@, text::decimal_text(n)], 0, None, 1) == Ok::<
            EvalView,
            Seq<char>,
        >(EvalView::Run { filter, runs: n }),
        eval_args(before + seq!["--help"@], 0, None, 1) == Ok::<EvalView, Seq<char>>(
            EvalView::Help,
        ),
        eval_args(before + seq!["-h"@], 0, None, 1) == Ok::<EvalView, Seq<char>>(EvalView::Help),
        eval_args(before + seq!["--runs"@, text::decimal_text(0)], 0, None, 1) is Err,
        eval_args(Seq::empty(), 0, None, 1) == Ok::<EvalView, Seq<char>>(
            EvalView::Run { filter: None, runs: 1 },
        ),
{
    eval_flags_differ();
    text::naturals_read_back(n);
    text::naturals_read_back(0);
    let k = before.len() as int;
    setting_is_read(before, filter, runs, "--filter"@, word);
    setting_is_read(before, filter, runs, "-f"@, word);
    setting_is_read(before, filter, runs, "--runs"@, text::decimal_text(n));
    setting_is_read(before, filter, runs, "-n"@, text::decimal_text(n));
    setting_is_read(before, filter, runs, "--runs"@, text::decimal_text(0));
    eval_args_read_on(before, seq!["--help"@], 0, None, 1, filter, runs);
    assert((before + seq!["--help"@])[k] == "--help"@);
    eval_args_read_on(before, seq!["-h"@], 0, None, 1, filter, runs);
    assert((before + seq!["-h"@])[k] == "-h"@);
}

proof fn setting_is_read(
    before: Seq<Seq<char>>,
    filter: Option<Seq<char>>,
    runs: nat,
    flag: Seq<char>,
    value: Seq<char>,
)
    requires
        eval_args(before, 0, None, 1) == Ok::<EvalView, Seq<char>>(EvalView::Run { filter, runs }),
    ensures
        flag == "--filter"@ || flag == "-f"@ ==> eval_args(before + seq![flag, value], 0, None, 1)
            == Ok::<EvalView, Seq<char>>(EvalView::Run { filter: Some(value), runs }),
        flag == "--runs"@ || flag == "-n"@ ==> match text::natural_up_to(
            value,
            usize::MAX as nat,
        ) {
            Some(n) => if n == 0 {
                eval_args(before + seq![flag, value], 0, None, 1) is Err
            } else {
                eval_args(before + seq![flag, value], 0, None, 1) == Ok::<EvalView, Seq<char>>(
                    EvalView::Run { filter, runs: n },
                )
            },
            None => eval_args(before + seq![flag, value], 0, None, 1) is Err,
        },
{
    eval_flags_differ();
    let k = before.len() as int;
    let all = before + seq![flag, value];
    eval_args_read_on(before, seq![flag, value], 0, None, 1, filter, runs);
    assert(all[k] == flag && all[k + 1] == value);
    assert(all.len() == k + 2);
    assert(eval_args(all, k + 2, Some(value), runs) == Ok::<EvalView, Seq<char>>(
        EvalView::Run { filter: Some(value), runs },
    ));
    if let Some(n) = text::natural_up_to(value, usize::MAX as nat) {
        assert(eval_args(all, k + 2, filter, n) == Ok::<EvalView, Seq<char>>(
            EvalView::Run { filter, runs: n },
        ));
    }
}

// ---------------------------------------------------------------------------
// Laws of what is printed and counted

/// A text of up to two hundred characters is shown whole, on one line; of a longer one the
/// first two hundred are, with an ellipsis behind.
pub proof fn texts_are_shown_on_one_line(s: Seq<char>)
    ensures
        s.len() <= 200 ==> abbreviated(s).len() == s.len(),
        s.len() > 200 ==> abbreviated(s).len() == 201 && abbreviated(s)[200] == '…',
        forall|i: int|
            0 <= i < s.len() && i < 200 ==> #[trigger] abbreviated(s)[i] == (if s[i] == '\n' {
                ' '
            } else {
                s[i]
            }),
{
    reveal_strlit("…");
}

/// Every run is counted once: passed, failed or errored; and a retired tag beside.
pub proof fn every_run_is_counted_once(t: FixtureTally, verdict: RunVerdict, retired_tag: bool)
    requires
        t.passed < usize::MAX && t.failed < usize::MAX && t.errored < usize::MAX && t.retired_tags
            < usize::MAX,
    ensures
        ({
            let u = tallied(t, verdict, retired_tag);
            &&& u.passed + u.failed + u.errored == t.passed + t.failed + t.errored + 1
            &&& u.passed == t.passed + 1 <==> verdict == RunVerdict::Passed
            &&& u.failed == t.failed + 1 <==> verdict == RunVerdict::Failed
            &&& u.errored == t.errored + 1 <==> verdict == RunVerdict::Errored
            &&& u.passed >= t.passed && u.failed >= t.failed && u.errored >= t.errored
            &&& u.retired_tags == t.retired_tags + (if retired_tag {
                1int
            } else {
                0
            })
        }),
{
}

/// One failed or errored run is enough for the evaluation not to succeed, and nothing else
/// is.
pub proof fn one_failure_spoils_the_evaluation(
    tallies: Seq<FixtureTally>,
    t: FixtureTally,
    verdict: RunVerdict,
    retired_tag: bool,
)
    requires
        t.passed < usize::MAX && t.failed < usize::MAX && t.errored < usize::MAX && t.retired_tags
            < usize::MAX,
    ensures
        verdict != RunVerdict::Passed ==> !all_clean(
            tallies.push(tallied(t, verdict, retired_tag)),
        ),
        all_clean(tallies) && all_clean(seq![t]) ==> all_clean(
            tallies.push(tallied(t, RunVerdict::Passed, retired_tag)),
        ),
{
    let all = tallies.push(tallied(t, verdict, retired_tag));
    let last = all[tallies.len() as int];
    assert(last == tallied(t, verdict, retired_tag));
    if all_clean(seq![t]) {
        assert(seq![t][0].failed == 0);
    }
}

/// A setting is set where it holds something other than white space.
pub proof fn blank_settings_are_not_set(s: Seq<char>)
    ensures
        is_set(Some(s)) <==> !text::is_white(s),
        !is_set(None),
{
    crate::render::blank_is_all_white(s);
}

} // verus!
