//! Ingesting rollout files: whose file it is, which lines of it are new, and
//! how a thread's cursor moves.
use crate::text;
use vstd::prelude::*;
use vstd::string::*;

verus! {

/// Whose rollout a file is, as its path tells.
#[derive(Debug, Clone, PartialEq, Eq)]
pub struct RolloutAttribution {
    pub thread_id: String,
    pub team_id: String,
    pub project_hash: String,
}

#[verifier::ext_equal]
pub ghost struct AttributionView {
    pub thread_id: Seq<char>,
    pub team_id: Seq<char>,
    pub project_hash: Seq<char>,
}

impl View for RolloutAttribution {
    type V = AttributionView;

    open spec fn view(&self) -> AttributionView {
        AttributionView {
            thread_id: self.thread_id@,
            team_id: self.team_id@,
            project_hash: self.project_hash@,
        }
    }
}

/// The parts of a rollout file's path.
#[derive(Debug, Clone)]
pub struct RolloutPath {
    /// The final component, where it is a name and valid Unicode.
    pub file_name: Option<String>,
    /// All components that are valid Unicode, from the root down.
    pub components: Vec<String>,
}

pub open spec fn is_hex(c: char) -> bool {
    '0' <= c <= '9' || 'a' <= c <= 'f' || 'A' <= c <= 'F'
}

fn hex(c: char) -> (r: bool)
    ensures
        r == is_hex(c),
{
    ('0' <= c && c <= '9') || ('a' <= c && c <= 'f') || ('A' <= c && c <= 'F')
}

/// The canonical form of a UUID: hexadecimal digits in groups of eight, four,
/// four, four and twelve, with hyphens between.
pub open spec fn is_uuid(s: Seq<char>) -> bool {
    s.len() == 36 && forall|i: int|
        0 <= i < 36 ==> if i == 8 || i == 13 || i == 18 || i == 23 {
            #[trigger] s[i] == '-'
        } else {
            is_hex(s[i])
        }
}

/// Whether a text has the canonical form of a UUID.
pub fn is_uuid_form(s: &str) -> (r: bool)
    ensures
        r == is_uuid(s@),
{
    let v = text::chars_of(s);
    if v.len() != 36 {
        return false;
    }
    let mut i: usize = 0;
    while i < 36
        invariant
            v@ == s@,
            v@.len() == 36,
            i <= 36,
            forall|j: int|
                0 <= j < i ==> if j == 8 || j == 13 || j == 18 || j == 23 {
                    #[trigger] s@[j] == '-'
                } else {
                    is_hex(s@[j])
                },
        decreases 36 - i,
    {
        let ok = if i == 8 || i == 13 || i == 18 || i == 23 {
            v[i] == '-'
        } else {
            hex(v[i])
        };
        if !ok {
            assert(s@[i as int] == v@[i as int]);
            return false;
        }
        i += 1;
    }
    true
}

/// The thread that a file name is for: the UUID at the end of its stem.
pub open spec fn thread_of(file_name: Seq<char>) -> Option<Seq<char>> {
    match text::without_suffix(file_name, ".jsonl"@) {
        None => None,
        Some(stem) => if stem.len() < 36 || !is_uuid(stem.skip(stem.len() - 36)) {
            None
        } else {
            Some(stem.skip(stem.len() - 36))
        },
    }
}

/// The first position of a component.
pub open spec fn component_at(components: Seq<Seq<char>>, name: Seq<char>, from: int) -> Option<int>
    decreases components.len() - from,
{
    if from >= components.len() {
        None
    } else if components[from] == name {
        Some(from)
    } else {
        component_at(components, name, from + 1)
    }
}

/// The attribution that a path gives. The file must lie exactly two levels
/// below the first `team_sessions`: team, then project.
pub open spec fn attribution(
    file_name: Option<Seq<char>>,
    components: Seq<Seq<char>>,
) -> Option<AttributionView> {
    match file_name {
        None => None,
        Some(name) => match thread_of(name) {
            None => None,
            Some(thread_id) => match component_at(components, "team_sessions"@, 0) {
                None => None,
                Some(i) => if components.len() == i + 4 && components[i + 3] == name {
                    Some(
                        AttributionView {
                            thread_id,
                            team_id: components[i + 1],
                            project_hash: components[i + 2],
                        },
                    )
                } else {
                    None
                },
            },
        },
    }
}

/// Reads thread, team and project off a rollout file's path.
pub fn parse_rollout_attribution(path: &RolloutPath) -> (r: Option<RolloutAttribution>)
    ensures
        match r {
            Some(a) => attribution(text::opt_view(path.file_name), text::views(path.components@))
                == Some(a@),
            None => attribution(text::opt_view(path.file_name), text::views(path.components@))
                is None,
        },
{
    let name = match &path.file_name {
        Some(n) => n.as_str(),
        None => return None,
    };
    let stem = match text::strip_suffix(name, ".jsonl") {
        Some(s) => s,
        None => return None,
    };
    let n: usize = stem.unicode_len();
    if n < 36 {
        return None;
    }
    let thread_id = text::tail(stem, n - 36);
    if !is_uuid_form(thread_id) {
        return None;
    }
    let components = &path.components;
    let ghost all = text::views(components@);
    let mut i: usize = 0;
    while i < components.len() && !text::same(components[i].as_str(), "team_sessions")
        invariant
            components == path.components,
            all == text::views(components@),
            i <= components@.len(),
            component_at(all, "team_sessions"@, 0) == component_at(all, "team_sessions"@, i as int),
        decreases components@.len() - i,
    {
        assert(all[i as int] == components@[i as int]@);
        i += 1;
    }
    if i == components.len() {
        return None;
    }
    assert(all[i as int] == components@[i as int]@);
    if components.len() - i != 4 || !text::same(components[i + 3].as_str(), name) {
        return None;
    }
    Some(
        RolloutAttribution {
            thread_id: thread_id.to_owned(),
            team_id: components[i + 1].clone(),
            project_hash: components[i + 2].clone(),
        },
    )
}

/// A file name that is looked at: `rollout-….jsonl`.
pub open spec fn is_rollout_name(name: Seq<char>) -> bool {
    text::begins(name, "rollout-"@) && text::ends(name, ".jsonl"@)
}

/// Every name of that form is looked at, whatever stands between, and no other is.
pub proof fn rollout_names_have_their_form(middle: Seq<char>, name: Seq<char>)
    ensures
        is_rollout_name("rollout-"@ + middle + ".jsonl"@),
        is_rollout_name(name) ==> name.len() >= 8 && name.take(8) == "rollout-"@ && name.skip(
            name.len() - 6,
        ) == ".jsonl"@,
        !text::begins(name, "rollout-"@) ==> !is_rollout_name(name),
        !text::ends(name, ".jsonl"@) ==> !is_rollout_name(name),
{
    reveal_strlit("rollout-");
    reveal_strlit(".jsonl");
    text::parts_stand_in_the_whole("rollout-"@ + middle, ".jsonl"@, Seq::empty());
    assert("rollout-"@ + middle + ".jsonl"@ =~= "rollout-"@ + (middle + ".jsonl"@));
    text::parts_stand_in_the_whole(Seq::empty(), "rollout-"@, middle + ".jsonl"@);
}

/// A file name that is looked at: `rollout-….jsonl`.
pub fn is_rollout_file_name(name: &str) -> (r: bool)
    ensures
        r == is_rollout_name(name@),
        r == (text::begins(name@, "rollout-"@) && text::ends(name@, ".jsonl"@)),
{
    text::starts_with(name, "rollout-") && text::ends_with(name, ".jsonl")
}

// ---------------------------------------------------------------------------
// Laws of attribution

/// One of the sixteen digits, the letters in either case.
pub open spec fn is_hex_digit(c: char) -> bool {
    c == '0' || c == '1' || c == '2' || c == '3' || c == '4' || c == '5' || c == '6' || c == '7' || c
        == '8' || c == '9' || c == 'a' || c == 'b' || c == 'c' || c == 'd' || c == 'e' || c == 'f'
        || c == 'A' || c == 'B' || c == 'C' || c == 'D' || c == 'E' || c == 'F'
}

/// Hexadecimal digits in groups of eight, four, four, four and twelve, with
/// hyphens between, are a UUID.
pub proof fn groups_make_a_uuid(
    a: Seq<char>,
    b: Seq<char>,
    c: Seq<char>,
    d: Seq<char>,
    e: Seq<char>,
)
    requires
        a.len() == 8 && b.len() == 4 && c.len() == 4 && d.len() == 4 && e.len() == 12,
        forall|i: int| 0 <= i < a.len() ==> is_hex_digit(#[trigger] a[i]),
        forall|i: int| 0 <= i < b.len() ==> is_hex_digit(#[trigger] b[i]),
        forall|i: int| 0 <= i < c.len() ==> is_hex_digit(#[trigger] c[i]),
        forall|i: int| 0 <= i < d.len() ==> is_hex_digit(#[trigger] d[i]),
        forall|i: int| 0 <= i < e.len() ==> is_hex_digit(#[trigger] e[i]),
    ensures
        is_uuid(a + seq!['-'] + b + seq!['-'] + c + seq!['-'] + d + seq!['-'] + e),
{
    let s = a + seq!['-'] + b + seq!['-'] + c + seq!['-'] + d + seq!['-'] + e;
    assert(s.len() == 36);
    assert forall|i: int| 0 <= i < 36 implies if i == 8 || i == 13 || i == 18 || i == 23 {
        #[trigger] s[i] == '-'
    } else {
        is_hex(s[i])
    } by {
        if i < 8 {
            assert(s[i] == a[i]);
        } else if 8 < i < 13 {
            assert(s[i] == b[i - 9]);
        } else if 13 < i < 18 {
            assert(s[i] == c[i - 14]);
        } else if 18 < i < 23 {
            assert(s[i] == d[i - 19]);
        } else if 23 < i {
            assert(s[i] == e[i - 24]);
        }
    }
}

/// A UUID has thirty-six characters, hyphens at four places and hexadecimal digits
/// at all others.
pub proof fn uuids_are_hex_and_hyphens(s: Seq<char>, i: int)
    requires
        is_uuid(s),
        0 <= i < s.len(),
    ensures
        s.len() == 36,
        i == 8 || i == 13 || i == 18 || i == 23 ==> s[i] == '-',
        i != 8 && i != 13 && i != 18 && i != 23 ==> '0' <= s[i] <= '9' || 'a' <= s[i] <= 'f' || 'A'
            <= s[i] <= 'F',
{
}

proof fn component_at_is_first(components: Seq<Seq<char>>, name: Seq<char>, from: int)
    requires
        0 <= from,
    ensures
        match component_at(components, name, from) {
            Some(k) => from <= k < components.len() && components[k] == name && forall|j: int|
                from <= j < k ==> components[j] != name,
            None => forall|j: int| from <= j < components.len() ==> components[j] != name,
        },
    decreases components.len() - from,
{
    if from < components.len() && components[from] != name {
        component_at_is_first(components, name, from + 1);
    }
}

/// A file that lies as a rollout should is attributed to the thread, the team and
/// the project that its path names, wherever the sessions lie and whatever stands
/// before the thread's id in its name.
pub proof fn rollouts_are_attributed(
    above: Seq<Seq<char>>,
    team: Seq<char>,
    project: Seq<char>,
    stem: Seq<char>,
    thread_id: Seq<char>,
)
    requires
        is_uuid(thread_id),
        !above.contains("team_sessions"@),
    ensures
        ({
            let name = stem + thread_id + ".jsonl"@;
            attribution(Some(name), above + seq!["team_sessions"@, team, project, name]) == Some(
                AttributionView { thread_id, team_id: team, project_hash: project },
            )
        }),
{
    let name = stem + thread_id + ".jsonl"@;
    let all = above + seq!["team_sessions"@, team, project, name];
    let k = above.len() as int;
    let n = stem.len() as int;
    text::parts_stand_in_the_whole(stem + thread_id, ".jsonl"@, Seq::empty());
    assert(name.take(name.len() - ".jsonl"@.len()) =~= stem + thread_id);
    assert((stem + thread_id).skip(n) =~= thread_id);
    component_at_is_first(all, "team_sessions"@, 0);
    assert(all[k] == "team_sessions"@);
    if let Some(i) = component_at(all, "team_sessions"@, 0) {
        if i < k {
            assert(above[i] == all[i]);
            assert(above.contains("team_sessions"@));
        } else if k < i {
            assert(all[k] != "team_sessions"@);
        }
    } else {
        assert(all[k] != "team_sessions"@);
    }
    assert(all[k + 1] == team && all[k + 2] == project && all[k + 3] == name);
}

/// What is attributed lies as a rollout should: in the project of a team below the
/// first `team_sessions`, under a name that ends with the thread's id.
pub proof fn only_rollouts_are_attributed(file_name: Option<Seq<char>>, components: Seq<Seq<char>>)
    ensures
        attribution(file_name, components) matches Some(a) ==> {
            let n = components.len() as int;
            &&& file_name is Some
            &&& is_uuid(a.thread_id)
            &&& text::ends(file_name->0, a.thread_id + ".jsonl"@)
            &&& n >= 4
            &&& components[n - 1] == file_name->0
            &&& components[n - 2] == a.project_hash
            &&& components[n - 3] == a.team_id
            &&& components[n - 4] == "team_sessions"@
            &&& forall|j: int| 0 <= j < n - 4 ==> components[j] != "team_sessions"@
        },
{
    component_at_is_first(components, "team_sessions"@, 0);
    if let Some(a) = attribution(file_name, components) {
        let name = file_name->0;
        let stem = text::without_suffix(name, ".jsonl"@)->0;
        let m = stem.len() as int;
        assert(name =~= stem.take(m - 36) + (a.thread_id + ".jsonl"@)) by {
            assert(name =~= stem + name.skip(m));
        }
        text::parts_stand_in_the_whole(
            stem.take(m - 36),
            a.thread_id + ".jsonl"@,
            Seq::empty(),
        );
    }
}

// ---------------------------------------------------------------------------
// Complete lines

/// `String::from_utf8`: the text that the bytes encode, where they are UTF-8.
#[verifier::external_body]
fn decode(bytes: Vec<u8>) -> (r: Option<String>)
    ensures
        match r {
            Some(s) => vstd::utf8::valid_utf8(bytes@) && s@ == vstd::utf8::decode_utf8(bytes@),
            None => !vstd::utf8::valid_utf8(bytes@),
        },
{
    String::from_utf8(bytes).ok()
}

/// The first line feed at or after `from`.
pub open spec fn next_feed(b: Seq<u8>, from: int) -> Option<int>
    decreases b.len() - from,
{
    if from >= b.len() {
        None
    } else if b[from] == 10 {
        Some(from)
    } else {
        next_feed(b, from + 1)
    }
}

/// What `next_feed` finds is a line feed, and none lies before it.
pub proof fn next_feed_is_next(b: Seq<u8>, from: int)
    requires
        0 <= from,
    ensures
        match next_feed(b, from) {
            Some(k) => from <= k < b.len() && b[k] == 10 && forall|j: int|
                from <= j < k ==> b[j] != 10,
            None => forall|j: int| from <= j < b.len() ==> b[j] != 10,
        },
    decreases b.len() - from,
{
    if from < b.len() && b[from] != 10 {
        next_feed_is_next(b, from + 1);
    }
}

/// The lines that a line feed ends, without it.
pub open spec fn complete_lines(b: Seq<u8>) -> Seq<Seq<u8>>
    decreases b.len(),
    via complete_lines_decreases
{
    match next_feed(b, 0) {
        None => Seq::empty(),
        Some(k) => seq![b.take(k)] + complete_lines(b.skip(k + 1)),
    }
}

#[via_fn]
proof fn complete_lines_decreases(b: Seq<u8>) {
    next_feed_is_next(b, 0);
}

/// How many bytes the complete lines take up, line feeds included.
pub open spec fn complete_len(b: Seq<u8>) -> int
    decreases b.len(),
    via complete_len_decreases
{
    match next_feed(b, 0) {
        None => 0,
        Some(k) => k + 1 + complete_len(b.skip(k + 1)),
    }
}

#[via_fn]
proof fn complete_len_decreases(b: Seq<u8>) {
    next_feed_is_next(b, 0);
}

/// A line without the carriage return before its line feed.
pub open spec fn payload_bytes(line: Seq<u8>) -> Seq<u8> {
    if line.len() > 0 && line.last() == 13 {
        line.drop_last()
    } else {
        line
    }
}

/// Every complete line is UTF-8. A torn rest may end within a character.
pub open spec fn is_readable(b: Seq<u8>) -> bool {
    forall|i: int|
        0 <= i < complete_lines(b).len() ==> vstd::utf8::valid_utf8(
            payload_bytes(#[trigger] complete_lines(b)[i]),
        )
}

/// The numbered payloads of the complete lines, counted on from `base`.
pub open spec fn numbered(b: Seq<u8>, base: int) -> Seq<(int, Seq<char>)> {
    Seq::new(
        complete_lines(b).len(),
        |i: int| (base + 1 + i, vstd::utf8::decode_utf8(payload_bytes(complete_lines(b)[i]))),
    )
}

/// The lines that a read of a file's tail found complete.
#[derive(Debug)]
pub struct NewLines {
    /// Line number and payload, without the line end.
    pub lines: Vec<(i64, String)>,
    /// The bytes that these lines take up.
    pub consumed: u64,
}

/// Line numbers and payloads as they are meant.
pub open spec fn line_list(lines: Seq<(i64, String)>) -> Seq<(int, Seq<char>)> {
    lines.map_values(|l: (i64, String)| (l.0 as int, l.1@))
}

fn bytes_between(b: &Vec<u8>, from: usize, to: usize) -> (r: Vec<u8>)
    requires
        from <= to <= b@.len(),
    ensures
        r@ == b@.subrange(from as int, to as int),
{
    let mut out: Vec<u8> = Vec::new();
    let mut i: usize = from;
    while i < to
        invariant
            from <= i <= to <= b@.len(),
            out@ == b@.subrange(from as int, i as int),
        decreases to - i,
    {
        out.push(b[i]);
        i += 1;
        assert(out@ =~= b@.subrange(from as int, i as int));
    }
    out
}

/// `line` is the `k`-th complete line.
spec fn is_line(b: Seq<u8>, base: int, k: int, line: (i64, String)) -> bool {
    let payload = payload_bytes(complete_lines(b)[k]);
    &&& vstd::utf8::valid_utf8(payload)
    &&& line.0 == base + 1 + k
    &&& line.1@ == vstd::utf8::decode_utf8(payload)
}

/// Takes the complete lines out of what follows a thread's offset in its file.
/// A torn last line is left for a later read, wherever it was torn. `None` where
/// a complete line is not UTF-8: then nothing of the file is taken.
pub fn take_lines(tail: &Vec<u8>, base_line_no: i64) -> (r: Option<NewLines>)
    requires
        0 <= base_line_no,
        base_line_no + tail@.len() <= i64::MAX,
    ensures
        match r {
            Some(n) => is_readable(tail@) && line_list(n.lines@) == numbered(
                tail@,
                base_line_no as int,
            ) && n.consumed == complete_len(tail@),
            None => !is_readable(tail@),
        },
{
    let ghost b = tail@;
    let mut lines: Vec<(i64, String)> = Vec::new();
    let mut start: usize = 0;
    let mut i: usize = 0;
    assert(b.skip(0) =~= b);
    while i < tail.len()
        invariant
            b == tail@,
            0 <= start <= i <= tail.len(),
            0 <= base_line_no,
            base_line_no + tail@.len() <= i64::MAX,
            lines@.len() <= start,
            complete_lines(b).len() == lines@.len() + complete_lines(b.skip(start as int)).len(),
            forall|k: int|
                0 <= k < complete_lines(b.skip(start as int)).len() ==> #[trigger] complete_lines(
                    b.skip(start as int),
                )[k] == complete_lines(b)[lines@.len() + k],
            complete_len(b) == start + complete_len(b.skip(start as int)),
            forall|j: int| start <= j < i ==> b[j] != 10,
            forall|k: int|
                0 <= k < lines@.len() ==> is_line(b, base_line_no as int, k, #[trigger] lines@[k]),
        decreases tail@.len() - i,
    {
        if tail[i] == 10 {
            let ghost rest = b.skip(start as int);
            let ghost k = i - start;
            let ghost at = lines@.len() as int;
            proof {
                next_feed_is_next(rest, 0);
                assert(rest[k] == 10);
                assert forall|j: int| 0 <= j < k implies rest[j] != 10 by {
                    assert(rest[j] == b[start + j]);
                }
                let m = next_feed(rest, 0)->0;
                assert(next_feed(rest, 0) is Some) by {
                    if next_feed(rest, 0) is None {
                        assert(rest[k] != 10);
                    }
                }
                if m < k {
                    assert(rest[m] != 10);
                } else if k < m {
                    assert(rest[k] != 10);
                }
                assert(m == k);
                assert(rest.skip(k + 1) =~= b.skip(i + 1));
                assert(complete_lines(rest) == seq![rest.take(k)] + complete_lines(b.skip(i + 1)));
                assert(complete_lines(rest)[0] == rest.take(k));
                assert(rest.take(k) =~= b.subrange(start as int, i as int));
                assert(complete_lines(b)[at] == b.subrange(start as int, i as int));
            }
            let end: usize = if i > start && tail[i - 1] == 13 {
                i - 1
            } else {
                i
            };
            assert(b.subrange(start as int, end as int) =~= payload_bytes(
                b.subrange(start as int, i as int),
            ));
            let payload = match decode(bytes_between(tail, start, end)) {
                Some(s) => s,
                None => return None,
            };
            let line_no: i64 = base_line_no + 1 + lines.len() as i64;
            let ghost before = lines@;
            lines.push((line_no, payload));
            proof {
                assert(payload_bytes(complete_lines(b)[at]) == b.subrange(
                    start as int,
                    end as int,
                ));
                assert(is_line(b, base_line_no as int, at, lines@[at]));
                assert forall|j: int| 0 <= j < lines@.len() implies is_line(
                    b,
                    base_line_no as int,
                    j,
                    #[trigger] lines@[j],
                ) by {
                    if j < at {
                        assert(lines@[j] == before[j]);
                    }
                }
                let next = b.skip(i + 1);
                assert forall|j: int| 0 <= j < complete_lines(next).len() implies #[trigger] complete_lines(
                    next,
                )[j] == complete_lines(b)[lines@.len() + j] by {
                    assert(complete_lines(rest)[j + 1] == complete_lines(next)[j]);
                }
            }
            start = i + 1;
        }
        i += 1;
    }
    proof {
        let rest = b.skip(start as int);
        next_feed_is_next(rest, 0);
        if let Some(m) = next_feed(rest, 0) {
            assert(rest[m] == b[start + m]);
        }
        assert(complete_lines(rest).len() == 0);
        assert(complete_len(b) == start);
    }
    assert(line_list(lines@) =~= numbered(b, base_line_no as int));
    assert forall|k: int| 0 <= k < complete_lines(b).len() implies vstd::utf8::valid_utf8(
        payload_bytes(#[trigger] complete_lines(b)[k]),
    ) by {
        assert(is_line(b, base_line_no as int, k, lines@[k]));
    }
    Some(NewLines { lines, consumed: start as u64 })
}

// ---------------------------------------------------------------------------
// Laws of line taking

proof fn complete_len_bounds(b: Seq<u8>)
    ensures
        0 <= complete_len(b) <= b.len(),
    decreases b.len(),
{
    next_feed_is_next(b, 0);
    if let Some(k) = next_feed(b, 0) {
        complete_len_bounds(b.skip(k + 1));
    }
}

/// Where no line feed stands before `k` and one stands at `k`, it is the next.
proof fn next_feed_is(b: Seq<u8>, k: int)
    requires
        0 <= k < b.len(),
        b[k] == 10,
        forall|j: int| 0 <= j < k ==> b[j] != 10,
    ensures
        next_feed(b, 0) == Some(k),
{
    next_feed_is_next(b, 0);
    match next_feed(b, 0) {
        Some(m) => {
            if m < k {
                assert(b[m] != 10);
            } else if k < m {
                assert(b[k] != 10);
            }
        },
        None => {
            assert(b[k] != 10);
        },
    }
}

/// Reading on from where a read stopped finds exactly what a read of the whole
/// would have found after it: however a file grows between two reads, no line
/// is taken twice, split or lost.
pub proof fn reading_on_finds_the_rest(b: Seq<u8>, more: Seq<u8>)
    ensures
        complete_lines(b + more) == complete_lines(b) + complete_lines(
            (b + more).skip(complete_len(b)),
        ),
        complete_len(b + more) == complete_len(b) + complete_len((b + more).skip(complete_len(b))),
    decreases b.len(),
{
    let all = b + more;
    next_feed_is_next(b, 0);
    match next_feed(b, 0) {
        None => {
            assert(all.skip(0) =~= all);
            assert(complete_lines(all) =~= complete_lines(b) + complete_lines(all.skip(0)));
        },
        Some(k) => {
            let rest = b.skip(k + 1);
            assert(all[k] == b[k]);
            assert forall|j: int| 0 <= j < k implies all[j] != 10 by {
                assert(all[j] == b[j]);
            }
            next_feed_is(all, k);
            assert(all.skip(k + 1) =~= rest + more);
            assert(all.take(k) =~= b.take(k));
            reading_on_finds_the_rest(rest, more);
            complete_len_bounds(rest);
            assert((rest + more).skip(complete_len(rest)) =~= all.skip(complete_len(b)));
            assert(complete_lines(all) =~= complete_lines(b) + complete_lines(
                all.skip(complete_len(b)),
            ));
        },
    }
}

/// A file that has not grown gives nothing more.
pub proof fn unchanged_file_gives_nothing(b: Seq<u8>)
    ensures
        complete_lines(b.skip(complete_len(b))).len() == 0,
        complete_len(b.skip(complete_len(b))) == 0,
{
    reading_on_finds_the_rest(b, Seq::empty());
    assert(b + Seq::<u8>::empty() =~= b);
}

/// The lines, each with its line feed, one after the other.
pub open spec fn with_feeds(lines: Seq<Seq<u8>>) -> Seq<u8>
    decreases lines.len(),
{
    if lines.len() == 0 {
        Seq::empty()
    } else {
        lines[0] + seq![10u8] + with_feeds(lines.skip(1))
    }
}

/// The complete lines make up the bytes that were taken, exactly; and none of
/// them holds a line feed.
pub proof fn lines_rebuild_what_was_taken(b: Seq<u8>)
    ensures
        with_feeds(complete_lines(b)) == b.take(complete_len(b)),
        forall|i: int, j: int|
            0 <= i < complete_lines(b).len() && 0 <= j < complete_lines(b)[i].len()
                ==> #[trigger] complete_lines(b)[i][j] != 10,
    decreases b.len(),
{
    next_feed_is_next(b, 0);
    match next_feed(b, 0) {
        None => {
            assert(b.take(0) =~= Seq::empty());
        },
        Some(k) => {
            let rest = b.skip(k + 1);
            lines_rebuild_what_was_taken(rest);
            complete_len_bounds(rest);
            let lines = complete_lines(b);
            assert(lines.skip(1) =~= complete_lines(rest));
            assert(with_feeds(lines) =~= b.take(k) + seq![10u8] + rest.take(complete_len(rest)));
            assert(with_feeds(lines) =~= b.take(complete_len(b)));
            assert forall|i: int, j: int|
                0 <= i < lines.len() && 0 <= j < lines[i].len() implies #[trigger] lines[i][j]
                != 10 by {
                if i > 0 {
                    assert(lines[i] == complete_lines(rest)[i - 1]);
                    assert(complete_lines(rest)[i - 1][j] != 10);
                }
            }
        },
    }
}

/// Nothing of a line but its line end is ever left out: the payload's UTF-8 bytes
/// are the bytes of the line, or the line is those bytes and one carriage return.
/// There is one payload per complete line, and they are numbered on from `base`
/// in the order of the lines.
pub proof fn payloads_rebuild_their_lines(b: Seq<u8>, base: int, i: int)
    requires
        is_readable(b),
        0 <= i < complete_lines(b).len(),
    ensures
        numbered(b, base).len() == complete_lines(b).len(),
        numbered(b, base)[i].0 == base + 1 + i,
        ({
            let line = complete_lines(b)[i];
            let bytes = vstd::utf8::encode_utf8(numbered(b, base)[i].1);
            if line.len() > 0 && line[line.len() - 1] == 13 {
                line == bytes + seq![13u8]
            } else {
                line == bytes
            }
        }),
{
    let line = complete_lines(b)[i];
    vstd::utf8::decode_utf8_encode_utf8(payload_bytes(line));
    assert(vstd::utf8::encode_utf8(numbered(b, base)[i].1) == payload_bytes(line));
    if line.len() > 0 && line.last() == 13 {
        assert(line =~= payload_bytes(line) + seq![13u8]);
    }
}

/// A text that was written as a line, whether a carriage return was put before
/// the line feed or not, is taken as that text, whatever follows it.
pub proof fn written_lines_are_taken(s: Seq<char>, rest: Seq<u8>, base: int)
    requires
        forall|j: int|
            0 <= j < vstd::utf8::encode_utf8(s).len() ==> vstd::utf8::encode_utf8(s)[j] != 10
                && vstd::utf8::encode_utf8(s)[j] != 13,
    ensures
        ({
            let line = vstd::utf8::encode_utf8(s);
            &&& numbered(line + seq![10u8] + rest, base) == seq![(base + 1, s)] + numbered(
                rest,
                base + 1,
            )
            &&& numbered(line + seq![13u8, 10u8] + rest, base) == seq![(base + 1, s)] + numbered(
                rest,
                base + 1,
            )
            &&& is_readable(line + seq![10u8] + rest) <==> is_readable(rest)
            &&& is_readable(line + seq![13u8, 10u8] + rest) <==> is_readable(rest)
        }),
{
    let line = vstd::utf8::encode_utf8(s);
    vstd::utf8::encode_utf8_valid_utf8(s);
    vstd::utf8::encode_utf8_decode_utf8(s);
    feeds_end_lines(line, rest);
    let plain = line + seq![10u8] + rest;
    assert(payload_bytes(line) == line);
    assert(numbered(plain, base) =~= seq![(base + 1, s)] + numbered(rest, base + 1)) by {
        assert forall|i: int| 0 <= i < complete_lines(plain).len() implies numbered(plain, base)[i]
            == (seq![(base + 1, s)] + numbered(rest, base + 1))[i] by {
            if i > 0 {
                assert(complete_lines(plain)[i] == complete_lines(rest)[i - 1]);
            }
        }
    }
    let carried = line + seq![13u8];
    assert(line + seq![13u8, 10u8] + rest =~= carried + seq![10u8] + rest);
    feeds_end_lines(carried, rest);
    assert(payload_bytes(carried) =~= line);
    let crlf = carried + seq![10u8] + rest;
    assert(numbered(crlf, base) =~= seq![(base + 1, s)] + numbered(rest, base + 1)) by {
        assert forall|i: int| 0 <= i < complete_lines(crlf).len() implies numbered(crlf, base)[i]
            == (seq![(base + 1, s)] + numbered(rest, base + 1))[i] by {
            if i > 0 {
                assert(complete_lines(crlf)[i] == complete_lines(rest)[i - 1]);
            }
        }
    }
}

/// Every line feed ends a line, and nothing else does. What no line feed ends is
/// no line yet. A file is readable where each of its lines is, up to its end.
pub proof fn feeds_end_lines(line: Seq<u8>, rest: Seq<u8>)
    requires
        forall|j: int| 0 <= j < line.len() ==> line[j] != 10,
    ensures
        complete_lines(line).len() == 0,
        complete_len(line) == 0,
        is_readable(line),
        complete_lines(line + seq![10u8] + rest) == seq![line] + complete_lines(rest),
        complete_len(line + seq![10u8] + rest) == line.len() + 1 + complete_len(rest),
        is_readable(line + seq![10u8] + rest) <==> vstd::utf8::valid_utf8(
            if line.len() > 0 && line[line.len() - 1] == 13 {
                line.take(line.len() - 1)
            } else {
                line
            },
        ) && is_readable(rest),
{
    next_feed_is_next(line, 0);
    let all = line + seq![10u8] + rest;
    let k = line.len() as int;
    next_feed_is(all, k);
    assert(all.take(k) =~= line);
    assert(all.skip(k + 1) =~= rest);
    let lines = complete_lines(all);
    assert(lines =~= seq![line] + complete_lines(rest));
    assert(lines[0] == line);
    if line.len() > 0 && line.last() == 13 {
        assert(payload_bytes(line) =~= line.take(line.len() - 1));
    }
    if is_readable(all) {
        assert(vstd::utf8::valid_utf8(payload_bytes(lines[0])));
        assert forall|i: int| 0 <= i < complete_lines(rest).len() implies vstd::utf8::valid_utf8(
            payload_bytes(#[trigger] complete_lines(rest)[i]),
        ) by {
            assert(lines[i + 1] == complete_lines(rest)[i]);
        }
    }
    if vstd::utf8::valid_utf8(payload_bytes(line)) && is_readable(rest) {
        assert forall|i: int| 0 <= i < lines.len() implies vstd::utf8::valid_utf8(
            payload_bytes(#[trigger] lines[i]),
        ) by {
            if i > 0 {
                assert(lines[i] == complete_lines(rest)[i - 1]);
            }
        }
    }
}

/// What is left behind the complete lines holds no line feed.
pub proof fn no_complete_line_is_left(b: Seq<u8>)
    ensures
        0 <= complete_len(b) <= b.len(),
        forall|j: int| complete_len(b) <= j < b.len() ==> b[j] != 10,
    decreases b.len(),
{
    next_feed_is_next(b, 0);
    complete_len_bounds(b);
    if let Some(k) = next_feed(b, 0) {
        let rest = b.skip(k + 1);
        no_complete_line_is_left(rest);
        assert forall|j: int| complete_len(b) <= j < b.len() implies b[j] != 10 by {
            assert(rest[j - k - 1] == b[j]);
        }
    }
}

// ---------------------------------------------------------------------------
// A thread's cursor

/// How far a thread has been read and distilled.
#[derive(Debug, Clone, Copy, PartialEq, Eq, Structural)]
pub struct ThreadCursor {
    /// The bytes of the file that have been taken.
    pub last_offset: i64,
    /// The lines that have been taken.
    pub last_line_no: i64,
    pub last_distilled_line_no: i64,
    /// When the file was last looked at.
    pub last_ingest_ts: i64,
    /// When a line was last taken.
    pub last_growth_ts: Option<i64>,
}

impl ThreadCursor {
    /// Offsets and line numbers count up from zero.
    pub open spec fn wf(self) -> bool {
        self.last_offset >= 0 && self.last_line_no >= 0
    }

    /// The cursor of a thread that is seen for the first time.
    pub fn fresh(now: i64) -> (r: ThreadCursor)
        ensures
            r.wf(),
            r == (ThreadCursor {
                last_offset: 0,
                last_line_no: 0,
                last_distilled_line_no: 0,
                last_ingest_ts: now,
                last_growth_ts: None,
            }),
    {
        ThreadCursor {
            last_offset: 0,
            last_line_no: 0,
            last_distilled_line_no: 0,
            last_ingest_ts: now,
            last_growth_ts: None,
        }
    }
}

/// Where to read on.
#[derive(Debug, Clone, Copy, PartialEq, Eq, Structural)]
pub struct ReadPlan {
    pub seek_offset: i64,
    pub base_line_no: i64,
    /// The file shrank: its stored lines are to be deleted first, and what was
    /// distilled from them no longer counts.
    pub reset: bool,
}

/// Where to read on in a file of this size: after what was taken, or from the
/// start where the file is now shorter than that.
pub open spec fn read_plan(c: ThreadCursor, file_size: int) -> ReadPlan {
    if file_size >= c.last_offset {
        ReadPlan { seek_offset: c.last_offset, base_line_no: c.last_line_no, reset: false }
    } else {
        ReadPlan { seek_offset: 0, base_line_no: 0, reset: true }
    }
}

/// Plans how to read on in a file of this size.
pub fn plan_read(c: &ThreadCursor, file_size: i64) -> (r: ReadPlan)
    ensures
        r == read_plan(*c, file_size as int),
{
    if file_size >= c.last_offset {
        ReadPlan { seek_offset: c.last_offset, base_line_no: c.last_line_no, reset: false }
    } else {
        ReadPlan { seek_offset: 0, base_line_no: 0, reset: true }
    }
}

/// The cursor after a read. It grew only where lines were stored; it was looked
/// at in any case.
pub open spec fn cursor_after(
    c: ThreadCursor,
    plan: ReadPlan,
    consumed: int,
    taken: int,
    stored: int,
    now: i64,
) -> ThreadCursor {
    ThreadCursor {
        last_offset: (plan.seek_offset + consumed) as i64,
        last_line_no: (plan.base_line_no + taken) as i64,
        last_distilled_line_no: if plan.reset {
            0
        } else {
            c.last_distilled_line_no
        },
        last_ingest_ts: now,
        last_growth_ts: if stored > 0 {
            Some(now)
        } else {
            c.last_growth_ts
        },
    }
}

impl ThreadCursor {
    /// Moves the cursor after a read whose lines have been stored; `stored`
    /// says how many of them were not there before.
    pub fn advance(&mut self, plan: &ReadPlan, found: &NewLines, stored: u64, now: i64)
        requires
            plan.seek_offset >= 0,
            plan.base_line_no >= 0,
            plan.seek_offset + found.consumed <= i64::MAX,
            plan.base_line_no + found.lines@.len() <= i64::MAX,
        ensures
            final(self).wf(),
            *final(self) == cursor_after(
                *old(self),
                *plan,
                found.consumed as int,
                found.lines@.len() as int,
                stored as int,
                now,
            ),
    {
        self.last_offset = plan.seek_offset + found.consumed as i64;
        self.last_line_no = plan.base_line_no + found.lines.len() as i64;
        if plan.reset {
            self.last_distilled_line_no = 0;
        }
        self.last_ingest_ts = now;
        if stored > 0 {
            self.last_growth_ts = Some(now);
        }
    }
}

/// What a thread's store holds after reading a file from scratch: its complete
/// lines, numbered from one.
pub open spec fn stored_lines(file: Seq<u8>) -> Seq<(int, Seq<char>)> {
    numbered(file, 0)
}

/// The cursor of a thread whose store reflects `file`.
pub open spec fn is_caught_up(c: ThreadCursor, file: Seq<u8>) -> bool {
    c.last_offset == complete_len(file) && c.last_line_no == complete_lines(file).len()
}

/// A second read, after the file has grown by `more`, adds to the stored lines
/// exactly what makes them those of the grown file, with the numbers running on;
/// and the cursor is caught up again.
pub proof fn appended_lines_are_added(
    c: ThreadCursor,
    file: Seq<u8>,
    more: Seq<u8>,
    stored: int,
    now: i64,
)
    requires
        is_caught_up(c, file),
        file.len() + more.len() <= i64::MAX,
    ensures
        ({
            let grown = file + more;
            let plan = read_plan(c, grown.len() as int);
            let tail = grown.skip(plan.seek_offset as int);
            &&& !plan.reset
            &&& stored_lines(file) + numbered(tail, plan.base_line_no as int) == stored_lines(grown)
            &&& complete_lines(grown).len() <= i64::MAX ==> is_caught_up(
                cursor_after(
                    c,
                    plan,
                    complete_len(tail),
                    complete_lines(tail).len() as int,
                    stored,
                    now,
                ),
                grown,
            )
        }),
{
    let grown = file + more;
    complete_len_bounds(file);
    complete_len_bounds(grown);
    reading_on_finds_the_rest(file, more);
    let plan = read_plan(c, grown.len() as int);
    let tail = grown.skip(plan.seek_offset as int);
    assert(tail == grown.skip(complete_len(file)));
    assert(stored_lines(file) + numbered(tail, plan.base_line_no as int) =~= stored_lines(grown));
}

/// After a file shrank below what was taken, the read starts over: the stored
/// lines are those of the file as it is now, and all of them are to be
/// distilled again.
pub proof fn shrunk_file_is_read_anew(c: ThreadCursor, file: Seq<u8>, stored: int, now: i64)
    requires
        file.len() < c.last_offset,
        complete_lines(file).len() <= i64::MAX,
    ensures
        ({
            let plan = read_plan(c, file.len() as int);
            let tail = file.skip(plan.seek_offset as int);
            let after = cursor_after(
                c,
                plan,
                complete_len(tail),
                complete_lines(tail).len() as int,
                stored,
                now,
            );
            &&& plan.reset
            &&& numbered(tail, plan.base_line_no as int) == stored_lines(file)
            &&& is_caught_up(after, file)
            &&& after.last_distilled_line_no == 0
        }),
{
    complete_len_bounds(file);
    assert(file.skip(0) =~= file);
}

/// The rows of a thread after lines were offered to them: a line whose number
/// is there already is passed over.
pub open spec fn with_new(
    rows: Map<int, Seq<char>>,
    lines: Seq<(int, Seq<char>)>,
) -> Map<int, Seq<char>>
    decreases lines.len(),
{
    if lines.len() == 0 {
        rows
    } else {
        let before = with_new(rows, lines.drop_last());
        if before.contains_key(lines.last().0) {
            before
        } else {
            before.insert(lines.last().0, lines.last().1)
        }
    }
}

/// How many of the lines that were offered were not there before.
pub open spec fn new_count(rows: Map<int, Seq<char>>, lines: Seq<(int, Seq<char>)>) -> nat
    decreases lines.len(),
{
    if lines.len() == 0 {
        0
    } else {
        let before = new_count(rows, lines.drop_last());
        if with_new(rows, lines.drop_last()).contains_key(lines.last().0) {
            before
        } else {
            before + 1
        }
    }
}

/// The rows that reflect a file: its complete lines, numbered from one.
pub open spec fn file_rows(file: Seq<u8>) -> Map<int, Seq<char>> {
    Map::new(
        |n: int| 1 <= n <= complete_lines(file).len(),
        |n: int| stored_lines(file)[n - 1].1,
    )
}

/// Lines that run on after the rows are all stored.
proof fn lines_that_run_on_are_new(
    rows: Map<int, Seq<char>>,
    lines: Seq<(int, Seq<char>)>,
    base: int,
)
    requires
        forall|i: int| 0 <= i < lines.len() ==> (#[trigger] lines[i]).0 == base + 1 + i,
        forall|n: int| #[trigger] rows.contains_key(n) ==> n <= base,
    ensures
        new_count(rows, lines) == lines.len(),
        forall|n: int| #[trigger]
            with_new(rows, lines).contains_key(n) <==> rows.contains_key(n) || base < n <= base
                + lines.len(),
        forall|n: int|
            rows.contains_key(n) ==> #[trigger] with_new(rows, lines)[n] == rows[n],
        forall|n: int|
            base < n <= base + lines.len() ==> #[trigger] with_new(rows, lines)[n] == lines[n - base
                - 1].1,
    decreases lines.len(),
{
    if lines.len() > 0 {
        let init = lines.drop_last();
        assert forall|i: int| 0 <= i < init.len() implies (#[trigger] init[i]).0 == base + 1
            + i by {
            assert(init[i] == lines[i]);
        }
        lines_that_run_on_are_new(rows, init, base);
        assert(lines.last() == lines[lines.len() - 1]);
    }
}

/// Offering lines takes no row away and changes none: a number that is there keeps its
/// text, and a new one has the text that was first offered for it.
pub proof fn stored_rows_stay(rows: Map<int, Seq<char>>, lines: Seq<(int, Seq<char>)>, n: int)
    ensures
        rows.contains_key(n) ==> with_new(rows, lines).contains_key(n) && with_new(rows, lines)[n]
            == rows[n],
        with_new(rows, lines).contains_key(n) <==> rows.contains_key(n) || exists|i: int|
            0 <= i < lines.len() && (#[trigger] lines[i]).0 == n,
        !rows.contains_key(n) && with_new(rows, lines).contains_key(n) ==> exists|i: int|
            0 <= i < lines.len() && #[trigger] lines[i] == (n, with_new(rows, lines)[n]) && forall|
                j: int,
            |
                0 <= j < i ==> (#[trigger] lines[j]).0 != n,
    decreases lines.len(),
{
    if lines.len() > 0 {
        let init = lines.drop_last();
        let last = lines.len() - 1;
        let before = with_new(rows, init);
        stored_rows_stay(rows, init, n);
        assert(lines[last] == lines.last());
        if before.contains_key(n) {
            if !rows.contains_key(n) {
                let i = choose|i: int|
                    0 <= i < init.len() && #[trigger] init[i] == (n, before[n]) && forall|j: int|
                        0 <= j < i ==> (#[trigger] init[j]).0 != n;
                assert(lines[i] == (n, with_new(rows, lines)[n]));
                assert forall|j: int| 0 <= j < i implies (#[trigger] lines[j]).0 != n by {
                    assert(init[j] == lines[j]);
                }
            }
        } else {
            assert forall|j: int| 0 <= j < last implies (#[trigger] lines[j]).0 != n by {
                assert(init[j] == lines[j]);
            }
            if lines.last().0 == n {
                assert(lines[last] == (n, with_new(rows, lines)[n]));
            }
        }
    }
}

/// There are no more complete lines than bytes.
proof fn lines_fit(b: Seq<u8>)
    ensures
        complete_lines(b).len() <= complete_len(b) <= b.len(),
    decreases b.len(),
{
    next_feed_is_next(b, 0);
    if let Some(k) = next_feed(b, 0) {
        lines_fit(b.skip(k + 1));
    }
}

/// One look at a thread's file, from cursor to cursor. Where the bytes that were
/// taken before still stand, or the file is now shorter than they were, the
/// thread's rows end up as the complete lines of the file, no more and no less,
/// and the cursor is caught up with it. Only a file that shrank has its rows
/// deleted and is to be distilled again; and the file counts as grown exactly
/// where a line was stored.
pub proof fn read_reflects_the_file(
    c: ThreadCursor,
    rows: Map<int, Seq<char>>,
    file: Seq<u8>,
    now: i64,
)
    requires
        c.wf(),
        file.len() <= i64::MAX,
        c.last_offset <= file.len() ==> {
            &&& is_caught_up(c, file.take(c.last_offset as int))
            &&& rows == file_rows(file.take(c.last_offset as int))
        },
    ensures
        ({
            let plan = read_plan(c, file.len() as int);
            let tail = file.skip(plan.seek_offset as int);
            let lines = numbered(tail, plan.base_line_no as int);
            let kept = if plan.reset {
                Map::empty()
            } else {
                rows
            };
            let stored = new_count(kept, lines);
            let after = cursor_after(
                c,
                plan,
                complete_len(tail),
                lines.len() as int,
                stored as int,
                now,
            );
            &&& plan.reset <==> file.len() < c.last_offset
            &&& with_new(kept, lines) == file_rows(file)
            &&& is_caught_up(after, file)
            &&& after.wf()
            &&& after.last_distilled_line_no == (if plan.reset {
                0
            } else {
                c.last_distilled_line_no
            })
            &&& stored == lines.len()
            &&& after.last_growth_ts == (if lines.len() > 0 {
                Some(now)
            } else {
                c.last_growth_ts
            })
            &&& after.last_ingest_ts == now
        }),
{
    let plan = read_plan(c, file.len() as int);
    let tail = file.skip(plan.seek_offset as int);
    let lines = numbered(tail, plan.base_line_no as int);
    let kept = if plan.reset {
        Map::empty()
    } else {
        rows
    };
    lines_fit(file);
    if plan.reset {
        shrunk_file_is_read_anew(c, file, new_count(kept, lines) as int, now);
    } else {
        let taken = file.take(c.last_offset as int);
        let more = file.skip(c.last_offset as int);
        assert(taken + more =~= file);
        appended_lines_are_added(c, taken, more, new_count(kept, lines) as int, now);
    }
    lines_that_run_on_are_new(kept, lines, plan.base_line_no as int);
    assert(with_new(kept, lines) =~= file_rows(file)) by {
        let m = with_new(kept, lines);
        let base = plan.base_line_no as int;
        if !plan.reset {
            let taken = file.take(c.last_offset as int);
            assert(complete_lines(file).len() == (stored_lines(taken) + lines).len());
        } else {
            assert(complete_lines(file).len() == lines.len());
        }
        assert forall|n: int| #[trigger] m.contains_key(n) <==> file_rows(file).contains_key(n) by {
            assert(m.contains_key(n) <==> kept.contains_key(n) || base < n <= base + lines.len());
        }
        assert forall|n: int| m.contains_key(n) implies #[trigger] m[n] == file_rows(file)[n] by {
            if kept.contains_key(n) {
                let taken = file.take(c.last_offset as int);
                assert(stored_lines(file)[n - 1] == (stored_lines(taken) + lines)[n - 1]);
                assert(stored_lines(file)[n - 1] == stored_lines(taken)[n - 1]);
            } else if plan.reset {
                assert(stored_lines(file)[n - 1] == lines[n - 1]);
            } else {
                let taken = file.take(c.last_offset as int);
                assert(stored_lines(taken).len() == base);
                assert(stored_lines(file)[n - 1] == (stored_lines(taken) + lines)[n - 1]);
                assert(stored_lines(file)[n - 1] == lines[n - base - 1]);
            }
        }
    }
}

// ---------------------------------------------------------------------------
// The tally of a pass

/// What an ingest pass did.
#[derive(Debug, Clone, Copy, PartialEq, Eq, Structural)]
pub struct IngestStats {
    pub files_seen: u64,
    pub threads_touched: u64,
    pub events_inserted: u64,
}

/// A running tally of an ingest pass.
#[derive(Debug)]
pub struct IngestTally {
    pub files_seen: u64,
    pub events_inserted: u64,
    /// The threads that were touched, each once.
    pub touched: Vec<String>,
}

/// The threads with one more, unless it is already among them.
pub open spec fn touch(touched: Seq<Seq<char>>, id: Seq<char>) -> Seq<Seq<char>> {
    if touched.contains(id) {
        touched
    } else {
        touched.push(id)
    }
}

/// Touching a thread lists it, once, behind those that are listed, and takes none
/// of them away.
pub proof fn touched_threads_are_listed_once(touched: Seq<Seq<char>>, id: Seq<char>)
    requires
        touched.no_duplicates(),
    ensures
        touch(touched, id).no_duplicates(),
        touch(touched, id).contains(id),
        touched.is_prefix_of(touch(touched, id)),
        forall|x: Seq<char>| #[trigger]
            touch(touched, id).contains(x) ==> touched.contains(x) || x == id,
        touch(touch(touched, id), id) == touch(touched, id),
{
    if !touched.contains(id) {
        let t = touched.push(id);
        assert(t[touched.len() as int] == id);
        assert forall|x: Seq<char>| #[trigger] t.contains(x) implies touched.contains(x) || x
            == id by {
            let i = choose|i: int| 0 <= i < t.len() && t[i] == x;
            if i < touched.len() {
                assert(touched[i] == x);
            }
        }
    }
}

impl IngestTally {
    /// No thread is listed twice.
    pub open spec fn wf(self) -> bool {
        text::views(self.touched@).no_duplicates()
    }

    pub fn start(files_seen: u64) -> (r: IngestTally)
        ensures
            r.wf(),
            r.files_seen == files_seen,
            r.events_inserted == 0,
            r.touched@.len() == 0,
    {
        IngestTally { files_seen, events_inserted: 0, touched: Vec::new() }
    }

    /// Counts a file that was read. A file that could not be attributed names no
    /// thread.
    pub fn record(&mut self, thread_id: Option<String>, events_inserted: u64)
        requires
            old(self).wf(),
            old(self).events_inserted + events_inserted <= u64::MAX,
        ensures
            final(self).wf(),
            final(self).files_seen == old(self).files_seen,
            final(self).events_inserted == old(self).events_inserted + events_inserted,
            text::views(final(self).touched@) == (match thread_id {
                Some(id) => touch(text::views(old(self).touched@), id@),
                None => text::views(old(self).touched@),
            }),
    {
        self.events_inserted = self.events_inserted + events_inserted;
        if let Some(id) = thread_id {
            let ghost all = text::views(self.touched@);
            let mut i: usize = 0;
            while i < self.touched.len()
                invariant
                    i <= self.touched@.len(),
                    all == text::views(self.touched@),
                    forall|j: int| 0 <= j < i ==> all[j] != id@,
                    self.files_seen == old(self).files_seen,
                    self.events_inserted == old(self).events_inserted + events_inserted,
                    self.touched@ == old(self).touched@,
                    self.wf(),
                    thread_id == Some(id),
                decreases self.touched@.len() - i,
            {
                assert(all[i as int] == self.touched@[i as int]@);
                if text::same(self.touched[i].as_str(), id.as_str()) {
                    assert(all.contains(id@));
                    return ;
                }
                i += 1;
            }
            assert(!all.contains(id@));
            self.touched.push(id);
            assert(text::views(self.touched@) =~= all.push(id@));
        }
    }

    /// The statistics of the pass.
    pub fn stats(&self) -> (r: IngestStats)
        ensures
            r == (IngestStats {
                files_seen: self.files_seen,
                threads_touched: self.touched@.len() as u64,
                events_inserted: self.events_inserted,
            }),
    {
        IngestStats {
            files_seen: self.files_seen,
            threads_touched: self.touched.len() as u64,
            events_inserted: self.events_inserted,
        }
    }
}

} // verus!
