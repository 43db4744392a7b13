//! Hybrid search: the full-text expression of a query, the fusion of ranked
//! lists, and the shape of a hit.
use crate::bignat::BigNat;
use crate::bignat::Sign;
use crate::embedder::EmbedError;
use crate::text;
use vstd::prelude::*;
use vstd::string::*;

verus! {

/// Hits returned when the caller names no limit.
pub const DEFAULT_SEARCH_LIMIT: usize = 6;

/// The most hits that one search returns.
pub const MAX_SEARCH_LIMIT: usize = 25;

/// The constant of reciprocal rank fusion.
pub const RRF_K: usize = 60;

/// Each ranker is asked for this many times the limit.
pub const SEARCH_POOL_MULTIPLIER: usize = 4;

/// The least that each ranker is asked for.
pub const SEARCH_POOL_MIN: usize = 20;

/// The vector index is asked for this many times the pool, as it cuts before
/// superseded rows are filtered out.
pub const KNN_OVERFETCH: usize = 2;

/// The time limit on embedding a query, in seconds.
pub const QUERY_EMBED_TIMEOUT_SECS: u64 = 8;

/// The most characters of a detail that a hit shows.
pub const MAX_SNIPPET_CHARS: usize = 800;

/// Shorter terms cannot be matched by the trigram index.
pub const FTS_TRIGRAM_MIN: usize = 3;

/// The width of the pieces that a run of CJK characters is cut into.
pub const FTS_CJK_CHUNK: usize = 4;

/// The limit that a request comes to: within one and the maximum, the default
/// where none is named.
pub open spec fn limit_of(requested: Option<u64>) -> int {
    match requested {
        Some(n) => if n < 1 {
            1
        } else if n > MAX_SEARCH_LIMIT {
            MAX_SEARCH_LIMIT as int
        } else {
            n as int
        },
        None => DEFAULT_SEARCH_LIMIT as int,
    }
}

/// Clamps a requested limit.
pub fn clamp_limit(requested: Option<u64>) -> (r: usize)
    ensures
        r == limit_of(requested),
        1 <= r <= MAX_SEARCH_LIMIT,
{
    match requested {
        Some(n) => if n < 1 {
            1
        } else if n > MAX_SEARCH_LIMIT as u64 {
            MAX_SEARCH_LIMIT
        } else {
            n as usize
        },
        None => DEFAULT_SEARCH_LIMIT,
    }
}

/// What is logged for a summary: the text trimmed, unless nothing is left.
pub fn checked_summary<'a>(summary: &'a str) -> (r: Option<&'a str>)
    ensures
        match r {
            Some(s) => s@ == text::trimmed(summary@) && s@.len() > 0,
            None => text::trimmed(summary@).len() == 0,
        },
{
    let s = text::trim(summary);
    if s.is_empty() {
        None
    } else {
        Some(s)
    }
}

// ---------------------------------------------------------------------------
// The full-text expression

/// What `char::is_alphanumeric` says of a character beyond ASCII.
pub uninterp spec fn unicode_alphanumeric(c: char) -> bool;

/// A letter or a number: the ASCII ones in ASCII, by Unicode beyond it.
pub open spec fn is_alphanumeric(c: char) -> bool {
    if c as nat <= 127 {
        '0' <= c <= '9' || 'a' <= c <= 'z' || 'A' <= c <= 'Z'
    } else {
        unicode_alphanumeric(c)
    }
}

/// `char::is_alphanumeric`: in ASCII the letters and digits; beyond it only
/// that the answer is settled by the character is claimed.
#[verifier::external_body]
fn alphanumeric(c: char) -> (r: bool)
    ensures
        c as nat <= 127 ==> r == ('0' <= c <= '9' || 'a' <= c <= 'z' || 'A' <= c <= 'Z'),
        c as nat > 127 ==> r == unicode_alphanumeric(c),
{
    c.is_alphanumeric()
}

/// The runs of letters and numbers of a text, in order; between two separators
/// there is an empty one.
pub open spec fn blocks_from(s: Seq<char>, start: int, i: int) -> Seq<Seq<char>>
    decreases s.len() - i,
{
    if i >= s.len() {
        seq![s.subrange(start, s.len() as int)]
    } else if is_alphanumeric(s[i]) {
        blocks_from(s, start, i + 1)
    } else {
        seq![s.subrange(start, i)] + blocks_from(s, i + 1, i + 1)
    }
}

/// The blocks of a query.
pub open spec fn blocks(query: Seq<char>) -> Seq<Seq<char>> {
    blocks_from(query, 0, 0)
}

/// Splits a query at every character that is neither letter nor number.
pub fn split_blocks(query: &str) -> (r: Vec<String>)
    ensures
        text::views(r@) == blocks(query@),
{
    let v = text::chars_of(query);
    let ghost s = query@;
    let mut out: Vec<String> = Vec::new();
    let mut start: usize = 0;
    let mut i: usize = 0;
    assert(text::views(out@) + blocks_from(s, 0, 0) =~= blocks(s));
    while i < v.len()
        invariant
            v@ == s,
            0 <= start <= i <= v@.len(),
            text::views(out@) + blocks_from(s, start as int, i as int) == blocks(s),
        decreases v@.len() - i,
    {
        if !alphanumeric(v[i]) {
            let ghost before = text::views(out@);
            let block = text::string_of(&v, start, i);
            out.push(block);
            assert(text::views(out@) =~= before.push(block@));
            assert(text::views(out@) + blocks_from(s, i + 1, i + 1) =~= before + blocks_from(
                s,
                start as int,
                i as int,
            ));
            start = i + 1;
        }
        i += 1;
    }
    let ghost before = text::views(out@);
    let block = text::string_of(&v, start, v.len());
    out.push(block);
    assert(text::views(out@) =~= before.push(block@));
    assert(text::views(out@) =~= before + blocks_from(s, start as int, i as int));
    out
}

/// A CJK unified ideograph, extension A included.
pub open spec fn is_cjk(c: char) -> bool {
    '\u{3400}' <= c <= '\u{9FFF}'
}

/// The runs of a block from `start` on, of which `start..i` is known to be of
/// one kind: all CJK, or without any.
pub open spec fn runs_from(s: Seq<char>, start: int, i: int) -> Seq<Seq<char>>
    decreases s.len() - i,
{
    if i >= s.len() {
        seq![s.subrange(start, s.len() as int)]
    } else if is_cjk(s[i]) == is_cjk(s[start]) {
        runs_from(s, start, i + 1)
    } else {
        seq![s.subrange(start, i)] + runs_from(s, i, i + 1)
    }
}

/// The block cut wherever CJK and other characters meet.
pub open spec fn runs(block: Seq<char>) -> Seq<Seq<char>> {
    if block.len() == 0 {
        Seq::empty()
    } else {
        runs_from(block, 0, 1)
    }
}

/// The runs of all blocks, in order.
pub open spec fn all_runs(blocks: Seq<Seq<char>>) -> Seq<Seq<char>>
    decreases blocks.len(),
{
    if blocks.len() == 0 {
        Seq::empty()
    } else {
        all_runs(blocks.drop_last()) + runs(blocks.last())
    }
}

/// The text cut into pieces of four characters that do not overlap; a last
/// piece that is too short to match is left out.
pub open spec fn pieces(s: Seq<char>) -> Seq<Seq<char>>
    decreases s.len(),
{
    if s.len() < FTS_TRIGRAM_MIN {
        Seq::empty()
    } else if s.len() <= FTS_CJK_CHUNK {
        seq![s]
    } else {
        seq![s.take(FTS_CJK_CHUNK as int)] + pieces(s.skip(FTS_CJK_CHUNK as int))
    }
}

/// The terms that a run gives: a CJK run its pieces, another one itself as a
/// whole. One that is too short to match gives none.
pub open spec fn run_terms(run: Seq<char>) -> Seq<Seq<char>> {
    if run.len() < FTS_TRIGRAM_MIN {
        Seq::empty()
    } else if is_cjk(run[0]) {
        pieces(run)
    } else {
        seq![run]
    }
}

/// The terms that the runs give, in order.
pub open spec fn all_terms(runs: Seq<Seq<char>>) -> Seq<Seq<char>>
    decreases runs.len(),
{
    if runs.len() == 0 {
        Seq::empty()
    } else {
        all_terms(runs.drop_last()) + run_terms(runs.last())
    }
}

/// The terms without repetition, each where it first stands.
pub open spec fn distinct(terms: Seq<Seq<char>>) -> Seq<Seq<char>>
    decreases terms.len(),
{
    if terms.len() == 0 {
        Seq::empty()
    } else {
        let before = distinct(terms.drop_last());
        if before.contains(terms.last()) {
            before
        } else {
            before.push(terms.last())
        }
    }
}

/// `s` with every double quote doubled.
pub open spec fn escaped(s: Seq<char>) -> Seq<char>
    decreases s.len(),
{
    if s.len() == 0 {
        Seq::empty()
    } else if s.last() == '"' {
        escaped(s.drop_last()).push('"').push('"')
    } else {
        escaped(s.drop_last()).push(s.last())
    }
}

/// A term as a string literal of the full-text query language.
pub open spec fn quoted(term: Seq<char>) -> Seq<char> {
    seq!['"'] + escaped(term) + seq!['"']
}

pub open spec fn all_quoted(terms: Seq<Seq<char>>) -> Seq<Seq<char>> {
    terms.map_values(|t: Seq<char>| quoted(t))
}

/// The expression that matches any of the blocks' terms.
pub open spec fn match_expression(blocks: Seq<Seq<char>>) -> Option<Seq<char>> {
    let terms = distinct(all_terms(all_runs(blocks)));
    if terms.len() == 0 {
        None
    } else {
        Some(text::joined(all_quoted(terms), " OR "@))
    }
}

fn quote_term(v: &Vec<char>) -> (r: String)
    ensures
        r@ == quoted(v@),
{
    let mut out = String::new();
    out.push('"');
    let mut i: usize = 0;
    assert(out@ =~= seq!['"'] + escaped(v@.take(0)));
    while i < v.len()
        invariant
            i <= v@.len(),
            out@ == seq!['"'] + escaped(v@.take(i as int)),
        decreases v@.len() - i,
    {
        assert(v@.take(i + 1).drop_last() =~= v@.take(i as int));
        if v[i] == '"' {
            out.push('"');
        }
        out.push(v[i]);
        i += 1;
        assert(out@ =~= seq!['"'] + escaped(v@.take(i as int)));
    }
    assert(v@.take(i as int) =~= v@);
    out.push('"');
    assert(out@ =~= quoted(v@));
    out
}

fn contains_term(terms: &Vec<String>, t: &str) -> (r: bool)
    ensures
        r == text::views(terms@).contains(t@),
{
    let mut i: usize = 0;
    let ghost all = text::views(terms@);
    while i < terms.len()
        invariant
            i <= terms@.len(),
            all == text::views(terms@),
            forall|j: int| 0 <= j < i ==> all[j] != t@,
        decreases terms@.len() - i,
    {
        assert(all[i as int] == terms@[i as int]@);
        if text::same(terms[i].as_str(), t) {
            return true;
        }
        i += 1;
    }
    false
}

/// `distinct` of a longer list, term by term.
proof fn distinct_push(terms: Seq<Seq<char>>, t: Seq<char>)
    ensures
        distinct(terms.push(t)) == (if distinct(terms).contains(t) {
            distinct(terms)
        } else {
            distinct(terms).push(t)
        }),
{
    assert(terms.push(t).drop_last() =~= terms);
}

/// The distinct terms met so far, raw and quoted.
struct TermList {
    raw: Vec<String>,
    quoted: Vec<String>,
}

impl TermList {
    spec fn holds(self, terms: Seq<Seq<char>>) -> bool {
        &&& text::views(self.raw@) == distinct(terms)
        &&& text::views(self.quoted@) == all_quoted(distinct(terms))
    }

    fn push(&mut self, t: String, Ghost(terms): Ghost<Seq<Seq<char>>>)
        requires
            old(self).holds(terms),
        ensures
            final(self).holds(terms.push(t@)),
    {
        proof {
            distinct_push(terms, t@);
        }
        if !contains_term(&self.raw, t.as_str()) {
            let ghost raw = text::views(self.raw@);
            let ghost shown = text::views(self.quoted@);
            let q = quote_term(&text::chars_of(t.as_str()));
            self.raw.push(t);
            self.quoted.push(q);
            assert(text::views(self.raw@) =~= raw.push(t@));
            assert(text::views(self.quoted@) =~= shown.push(q@));
            assert(all_quoted(raw.push(t@)) =~= all_quoted(raw).push(quoted(t@)));
        }
    }
}

fn cjk(c: char) -> (r: bool)
    ensures
        r == is_cjk(c),
{
    '\u{3400}' <= c && c <= '\u{9FFF}'
}

/// Adds the runs of a block.
fn add_runs(out: &mut Vec<String>, block: &str)
    ensures
        text::views(final(out)@) == text::views(old(out)@) + runs(block@),
{
    let v = text::chars_of(block);
    let ghost s = block@;
    let ghost wanted = text::views(out@) + runs(s);
    if v.len() == 0 {
        assert(text::views(out@) =~= wanted);
        return;
    }
    let mut start: usize = 0;
    let mut i: usize = 1;
    while i < v.len()
        invariant
            v@ == s,
            0 <= start < i <= v@.len(),
            text::views(out@) + runs_from(s, start as int, i as int) == wanted,
        decreases v@.len() - i,
    {
        if cjk(v[i]) != cjk(v[start]) {
            let ghost before = text::views(out@);
            let run = text::string_of(&v, start, i);
            out.push(run);
            assert(text::views(out@) =~= before.push(run@));
            assert(text::views(out@) + runs_from(s, i as int, i + 1) =~= before + runs_from(
                s,
                start as int,
                i as int,
            ));
            start = i;
        }
        i += 1;
    }
    let ghost before = text::views(out@);
    let run = text::string_of(&v, start, v.len());
    out.push(run);
    assert(text::views(out@) =~= before.push(run@));
    assert(text::views(out@) =~= before + runs_from(s, start as int, i as int));
}

/// Cuts the blocks wherever CJK and other characters meet.
pub fn split_runs(blocks: &Vec<String>) -> (r: Vec<String>)
    ensures
        text::views(r@) == all_runs(text::views(blocks@)),
{
    let ghost all = text::views(blocks@);
    let mut out: Vec<String> = Vec::new();
    let mut i: usize = 0;
    assert(all.take(0) =~= Seq::empty());
    assert(text::views(out@) =~= Seq::empty());
    while i < blocks.len()
        invariant
            i <= blocks@.len(),
            all == text::views(blocks@),
            text::views(out@) == all_runs(all.take(i as int)),
        decreases blocks@.len() - i,
    {
        assert(all.take(i + 1).drop_last() =~= all.take(i as int));
        assert(all[i as int] == blocks@[i as int]@);
        add_runs(&mut out, blocks[i].as_str());
        i += 1;
    }
    assert(all.take(i as int) =~= all);
    out
}

/// The full-text expression that matches any of the blocks.
pub fn match_blocks(blocks: &Vec<String>) -> (r: Option<String>)
    ensures
        text::opt_view(r) == match_expression(text::views(blocks@)),
{
    let runs = split_runs(blocks);
    let ghost all = text::views(runs@);
    let mut list = TermList { raw: Vec::new(), quoted: Vec::new() };
    let ghost mut terms: Seq<Seq<char>> = Seq::empty();
    assert(text::views(list.raw@) =~= distinct(terms));
    assert(text::views(list.quoted@) =~= all_quoted(distinct(terms)));
    assert(all.take(0) =~= Seq::empty());
    let mut b: usize = 0;
    while b < runs.len()
        invariant
            b <= runs@.len(),
            all == text::views(runs@),
            terms == all_terms(all.take(b as int)),
            list.holds(terms),
        decreases runs@.len() - b,
    {
        let v = text::chars_of(runs[b].as_str());
        let ghost before = terms;
        proof {
            assert(all.take(b + 1).drop_last() =~= all.take(b as int));
            assert(all.take(b + 1).last() == v@);
        }
        if v.len() >= FTS_TRIGRAM_MIN {
            if cjk(v[0]) {
                let mut i: usize = 0;
                assert(v@.skip(0) =~= v@);
                assert(before + pieces(v@) =~= terms + pieces(v@));
                while i < v.len()
                    invariant
                        i <= v.len(),
                        before + pieces(v@) == terms + pieces(v@.skip(i as int)),
                        list.holds(terms),
                    decreases v@.len() - i,
                {
                    let left: usize = v.len() - i;
                    let end: usize = if left > FTS_CJK_CHUNK {
                        i + FTS_CJK_CHUNK
                    } else {
                        v.len()
                    };
                    let ghost rest = v@.skip(i as int);
                    if end - i >= FTS_TRIGRAM_MIN {
                        let piece = text::string_of(&v, i, end);
                        list.push(piece, Ghost(terms));
                        proof {
                            assert(piece@ =~= rest.take(end - i));
                            assert(rest.skip(end - i) =~= v@.skip(end as int));
                            let old_terms = terms;
                            terms = terms.push(piece@);
                            if left > FTS_CJK_CHUNK {
                                assert(pieces(rest) == seq![piece@] + pieces(v@.skip(end as int)));
                            } else {
                                assert(rest.take(end - i) =~= rest);
                                assert(pieces(v@.skip(end as int)) =~= Seq::empty());
                            }
                            assert(terms + pieces(v@.skip(end as int)) =~= old_terms + pieces(rest));
                        }
                    } else {
                        proof {
                            assert(pieces(rest) =~= Seq::empty());
                            assert(pieces(v@.skip(end as int)) =~= Seq::empty());
                        }
                    }
                    i = end;
                }
                assert(pieces(v@.skip(i as int)) =~= Seq::empty());
                assert(terms =~= before + pieces(v@));
            } else {
                let run = runs[b].clone();
                list.push(run, Ghost(terms));
                proof {
                    terms = terms.push(run@);
                    assert(terms =~= before + seq![v@]);
                }
            }
        } else {
            assert(before + run_terms(v@) =~= before);
        }
        b += 1;
    }
    assert(all.take(b as int) =~= all);
    if list.quoted.len() == 0 {
        assert(distinct(terms).len() == text::views(list.raw@).len());
        assert(all_quoted(distinct(terms)).len() == distinct(terms).len());
        None
    } else {
        assert(all_quoted(distinct(terms)).len() == distinct(terms).len());
        Some(text::join(&list.quoted, " OR "))
    }
}

/// Turns a free-text query into an expression for the trigram index: words of
/// other scripts as a whole, CJK runs in pieces of four, each quoted, any of
/// which may match. `None` where nothing is long enough.
pub fn build_fts_match(query: &str) -> (r: Option<String>)
    ensures
        text::opt_view(r) == match_expression(blocks(query@)),
{
    match_blocks(&split_blocks(query))
}

proof fn pieces_can_be_matched(s: Seq<char>)
    ensures
        forall|i: int|
            0 <= i < pieces(s).len() ==> (#[trigger] pieces(s)[i]).len() >= FTS_TRIGRAM_MIN,
        s.len() >= FTS_TRIGRAM_MIN ==> pieces(s).len() > 0,
    decreases s.len(),
{
    if s.len() > FTS_CJK_CHUNK {
        let rest = s.skip(FTS_CJK_CHUNK as int);
        pieces_can_be_matched(rest);
        assert forall|i: int| 0 <= i < pieces(s).len() implies (#[trigger] pieces(s)[i]).len()
            >= FTS_TRIGRAM_MIN by {
            if i > 0 {
                assert(pieces(s)[i] == pieces(rest)[i - 1]);
            }
        }
    }
}

proof fn all_terms_can_be_matched(runs: Seq<Seq<char>>)
    ensures
        forall|i: int|
            0 <= i < all_terms(runs).len() ==> (#[trigger] all_terms(runs)[i]).len()
                >= FTS_TRIGRAM_MIN,
        all_terms(runs).len() > 0 <==> exists|k: int|
            0 <= k < runs.len() && (#[trigger] runs[k]).len() >= FTS_TRIGRAM_MIN,
    decreases runs.len(),
{
    if runs.len() > 0 {
        let rest = runs.drop_last();
        let last = runs.len() - 1;
        let before = all_terms(rest);
        let more = run_terms(runs.last());
        all_terms_can_be_matched(rest);
        pieces_can_be_matched(runs.last());
        assert forall|i: int| 0 <= i < all_terms(runs).len() implies (
        #[trigger] all_terms(runs)[i]).len() >= FTS_TRIGRAM_MIN by {
            if i < before.len() {
                assert(all_terms(runs)[i] == before[i]);
            } else {
                assert(all_terms(runs)[i] == more[i - before.len()]);
            }
        }
        if before.len() > 0 {
            let k = choose|k: int|
                0 <= k < rest.len() && (#[trigger] rest[k]).len() >= FTS_TRIGRAM_MIN;
            assert(runs[k].len() >= FTS_TRIGRAM_MIN);
        } else if more.len() > 0 {
            assert(runs[last].len() >= FTS_TRIGRAM_MIN);
        } else {
            assert forall|k: int|
                0 <= k < runs.len() && (#[trigger] runs[k]).len()
                    >= FTS_TRIGRAM_MIN implies false by {
                if k < last {
                    assert(rest[k].len() >= FTS_TRIGRAM_MIN);
                }
            }
        }
    }
}

proof fn distinct_keeps_terms(terms: Seq<Seq<char>>)
    ensures
        distinct(terms).no_duplicates(),
        forall|i: int| 0 <= i < distinct(terms).len() ==> terms.contains(#[trigger] distinct(terms)[i]),
        terms.len() > 0 ==> distinct(terms).len() > 0,
    decreases terms.len(),
{
    if terms.len() > 0 {
        let rest = terms.drop_last();
        let before = distinct(rest);
        distinct_keeps_terms(rest);
        assert forall|i: int| 0 <= i < distinct(terms).len() implies terms.contains(
            #[trigger] distinct(terms)[i],
        ) by {
            if i < before.len() {
                assert(rest.contains(before[i]));
                let j = choose|j: int| 0 <= j < rest.len() && rest[j] == before[i];
                assert(terms[j] == before[i]);
            } else {
                assert(terms[terms.len() - 1] == terms.last());
            }
        }
    }
}

/// Every term is long enough for the index and stands once; and there is an
/// expression exactly when one of the runs is long enough.
pub proof fn terms_can_be_matched(blocks: Seq<Seq<char>>)
    ensures
        distinct(all_terms(all_runs(blocks))).no_duplicates(),
        forall|i: int|
            0 <= i < distinct(all_terms(all_runs(blocks))).len() ==> (#[trigger] distinct(
                all_terms(all_runs(blocks)),
            )[i]).len() >= FTS_TRIGRAM_MIN,
        match_expression(blocks) is Some <==> exists|k: int|
            0 <= k < all_runs(blocks).len() && (#[trigger] all_runs(blocks)[k]).len()
                >= FTS_TRIGRAM_MIN,
{
    let terms = all_terms(all_runs(blocks));
    all_terms_can_be_matched(all_runs(blocks));
    distinct_keeps_terms(terms);
    assert forall|i: int| 0 <= i < distinct(terms).len() implies (#[trigger] distinct(
        terms,
    )[i]).len() >= FTS_TRIGRAM_MIN by {
        assert(terms.contains(distinct(terms)[i]));
        let j = choose|j: int| 0 <= j < terms.len() && terms[j] == distinct(terms)[i];
        assert(terms[j].len() >= FTS_TRIGRAM_MIN);
    }
}

/// The characters are of one kind: all CJK, or none of them.
pub open spec fn is_uniform(s: Seq<char>) -> bool {
    forall|i: int, j: int|
        0 <= i < s.len() && 0 <= j < s.len() ==> is_cjk(#[trigger] s[i]) == is_cjk(
            #[trigger] s[j],
        )
}

proof fn runs_from_are_uniform(s: Seq<char>, start: int, i: int)
    requires
        0 <= start < i <= s.len(),
        is_uniform(s.subrange(start, i)),
    ensures
        runs_from(s, start, i).flatten() == s.skip(start),
        runs_from(s, start, i).len() > 0,
        runs_from(s, start, i)[0].len() > 0,
        runs_from(s, start, i)[0][0] == s[start],
        forall|k: int|
            0 <= k < runs_from(s, start, i).len() ==> (#[trigger] runs_from(s, start, i)[k]).len()
                > 0 && is_uniform(runs_from(s, start, i)[k]),
        forall|k: int|
            #![trigger runs_from(s, start, i)[k]]
            0 < k < runs_from(s, start, i).len() ==> is_cjk(runs_from(s, start, i)[k][0])
                != is_cjk(runs_from(s, start, i)[k - 1][0]),
    decreases s.len() - i,
{
    let all = runs_from(s, start, i);
    if i >= s.len() {
        all.lemma_flatten_one_element();
        assert(s.subrange(start, s.len() as int) =~= s.skip(start));
    } else if is_cjk(s[i]) == is_cjk(s[start]) {
        let now = s.subrange(start, i + 1);
        let before = s.subrange(start, i);
        assert(before[0] == s[start]);
        assert forall|a: int, b: int| 0 <= a < now.len() && 0 <= b < now.len() implies is_cjk(
            #[trigger] now[a],
        ) == is_cjk(#[trigger] now[b]) by {
            if a < before.len() {
                assert(before[a] == now[a]);
            }
            if b < before.len() {
                assert(before[b] == now[b]);
            }
        }
        runs_from_are_uniform(s, start, i + 1);
    } else {
        let first = s.subrange(start, i);
        let rest = runs_from(s, i, i + 1);
        assert(s.subrange(i, i + 1).len() == 1);
        runs_from_are_uniform(s, i, i + 1);
        assert(all.drop_first() =~= rest);
        assert(all[0] == first);
        assert(first + s.skip(i) =~= s.skip(start));
        assert(all.flatten() == first + rest.flatten());
        assert forall|k: int| 0 <= k < all.len() implies (#[trigger] all[k]).len() > 0
            && is_uniform(all[k]) by {
            if k > 0 {
                assert(all[k] == rest[k - 1]);
            }
        }
        assert forall|k: int| #![trigger all[k]] 0 < k < all.len() implies is_cjk(all[k][0])
            != is_cjk(all[k - 1][0]) by {
            assert(all[k] == rest[k - 1]);
            if k > 1 {
                assert(all[k - 1] == rest[k - 2]);
            }
        }
    }
}

/// The runs of a block are the block, one after another. None is empty, each is
/// of one kind, and two neighbours are of different kinds.
pub proof fn runs_rebuild_the_block(block: Seq<char>)
    ensures
        runs(block).flatten() == block,
        forall|k: int|
            0 <= k < runs(block).len() ==> (#[trigger] runs(block)[k]).len() > 0 && is_uniform(
                runs(block)[k],
            ),
        forall|k: int|
            #![trigger runs(block)[k]]
            0 < k < runs(block).len() ==> is_cjk(runs(block)[k][0]) != is_cjk(
                runs(block)[k - 1][0],
            ),
{
    if block.len() > 0 {
        assert(block.subrange(0, 1).len() == 1);
        runs_from_are_uniform(block, 0, 1);
        assert(block.skip(0) =~= block);
    } else {
        assert(runs(block).flatten() =~= block);
    }
}

/// A run of letters and digits that is long enough is a term as a whole.
pub proof fn words_are_matched_whole(runs: Seq<Seq<char>>, k: int)
    requires
        0 <= k < runs.len(),
        runs[k].len() >= FTS_TRIGRAM_MIN,
        !is_cjk(runs[k][0]),
    ensures
        all_terms(runs).contains(runs[k]),
    decreases runs.len(),
{
    let before = all_terms(runs.drop_last());
    let all = all_terms(runs);
    if k == runs.len() - 1 {
        assert(all[before.len() as int] == runs[k]);
    } else {
        words_are_matched_whole(runs.drop_last(), k);
        let j = choose|j: int| 0 <= j < before.len() && before[j] == runs[k];
        assert(all[j] == runs[k]);
    }
}

// ---------------------------------------------------------------------------
// What the full-text expression says

/// Where a string literal that begins before `i` ends: at the first double quote
/// that is not doubled.
pub open spec fn literal_end(e: Seq<char>, i: int) -> Option<int>
    decreases e.len() - i,
{
    if i < 0 || i >= e.len() {
        None
    } else if e[i] != '"' {
        literal_end(e, i + 1)
    } else if i + 1 < e.len() && e[i + 1] == '"' {
        literal_end(e, i + 2)
    } else {
        Some(i)
    }
}

/// `s` with every doubled double quote single.
pub open spec fn unescaped(s: Seq<char>) -> Seq<char>
    decreases s.len(),
{
    if s.len() == 0 {
        Seq::empty()
    } else if s.len() > 1 && s[0] == '"' && s[1] == '"' {
        seq!['"'] + unescaped(s.skip(2))
    } else {
        seq![s[0]] + unescaped(s.skip(1))
    }
}

/// The texts of an expression of string literals with ` OR ` between each two,
/// as the full-text language reads it: a row matches where it holds one of them.
pub open spec fn alternatives(e: Seq<char>) -> Option<Seq<Seq<char>>>
    decreases e.len(),
    via alternatives_decreases
{
    if e.len() == 0 || e[0] != '"' {
        None
    } else {
        match literal_end(e, 1) {
            None => None,
            Some(j) => {
                let first = unescaped(e.subrange(1, j));
                let rest = e.skip(j + 1);
                if rest.len() == 0 {
                    Some(seq![first])
                } else if rest.len() > 4 && rest[0] == ' ' && rest[1] == 'O' && rest[2] == 'R'
                    && rest[3] == ' ' {
                    match alternatives(rest.skip(4)) {
                        Some(more) => Some(seq![first] + more),
                        None => None,
                    }
                } else {
                    None
                }
            },
        }
    }
}

#[via_fn]
proof fn alternatives_decreases(e: Seq<char>) {
    literal_ends_within(e, 1);
}

proof fn literal_ends_within(e: Seq<char>, i: int)
    ensures
        literal_end(e, i) matches Some(j) ==> i <= j < e.len(),
    decreases e.len() - i,
{
    if 0 <= i < e.len() {
        if e[i] != '"' {
            literal_ends_within(e, i + 1);
        } else if i + 1 < e.len() && e[i + 1] == '"' {
            literal_ends_within(e, i + 2);
        }
    }
}

proof fn escaped_front(c: char, rest: Seq<char>)
    ensures
        escaped(seq![c] + rest) == (if c == '"' {
            seq!['"', '"']
        } else {
            seq![c]
        }) + escaped(rest),
    decreases rest.len(),
{
    let s = seq![c] + rest;
    if rest.len() == 0 {
        assert(s.drop_last() =~= Seq::empty());
        assert(escaped(Seq::<char>::empty()) =~= Seq::empty());
        assert(escaped(s) =~= (if c == '"' {
            seq!['"', '"']
        } else {
            seq![c]
        }) + escaped(rest));
    } else {
        assert(s.drop_last() =~= seq![c] + rest.drop_last());
        assert(s.last() == rest.last());
        escaped_front(c, rest.drop_last());
        assert(escaped(s) =~= (if c == '"' {
            seq!['"', '"']
        } else {
            seq![c]
        }) + escaped(rest));
    }
}

proof fn escaped_reads_back(term: Seq<char>, before: Seq<char>, after: Seq<char>)
    requires
        after.len() > 0 ==> after[0] != '"',
    ensures
        unescaped(escaped(term)) == term,
        literal_end(before + escaped(term) + seq!['"'] + after, before.len() as int) == Some(
            (before.len() + escaped(term).len()) as int,
        ),
    decreases term.len(),
{
    let e = before + escaped(term) + seq!['"'] + after;
    let n = before.len() as int;
    if term.len() == 0 {
        assert(escaped(term) =~= Seq::empty());
        assert(unescaped(escaped(term)) =~= term);
        assert(e[n] == '"');
        if n + 1 < e.len() {
            assert(e[n + 1] == after[0]);
        }
    } else {
        let c = term[0];
        let rest = term.skip(1);
        assert(term =~= seq![c] + rest);
        escaped_front(c, rest);
        let own = if c == '"' {
            seq!['"', '"']
        } else {
            seq![c]
        };
        escaped_reads_back(rest, before + own, after);
        assert((before + own) + escaped(rest) + seq!['"'] + after =~= e);
        let w = escaped(term);
        assert(w =~= own + escaped(rest));
        if c == '"' {
            assert(w.skip(2) =~= escaped(rest));
            assert(e[n] == '"' && e[n + 1] == '"');
        } else {
            assert(w.skip(1) =~= escaped(rest));
            assert(e[n] == c);
        }
        assert(unescaped(w) =~= term);
    }
}

proof fn quoted_terms_read_back(terms: Seq<Seq<char>>)
    requires
        terms.len() > 0,
    ensures
        alternatives(text::joined(all_quoted(terms), " OR "@)) == Some(terms),
    decreases terms.len(),
{
    reveal_strlit(" OR ");
    let e = text::joined(all_quoted(terms), " OR "@);
    let first = terms[0];
    let rest = terms.skip(1);
    let q = all_quoted(terms);
    assert(q[0] == quoted(first));
    let inner = escaped(first);
    let n = inner.len() as int;
    if rest.len() == 0 {
        assert(q =~= seq![quoted(first)]);
        assert(e == quoted(first));
        escaped_reads_back(first, seq!['"'], Seq::empty());
        assert(seq!['"'] + inner + seq!['"'] + Seq::empty() =~= e);
        assert(e.subrange(1, 1 + n) =~= inner);
        assert(e.skip(n + 2) =~= Seq::empty());
        assert(seq![first] =~= terms);
    } else {
        let tail = text::joined(all_quoted(rest), " OR "@);
        assert(q =~= seq![quoted(first)] + all_quoted(rest));
        text::texts_are_joined_in_order(seq![quoted(first)], all_quoted(rest), " OR "@);
        quoted_terms_read_back(rest);
        let after = " OR "@ + tail;
        assert(e =~= seq!['"'] + inner + seq!['"'] + after);
        escaped_reads_back(first, seq!['"'], after);
        assert(e.subrange(1, 1 + n) =~= inner);
        let left = e.skip(n + 2);
        assert(left =~= after);
        assert(alternatives(tail) == Some(rest));
        assert(tail.len() > 0);
        assert(left.skip(4) =~= tail);
        assert(seq![first] + rest =~= terms);
    }
}

/// Reading the expression back gives the terms, one after another, as
/// alternatives: a row is found as soon as it holds one of them.
pub proof fn expression_offers_each_term(blocks: Seq<Seq<char>>)
    ensures
        match match_expression(blocks) {
            Some(e) => alternatives(e) == Some(distinct(all_terms(all_runs(blocks)))),
            None => all_terms(all_runs(blocks)).len() == 0,
        },
{
    let terms = all_terms(all_runs(blocks));
    distinct_keeps_terms(terms);
    if distinct(terms).len() > 0 {
        quoted_terms_read_back(distinct(terms));
    }
}

/// A text without separators is one block, and a separator parts the blocks of
/// what stands before it from those of what stands behind.
pub proof fn separators_part_blocks(a: Seq<char>, c: char, b: Seq<char>)
    requires
        !is_alphanumeric(c),
    ensures
        blocks(a + seq![c] + b) == blocks(a) + blocks(b),
        (forall|i: int| 0 <= i < a.len() ==> is_alphanumeric(#[trigger] a[i])) ==> blocks(a)
            == seq![a],
{
    parted_blocks(a, c, b, 0, 0);
    let whole = a + seq![c] + b;
    assert(blocks(whole) == blocks(a) + blocks(b));
    if forall|i: int| 0 <= i < a.len() ==> is_alphanumeric(#[trigger] a[i]) {
        lone_block(a, 0);
        assert(a.subrange(0, a.len() as int) =~= a);
    }
}

proof fn lone_block(s: Seq<char>, i: int)
    requires
        0 <= i <= s.len(),
        forall|k: int| 0 <= k < s.len() ==> is_alphanumeric(#[trigger] s[k]),
    ensures
        blocks_from(s, 0, i) == seq![s.subrange(0, s.len() as int)],
    decreases s.len() - i,
{
    if i < s.len() {
        assert(is_alphanumeric(s[i]));
        lone_block(s, i + 1);
    }
}

proof fn parted_blocks(a: Seq<char>, c: char, b: Seq<char>, start: int, i: int)
    requires
        !is_alphanumeric(c),
        0 <= start <= i <= a.len(),
    ensures
        blocks_from(a + seq![c] + b, start, i) == blocks_from(a, start, i) + blocks(b),
    decreases a.len() - i,
{
    let s = a + seq![c] + b;
    if i == a.len() {
        assert(s[i] == c);
        assert(s.subrange(start, i) =~= a.subrange(start, a.len() as int));
        assert(s.skip(i + 1) =~= b);
        moved_blocks(s, b, i + 1, 0, 0);
        assert(blocks_from(s, start, i) =~= blocks_from(a, start, i) + blocks(b));
    } else {
        assert(s[i] == a[i]);
        if is_alphanumeric(a[i]) {
            parted_blocks(a, c, b, start, i + 1);
        } else {
            parted_blocks(a, c, b, i + 1, i + 1);
            assert(s.subrange(start, i) =~= a.subrange(start, i));
            assert(blocks_from(s, start, i) =~= blocks_from(a, start, i) + blocks(b));
        }
    }
}

proof fn moved_blocks(s: Seq<char>, b: Seq<char>, n: int, start: int, i: int)
    requires
        0 <= n <= s.len(),
        b == s.skip(n),
        0 <= start <= i <= b.len(),
    ensures
        blocks_from(s, n + start, n + i) == blocks_from(b, start, i),
    decreases b.len() - i,
{
    if i == b.len() {
        assert(s.subrange(n + start, s.len() as int) =~= b.subrange(start, b.len() as int));
    } else {
        assert(s[n + i] == b[i]);
        if is_alphanumeric(b[i]) {
            moved_blocks(s, b, n, start, i + 1);
        } else {
            moved_blocks(s, b, n, i + 1, i + 1);
            assert(s.subrange(n + start, n + i) =~= b.subrange(start, i));
        }
    }
}

/// In ASCII the letters and the digits make up words, and every other character parts them.
pub proof fn letters_and_digits_make_words(c: char)
    requires
        c as nat <= 0x7f,
    ensures
        is_alphanumeric(c) <==> 0x30 <= c as nat <= 0x39 || 0x41 <= c as nat <= 0x5a || 0x61
            <= c as nat <= 0x7a,
{
}

/// The pieces of a run are its characters in order, four to a piece; only a rest
/// of fewer than three is left out.
pub proof fn pieces_cover_the_run(s: Seq<char>)
    ensures
        forall|m: int|
            0 <= m < pieces(s).len() ==> #[trigger] pieces(s)[m] == s.subrange(
                4 * m,
                if 4 * m + 4 <= s.len() {
                    4 * m + 4
                } else {
                    s.len() as int
                },
            ),
        4 * pieces(s).len() <= s.len() + 1,
        s.len() < 4 * pieces(s).len() + 3,
    decreases s.len(),
{
    if s.len() > 4 {
        let rest = s.skip(4);
        pieces_cover_the_run(rest);
        assert forall|m: int| 0 <= m < pieces(s).len() implies #[trigger] pieces(s)[m]
            == s.subrange(
            4 * m,
            if 4 * m + 4 <= s.len() {
                4 * m + 4
            } else {
                s.len() as int
            },
        ) by {
            if m > 0 {
                assert(pieces(s)[m] == pieces(rest)[m - 1]);
                assert(rest.subrange(
                    4 * (m - 1),
                    if 4 * (m - 1) + 4 <= rest.len() {
                        4 * (m - 1) + 4
                    } else {
                        rest.len() as int
                    },
                ) =~= s.subrange(
                    4 * m,
                    if 4 * m + 4 <= s.len() {
                        4 * m + 4
                    } else {
                        s.len() as int
                    },
                ));
            } else {
                assert(s.take(4) =~= s.subrange(0, 4));
            }
        }
    } else if s.len() >= 3 {
        assert(s.subrange(0, s.len() as int) =~= s);
    }
}

/// Every run that is long enough is looked for: as a whole where it is no CJK
/// text, else by its pieces. The terms of two lists are those of the one before
/// those of the other, and a term that comes again is left out.
pub proof fn terms_are_the_runs(a: Seq<Seq<char>>, b: Seq<Seq<char>>, run: Seq<char>)
    ensures
        all_terms(a + b) == all_terms(a) + all_terms(b),
        all_terms(seq![run]) == (if run.len() < 3 {
            Seq::empty()
        } else if is_cjk(run[0]) {
            pieces(run)
        } else {
            seq![run]
        }),
        all_runs(a + b) == all_runs(a) + all_runs(b),
        all_runs(seq![run]) == runs(run),
        distinct(a).is_prefix_of(distinct(a + b)),
        forall|t: Seq<char>| #[trigger] distinct(a).contains(t) <==> a.contains(t),
    decreases b.len(),
{
    distinct_keeps_all(a);
    assert(seq![run].drop_last() =~= Seq::empty());
    assert(all_terms(Seq::<Seq<char>>::empty()) =~= Seq::empty());
    assert(all_terms(seq![run]) =~= run_terms(run));
    assert(all_runs(Seq::<Seq<char>>::empty()) =~= Seq::empty());
    assert(all_runs(seq![run]) =~= runs(run));
    if b.len() == 0 {
        assert(a + b =~= a);
        assert(all_terms(a) + all_terms(b) =~= all_terms(a));
        assert(all_runs(a) + all_runs(b) =~= all_runs(a));
    } else {
        assert((a + b).drop_last() =~= a + b.drop_last());
        terms_are_the_runs(a, b.drop_last(), run);
        assert(all_terms(a + b) =~= all_terms(a) + all_terms(b));
        assert(all_runs(a + b) =~= all_runs(a) + all_runs(b));
    }
}

proof fn distinct_keeps_all(terms: Seq<Seq<char>>)
    ensures
        forall|t: Seq<char>| #[trigger] distinct(terms).contains(t) <==> terms.contains(t),
    decreases terms.len(),
{
    distinct_keeps_terms(terms);
    if terms.len() > 0 {
        let rest = terms.drop_last();
        distinct_keeps_all(rest);
        assert forall|t: Seq<char>| #[trigger] distinct(terms).contains(t) <==> terms.contains(
            t,
        ) by {
            if distinct(terms).contains(t) {
                let i = choose|i: int| 0 <= i < distinct(terms).len() && distinct(terms)[i] == t;
                assert(terms.contains(distinct(terms)[i]));
            }
            if terms.contains(t) {
                let i = choose|i: int| 0 <= i < terms.len() && terms[i] == t;
                if i < rest.len() {
                    assert(rest[i] == t);
                    assert(rest.contains(t));
                    assert(distinct(rest).contains(t));
                    let k = choose|k: int| 0 <= k < distinct(rest).len() && distinct(rest)[k] == t;
                    assert(distinct(terms)[k] == t);
                } else if !distinct(rest).contains(t) {
                    assert(distinct(terms)[distinct(rest).len() as int] == t);
                }
            }
        }
    } else {
        assert(distinct(terms) =~= terms);
    }
}

// ---------------------------------------------------------------------------
// Hits

/// A search hit.
#[derive(Debug, Clone, PartialEq, Eq)]
pub struct MemoryHit {
    pub id: i64,
    pub ts: i64,
    pub summary: String,
    /// The detail, cut to a bounded length.
    pub snippet: String,
}

/// One entry of the log.
#[derive(Debug, Clone, PartialEq, Eq)]
pub struct MemoryEntry {
    pub id: i64,
    pub found: bool,
    pub ts: i64,
    pub summary: String,
    pub detail: Option<String>,
}

/// A row of the log as it is read for a hit.
#[derive(Debug, Clone)]
pub struct LogText {
    pub ts: i64,
    pub summary: String,
    pub detail: Option<String>,
}

/// The text, cut with an ellipsis where it is too long.
pub open spec fn snippet_of(body: Seq<char>) -> Seq<char> {
    if body.len() <= MAX_SNIPPET_CHARS {
        body
    } else {
        body.take(MAX_SNIPPET_CHARS as int) + "…"@
    }
}

/// Cuts a text to the length of a snippet.
pub fn truncate_snippet(body: &str) -> (r: String)
    ensures
        r@ == snippet_of(body@),
{
    if body.unicode_len() <= MAX_SNIPPET_CHARS {
        body.to_owned()
    } else {
        text::head(body, MAX_SNIPPET_CHARS).to_owned().concat("…")
    }
}

#[verifier::ext_equal]
pub ghost struct HitView {
    pub id: i64,
    pub ts: i64,
    pub summary: Seq<char>,
    pub snippet: Seq<char>,
}

impl View for MemoryHit {
    type V = HitView;

    open spec fn view(&self) -> HitView {
        HitView { id: self.id, ts: self.ts, summary: self.summary@, snippet: self.snippet@ }
    }
}

/// What a row of the log says.
#[verifier::ext_equal]
pub ghost struct TextView {
    pub ts: i64,
    pub summary: Seq<char>,
    pub detail: Option<Seq<char>>,
}

impl View for LogText {
    type V = TextView;

    open spec fn view(&self) -> TextView {
        TextView { ts: self.ts, summary: self.summary@, detail: text::opt_view(self.detail) }
    }
}

/// What the log has under an id, if anything.
pub open spec fn row_view(row: Option<LogText>) -> Option<TextView> {
    match row {
        Some(x) => Some(x@),
        None => None,
    }
}

pub open spec fn row_views(rows: Seq<Option<LogText>>) -> Seq<Option<TextView>> {
    rows.map_values(|row: Option<LogText>| row_view(row))
}

/// The hit that a row makes.
pub open spec fn hit_of(id: i64, row: TextView) -> HitView {
    HitView {
        id,
        ts: row.ts,
        summary: row.summary,
        snippet: match row.detail {
            Some(d) => snippet_of(d),
            None => snippet_of(Seq::empty()),
        },
    }
}

/// The hits that the ids make, in order; an id without a row is passed over.
pub open spec fn hits_of(ids: Seq<i64>, rows: Seq<Option<TextView>>) -> Seq<HitView>
    decreases ids.len(),
{
    if ids.len() == 0 {
        Seq::empty()
    } else {
        let before = hits_of(ids.drop_last(), rows);
        match rows[ids.len() - 1] {
            Some(row) => before.push(hit_of(ids.last(), row)),
            None => before,
        }
    }
}

fn make_hit(id: i64, row: &LogText) -> (r: MemoryHit)
    ensures
        r@ == hit_of(id, row@),
{
    proof {
        reveal_strlit("");
        assert(""@ =~= Seq::<char>::empty());
    }
    let snippet = match &row.detail {
        Some(d) => truncate_snippet(d.as_str()),
        None => truncate_snippet(""),
    };
    MemoryHit { id, ts: row.ts, summary: row.summary.clone(), snippet }
}

/// Makes the hits for the merged ids. `rows` holds what the log has for each.
pub fn hits_in_order(ids: &Vec<i64>, rows: &Vec<Option<LogText>>) -> (r: Vec<MemoryHit>)
    requires
        ids@.len() == rows@.len(),
    ensures
        r@.map_values(|h: MemoryHit| h@) == hits_of(ids@, row_views(rows@)),
{
    let mut out: Vec<MemoryHit> = Vec::new();
    let mut i: usize = 0;
    assert(ids@.take(0) =~= Seq::empty());
    assert(out@.map_values(|h: MemoryHit| h@) =~= Seq::empty());
    while i < ids.len()
        invariant
            ids@.len() == rows@.len(),
            i <= ids@.len(),
            out@.map_values(|h: MemoryHit| h@) == hits_of(ids@.take(i as int), row_views(rows@)),
        decreases ids@.len() - i,
    {
        assert(ids@.take(i + 1).drop_last() =~= ids@.take(i as int));
        assert(row_views(rows@)[i as int] == row_view(rows@[i as int]));
        if let Some(row) = &rows[i] {
            let ghost before = out@.map_values(|h: MemoryHit| h@);
            let hit = make_hit(ids[i], row);
            out.push(hit);
            assert(out@.map_values(|h: MemoryHit| h@) =~= before.push(hit@));
        }
        i += 1;
    }
    assert(ids@.take(i as int) =~= ids@);
    out
}

#[verifier::ext_equal]
pub ghost struct EntryView {
    pub id: i64,
    pub found: bool,
    pub ts: i64,
    pub summary: Seq<char>,
    pub detail: Option<Seq<char>>,
}

impl View for MemoryEntry {
    type V = EntryView;

    open spec fn view(&self) -> EntryView {
        EntryView {
            id: self.id,
            found: self.found,
            ts: self.ts,
            summary: self.summary@,
            detail: text::opt_view(self.detail),
        }
    }
}

/// The row that a progress note makes; none where its summary is blank.
pub open spec fn noted(now: i64, summary: Seq<char>, detail: Option<Seq<char>>) -> Option<
    TextView,
> {
    if text::trimmed(summary).len() == 0 {
        None
    } else {
        Some(TextView { ts: now, summary: text::trimmed(summary), detail })
    }
}

/// The entry for an id, given the row that the log has under it.
pub open spec fn entry_for(id: i64, row: Option<TextView>) -> EntryView {
    match row {
        Some(x) => EntryView {
            id,
            found: true,
            ts: x.ts,
            summary: x.summary,
            detail: x.detail,
        },
        None => EntryView { id, found: false, ts: 0, summary: Seq::empty(), detail: None },
    }
}

/// Makes the row of a progress note; `None` where its summary is blank.
pub fn log_progress(now: i64, summary: &str, detail: Option<&str>) -> (r: Option<LogText>)
    ensures
        match r {
            Some(row) => noted(now, summary@, text::opt_str_view(detail)) == Some(row@),
            None => noted(now, summary@, text::opt_str_view(detail)) is None,
        },
{
    match checked_summary(summary) {
        Some(s) => {
            let detail = match detail {
                Some(d) => Some(d.to_owned()),
                None => None,
            };
            Some(LogText { ts: now, summary: s.to_owned(), detail })
        },
        None => None,
    }
}

/// The entry for an id: a missing row is no error.
pub fn get(id: i64, row: Option<LogText>) -> (r: MemoryEntry)
    ensures
        r@ == entry_for(id, row_view(row)),
{
    match row {
        Some(x) => MemoryEntry { id, found: true, ts: x.ts, summary: x.summary, detail: x.detail },
        None => MemoryEntry { id, found: false, ts: 0, summary: String::new(), detail: None },
    }
}

/// The row that the log has under an id.
pub open spec fn row_under(log: Map<i64, TextView>, id: i64) -> Option<TextView> {
    if log.contains_key(id) {
        Some(log[id])
    } else {
        None
    }
}

/// A note that was logged under an id is read back as it was given, with its
/// summary trimmed; what the log has under other ids is read as before. An id
/// without a row is read as not found, which is no error.
pub proof fn logged_note_is_read_back(
    log: Map<i64, TextView>,
    id: i64,
    now: i64,
    summary: Seq<char>,
    detail: Option<Seq<char>>,
)
    ensures
        text::trimmed(summary).len() == 0 <==> noted(now, summary, detail) is None,
        noted(now, summary, detail) matches Some(row) ==> {
            let after = log.insert(id, row);
            &&& entry_for(id, row_under(after, id)) == (EntryView {
                id,
                found: true,
                ts: now,
                summary: text::trimmed(summary),
                detail,
            })
            &&& forall|k: i64|
                k != id ==> #[trigger] entry_for(k, row_under(after, k)) == entry_for(
                    k,
                    row_under(log, k),
                )
        },
        forall|k: i64|
            !log.contains_key(k) ==> #[trigger] entry_for(k, row_under(log, k)) == (EntryView {
                id: k,
                found: false,
                ts: 0,
                summary: Seq::empty(),
                detail: None,
            }),
{
}

// ---------------------------------------------------------------------------
// Reciprocal rank fusion

/// The denominators that an id earns in one list: the fusion constant plus its
/// rank, counted from one, for each place where it stands.
pub open spec fn places(list: Seq<i64>, id: i64) -> Seq<int>
    decreases list.len(),
{
    if list.len() == 0 {
        Seq::empty()
    } else {
        let before = places(list.drop_last(), id);
        if list.last() == id {
            before.push(RRF_K + list.len())
        } else {
            before
        }
    }
}

/// The denominators that an id earns in all lists.
pub open spec fn all_places(lists: Seq<Seq<i64>>, id: i64) -> Seq<int>
    decreases lists.len(),
{
    if lists.len() == 0 {
        Seq::empty()
    } else {
        all_places(lists.drop_last(), id) + places(lists.last(), id)
    }
}

/// An exact fraction.
pub ghost struct Fraction {
    pub num: int,
    pub den: int,
}

/// The sum of the reciprocals of the denominators.
pub open spec fn sum_of_reciprocals(denoms: Seq<int>) -> Fraction
    decreases denoms.len(),
{
    if denoms.len() == 0 {
        Fraction { num: 0, den: 1 }
    } else {
        let before = sum_of_reciprocals(denoms.drop_last());
        let k = denoms.last();
        Fraction { num: before.num * k + before.den, den: before.den * k }
    }
}

impl Fraction {
    /// Whether the fraction is larger; denominators are positive.
    pub open spec fn exceeds(self, other: Fraction) -> bool {
        self.num * other.den > other.num * self.den
    }
}

/// The score of an id: the sum of `1 / (RRF_K + rank)` over the places where it
/// stands, exactly.
pub open spec fn score(lists: Seq<Seq<i64>>, id: i64) -> Fraction {
    sum_of_reciprocals(all_places(lists, id))
}

/// `x` ranks before `y`: by a higher score, or by the smaller id of two with
/// the same score.
pub open spec fn ranks_before(lists: Seq<Seq<i64>>, x: i64, y: i64) -> bool {
    ||| score(lists, x).exceeds(score(lists, y))
    ||| !score(lists, y).exceeds(score(lists, x)) && x < y
}

/// The id stands in one of the lists.
pub open spec fn stands_in(lists: Seq<Seq<i64>>, id: i64) -> bool {
    exists|i: int| 0 <= i < lists.len() && (#[trigger] lists[i]).contains(id)
}

/// `ranking` holds every id of the lists once, in the order of rank.
pub open spec fn is_ranking(lists: Seq<Seq<i64>>, ranking: Seq<i64>) -> bool {
    &&& forall|id: i64| #[trigger] ranking.contains(id) <==> stands_in(lists, id)
    &&& forall|i: int, j: int|
        0 <= i < j < ranking.len() ==> ranks_before(
            lists,
            #[trigger] ranking[i],
            #[trigger] ranking[j],
        )
}

/// `merged` is the head of the ranking of the lists, `limit` long where there
/// are that many.
pub open spec fn is_merge(lists: Seq<Seq<i64>>, limit: int, merged: Seq<i64>) -> bool {
    exists|ranking: Seq<i64>| #[trigger]
        is_ranking(lists, ranking) && merged == ranking.take(
            if limit < ranking.len() {
                limit
            } else {
                ranking.len() as int
            },
        )
}

/// Denominators are positive, and so is what they multiply up to.
spec fn all_positive(denoms: Seq<int>) -> bool {
    forall|i: int| 0 <= i < denoms.len() ==> #[trigger] denoms[i] > 0
}

proof fn sum_den_positive(denoms: Seq<int>)
    requires
        all_positive(denoms),
    ensures
        sum_of_reciprocals(denoms).den > 0,
        sum_of_reciprocals(denoms).num >= 0,
    decreases denoms.len(),
{
    if denoms.len() > 0 {
        assert(all_positive(denoms.drop_last())) by {
            assert forall|i: int| 0 <= i < denoms.drop_last().len() implies #[trigger] denoms.drop_last()[i]
                > 0 by {
                assert(denoms.drop_last()[i] == denoms[i]);
            }
        }
        sum_den_positive(denoms.drop_last());
        let d = sum_of_reciprocals(denoms.drop_last()).den;
        let n = sum_of_reciprocals(denoms.drop_last()).num;
        let k = denoms[denoms.len() - 1];
        assert(d * k > 0) by (nonlinear_arith)
            requires
                d > 0,
                k > 0,
        ;
        assert(n * k >= 0) by (nonlinear_arith)
            requires
                n >= 0,
                k > 0,
        ;
    }
}

proof fn places_positive(list: Seq<i64>, id: i64)
    ensures
        all_positive(places(list, id)),
    decreases list.len(),
{
    if list.len() > 0 {
        places_positive(list.drop_last(), id);
    }
}

proof fn all_places_positive(lists: Seq<Seq<i64>>, id: i64)
    ensures
        all_positive(all_places(lists, id)),
    decreases lists.len(),
{
    if lists.len() > 0 {
        all_places_positive(lists.drop_last(), id);
        places_positive(lists.last(), id);
    }
}

proof fn score_positive(lists: Seq<Seq<i64>>, id: i64)
    ensures
        score(lists, id).den > 0,
{
    all_places_positive(lists, id);
    sum_den_positive(all_places(lists, id));
}

proof fn not_less_transitive(a: Fraction, b: Fraction, c: Fraction)
    requires
        a.den > 0,
        b.den > 0,
        c.den > 0,
        !b.exceeds(a),
        !c.exceeds(b),
    ensures
        !c.exceeds(a),
        a.exceeds(b) || b.exceeds(c) ==> a.exceeds(c),
{
    let (an, ad, bn, bd, cn, cd) = (a.num, a.den, b.num, b.den, c.num, c.den);
    let p = an * bd;
    let q = bn * ad;
    let r = bn * cd;
    let t = cn * bd;
    // p >= q and r >= t
    assert(p * cd >= q * cd) by (nonlinear_arith)
        requires
            p >= q,
            cd > 0,
    ;
    assert(r * ad >= t * ad) by (nonlinear_arith)
        requires
            r >= t,
            ad > 0,
    ;
    if p > q {
        assert(p * cd > q * cd) by (nonlinear_arith)
            requires
                p > q,
                cd > 0,
        ;
    }
    if r > t {
        assert(r * ad > t * ad) by (nonlinear_arith)
            requires
                r > t,
                ad > 0,
        ;
    }
    assert(p * cd == (an * cd) * bd) by (nonlinear_arith)
        requires
            p == an * bd,
    ;
    assert(q * cd == r * ad) by (nonlinear_arith)
        requires
            q == bn * ad,
            r == bn * cd,
    ;
    assert(t * ad == (cn * ad) * bd) by (nonlinear_arith)
        requires
            t == cn * bd,
    ;
    let u = an * cd;
    let v = cn * ad;
    assert(u >= v) by (nonlinear_arith)
        requires
            u * bd >= v * bd,
            bd > 0,
    ;
    if u * bd > v * bd {
        assert(u > v) by (nonlinear_arith)
            requires
                u * bd > v * bd,
                bd > 0,
        ;
    }
}

proof fn ranks_before_transitive(lists: Seq<Seq<i64>>, x: i64, y: i64, z: i64)
    requires
        ranks_before(lists, x, y),
        ranks_before(lists, y, z),
    ensures
        ranks_before(lists, x, z),
{
    score_positive(lists, x);
    score_positive(lists, y);
    score_positive(lists, z);
    not_less_transitive(score(lists, x), score(lists, y), score(lists, z));
}

/// There is only one ranking of given lists.
pub proof fn ranking_is_unique(lists: Seq<Seq<i64>>, r1: Seq<i64>, r2: Seq<i64>)
    requires
        is_ranking(lists, r1),
        is_ranking(lists, r2),
    ensures
        r1 == r2,
{
    ranking_prefix_is_unique(lists, r1, r2, r1.len());
    ranking_prefix_is_unique(lists, r2, r1, r2.len());
    assert(r1 =~= r2);
}

/// The first `n` of one ranking are the first `n` of any other.
proof fn ranking_prefix_is_unique(
    lists: Seq<Seq<i64>>,
    r1: Seq<i64>,
    r2: Seq<i64>,
    n: nat,
)
    requires
        is_ranking(lists, r1),
        is_ranking(lists, r2),
        n <= r1.len(),
    ensures
        n <= r2.len(),
        forall|i: int| 0 <= i < n ==> r1[i] == r2[i],
    decreases n,
{
    if n > 0 {
        let k = n - 1;
        ranking_prefix_is_unique(lists, r1, r2, k as nat);
        let x = r1[k];
        assert(r1.contains(x));
        assert(r2.contains(x));
        let j = choose|j: int| 0 <= j < r2.len() && r2[j] == x;
        if j < k {
            assert(r1[j] == r2[j]);
            assert(ranks_before(lists, r1[j], r1[k]));
        }
        assert(j >= k);
        let y = r2[k];
        assert(r2.contains(y));
        assert(r1.contains(y));
        let i = choose|i: int| 0 <= i < r1.len() && r1[i] == y;
        if i < k {
            assert(r2[i] == y);
            assert(ranks_before(lists, r2[i], r2[k]));
        }
        if j > k {
            assert(ranks_before(lists, r2[k], r2[j]));
            if i > k {
                assert(ranks_before(lists, r1[k], r1[i]));
            }
        }
    }
}

/// An id with its score.
struct Scored {
    id: i64,
    denoms: Vec<u128>,
    num: BigNat,
    den: BigNat,
}

spec fn as_ints(denoms: Seq<u128>) -> Seq<int> {
    denoms.map_values(|d: u128| d as int)
}

impl Scored {
    spec fn holds(self, denoms: Seq<int>) -> bool {
        &&& as_ints(self.denoms@) == denoms
        &&& forall|i: int|
            0 <= i < self.denoms@.len() ==> 0 < #[trigger] self.denoms@[i]
                < 0x1_0000_0000_0000_0000_0000
        &&& self.num@ == sum_of_reciprocals(denoms).num
        &&& self.den@ == sum_of_reciprocals(denoms).den
    }

    fn new(id: i64) -> (r: Scored)
        ensures
            r.id == id,
            r.holds(Seq::empty()),
    {
        let r = Scored { id, denoms: Vec::new(), num: BigNat::zero(), den: BigNat::one() };
        assert(as_ints(r.denoms@) =~= Seq::empty());
        r
    }

    fn add_place(&mut self, k: u128, Ghost(denoms): Ghost<Seq<int>>)
        requires
            old(self).holds(denoms),
            0 < k < 0x1_0000_0000_0000_0000_0000,
        ensures
            final(self).id == old(self).id,
            final(self).holds(denoms.push(k as int)),
    {
        let num = self.num.times(k).plus(&self.den);
        let den = self.den.times(k);
        self.num = num;
        self.den = den;
        self.denoms.push(k);
        proof {
            assert(denoms.push(k as int).drop_last() =~= denoms);
            assert(as_ints(self.denoms@) =~= denoms.push(k as int));
        }
    }

    /// `n` times the product of the denominators.
    fn scale(&self, n: &BigNat, Ghost(denoms): Ghost<Seq<int>>) -> (r: BigNat)
        requires
            self.holds(denoms),
        ensures
            r@ == n@ * sum_of_reciprocals(denoms).den,
    {
        let mut acc = n.times(1);
        let mut i: usize = 0;
        assert(denoms.take(0) =~= Seq::empty());
        while i < self.denoms.len()
            invariant
                i <= self.denoms@.len(),
                self.holds(denoms),
                acc@ == n@ * sum_of_reciprocals(denoms.take(i as int)).den,
            decreases self.denoms@.len() - i,
        {
            let k: u128 = self.denoms[i];
            proof {
                assert(denoms[i as int] == as_ints(self.denoms@)[i as int]);
                assert(denoms.take(i + 1).drop_last() =~= denoms.take(i as int));
                let d = sum_of_reciprocals(denoms.take(i as int)).den;
                assert((n@ * d) * k == n@ * (d * k)) by (nonlinear_arith);
            }
            acc = acc.times(k);
            i += 1;
        }
        assert(denoms.take(i as int) =~= denoms);
        acc
    }
}

/// The lists as sequences.
pub open spec fn list_views(lists: Seq<&[i64]>) -> Seq<Seq<i64>> {
    lists.map_values(|l: &[i64]| l@)
}

/// The ids of the entries.
spec fn entry_ids(entries: Seq<Scored>) -> Seq<i64> {
    entries.map_values(|e: Scored| e.id)
}

/// The score of every entry covers the lists, and `list` up to `n`.
spec fn covers(entries: Seq<Scored>, lists: Seq<Seq<i64>>, list: Seq<i64>) -> bool {
    &&& entry_ids(entries).no_duplicates()
    &&& forall|i: int|
        0 <= i < entries.len() ==> (#[trigger] entries[i]).holds(
            all_places(lists, entries[i].id) + places(list, entries[i].id),
        )
    &&& forall|id: i64| #[trigger]
        entry_ids(entries).contains(id) <==> stands_in(lists, id) || list.contains(id)
}

/// An id that stands nowhere has earned nothing.
proof fn no_places(list: Seq<i64>, id: i64)
    requires
        !list.contains(id),
    ensures
        places(list, id) == Seq::<int>::empty(),
    decreases list.len(),
{
    if list.len() > 0 {
        assert(list.last() != id) by {
            assert(list[list.len() - 1] == list.last());
        }
        assert(!list.drop_last().contains(id)) by {
            if list.drop_last().contains(id) {
                let i = choose|i: int| 0 <= i < list.drop_last().len() && list.drop_last()[i] == id;
                assert(list[i] == id);
            }
        }
        no_places(list.drop_last(), id);
    }
}

proof fn no_all_places(lists: Seq<Seq<i64>>, id: i64)
    requires
        !stands_in(lists, id),
    ensures
        all_places(lists, id) == Seq::<int>::empty(),
    decreases lists.len(),
{
    if lists.len() > 0 {
        assert(!lists[lists.len() - 1].contains(id));
        assert(!stands_in(lists.drop_last(), id)) by {
            if stands_in(lists.drop_last(), id) {
                let i = choose|i: int|
                    0 <= i < lists.drop_last().len() && (#[trigger] lists.drop_last()[i]).contains(
                        id,
                    );
                assert(lists[i].contains(id));
            }
        }
        no_all_places(lists.drop_last(), id);
        no_places(lists.last(), id);
    }
}

/// Adds the `n`-th place of a list to the entries.
fn add_rank(
    entries: &mut Vec<Scored>,
    id: i64,
    k: u128,
    Ghost(lists): Ghost<Seq<Seq<i64>>>,
    Ghost(list): Ghost<Seq<i64>>,
)
    requires
        covers(old(entries)@, lists, list),
        0 < k < 0x1_0000_0000_0000_0000_0000,
        k == RRF_K + list.len() + 1,
    ensures
        covers(final(entries)@, lists, list.push(id)),
{
    let ghost before = entries@;
    let ghost grown = list.push(id);
    assert(grown.drop_last() =~= list);
    let mut i: usize = 0;
    while i < entries.len() && entries[i].id != id
        invariant
            i <= entries@.len(),
            entries@ == before,
            forall|j: int| 0 <= j < i ==> (#[trigger] before[j]).id != id,
        decreases entries@.len() - i,
    {
        i += 1;
    }
    if i == entries.len() {
        proof {
            if entry_ids(before).contains(id) {
                let j = choose|j: int| 0 <= j < before.len() && entry_ids(before)[j] == id;
                assert(before[j].id == id);
            }
            no_places(list, id);
            no_all_places(lists, id);
        }
        entries.push(Scored::new(id));
    }
    let ghost mid = entries@;
    let n: usize = entries.len();
    let mut entry = entries.remove(i);
    let ghost earned = all_places(lists, id) + places(list, id);
    assert(earned =~= all_places(lists, id) + places(list, id));
    proof {
        if i == before.len() {
            assert(earned =~= Seq::<int>::empty());
        }
    }
    entry.add_place(k, Ghost(earned));
    entries.insert(i, entry);
    proof {
        let after = entries@;
        assert(after.len() == mid.len());
        assert forall|j: int| 0 <= j < after.len() implies (#[trigger] after[j]).id == mid[j].id && (
        j != i ==> after[j] == mid[j]) by {}
        assert(entry_ids(after) =~= entry_ids(mid));
        if i == before.len() {
            assert(entry_ids(mid) =~= entry_ids(before).push(id));
        } else {
            assert(mid == before);
        }
        assert(entry_ids(after).no_duplicates()) by {
            if i == before.len() {
                assert(!entry_ids(before).contains(id));
            }
        }
        assert forall|j: int| 0 <= j < after.len() implies (#[trigger] after[j]).holds(
            all_places(lists, after[j].id) + places(grown, after[j].id),
        ) by {
            if j == i {
                assert(all_places(lists, id) + places(grown, id) =~= earned.push(k as int));
            } else {
                assert(after[j] == before[j]);
                assert(after[j].id != id) by {
                    if after[j].id == id {
                        assert(entry_ids(after)[j] == entry_ids(after)[i as int]);
                    }
                }
                assert(places(grown, after[j].id) == places(list, after[j].id));
            }
        }
        assert forall|x: i64| #[trigger] entry_ids(after).contains(x) <==> stands_in(lists, x)
            || grown.contains(x) by {
            assert(grown.contains(x) <==> list.contains(x) || x == id) by {
                if list.contains(x) {
                    let j = choose|j: int| 0 <= j < list.len() && list[j] == x;
                    assert(grown[j] == x);
                }
                assert(grown[list.len() as int] == id);
            }
            if i == before.len() {
                assert(entry_ids(after) =~= entry_ids(before).push(id));
                assert(entry_ids(after).contains(x) <==> entry_ids(before).contains(x) || x == id) by {
                    if entry_ids(before).contains(x) {
                        let j = choose|j: int|
                            0 <= j < before.len() && entry_ids(before)[j] == x;
                        assert(entry_ids(after)[j] == x);
                    }
                    assert(entry_ids(after)[before.len() as int] == id);
                }
            } else {
                assert(entry_ids(after) =~= entry_ids(before));
                assert(entry_ids(before)[i as int] == id);
                assert(entry_ids(before).contains(id));
            }
        }
    }
}

/// Starting the next list: what one list gave is part of what all gave.
proof fn covers_next(entries: Seq<Scored>, lists: Seq<Seq<i64>>, list: Seq<i64>)
    requires
        covers(entries, lists, list),
    ensures
        covers(entries, lists.push(list), Seq::empty()),
{
    let more = lists.push(list);
    assert(more.drop_last() =~= lists);
    assert forall|i: int| 0 <= i < entries.len() implies (#[trigger] entries[i]).holds(
        all_places(more, entries[i].id) + places(Seq::empty(), entries[i].id),
    ) by {
        let id = entries[i].id;
        assert(all_places(more, id) + places(Seq::empty(), id) =~= all_places(lists, id) + places(
            list,
            id,
        ));
    }
    assert forall|id: i64| #[trigger] entry_ids(entries).contains(id) <==> stands_in(more, id)
        || Seq::<i64>::empty().contains(id) by {
        if stands_in(lists, id) {
            let i = choose|i: int| 0 <= i < lists.len() && (#[trigger] lists[i]).contains(id);
            assert(more[i].contains(id));
        }
        if list.contains(id) {
            assert(more[lists.len() as int].contains(id));
        }
        if stands_in(more, id) {
            let i = choose|i: int| 0 <= i < more.len() && (#[trigger] more[i]).contains(id);
            if i < lists.len() {
                assert(lists[i].contains(id));
            }
        }
    }
}

/// Collects every id of the lists with its score.
fn score_all(ranked_lists: &[&[i64]]) -> (r: Vec<Scored>)
    ensures
        covers(r@, list_views(ranked_lists@), Seq::empty()),
{
    let ghost all = list_views(ranked_lists@);
    let mut entries: Vec<Scored> = Vec::new();
    let mut l: usize = 0;
    assert(entry_ids(entries@) =~= Seq::empty());
    assert(all.take(0) =~= Seq::empty());
    while l < ranked_lists.len()
        invariant
            l <= ranked_lists@.len(),
            all == list_views(ranked_lists@),
            covers(entries@, all.take(l as int), Seq::empty()),
        decreases ranked_lists@.len() - l,
    {
        let list: &[i64] = ranked_lists[l];
        assert(all[l as int] == list@);
        let mut rank: usize = 0;
        assert(list@.take(0) =~= Seq::empty());
        while rank < list.len()
            invariant
                rank <= list@.len(),
                covers(entries@, all.take(l as int), list@.take(rank as int)),
            decreases list@.len() - rank,
        {
            let k: u128 = RRF_K as u128 + rank as u128 + 1;
            add_rank(
                &mut entries,
                list[rank],
                k,
                Ghost(all.take(l as int)),
                Ghost(list@.take(rank as int)),
            );
            assert(list@.take(rank + 1) =~= list@.take(rank as int).push(list@[rank as int]));
            rank += 1;
        }
        proof {
            assert(list@.take(rank as int) =~= list@);
            covers_next(entries@, all.take(l as int), list@);
            assert(all.take(l + 1) =~= all.take(l as int).push(list@));
        }
        l += 1;
    }
    assert(all.take(l as int) =~= all);
    entries
}

/// Whether `x` ranks before `y`.
fn before(x: &Scored, y: &Scored, Ghost(lists): Ghost<Seq<Seq<i64>>>) -> (r: bool)
    requires
        x.holds(all_places(lists, x.id)),
        y.holds(all_places(lists, y.id)),
    ensures
        r == ranks_before(lists, x.id, y.id),
{
    let left = y.scale(&x.num, Ghost(all_places(lists, y.id)));
    let right = x.scale(&y.num, Ghost(all_places(lists, x.id)));
    match left.against(&right) {
        Sign::More => true,
        Sign::Same => x.id < y.id,
        Sign::Less => false,
    }
}

/// The entries are scored by the lists and stand in the order of rank.
spec fn in_rank_order(lists: Seq<Seq<i64>>, entries: Seq<Scored>) -> bool {
    &&& forall|i: int|
        0 <= i < entries.len() ==> (#[trigger] entries[i]).holds(
            all_places(lists, entries[i].id),
        )
    &&& forall|i: int, j: int|
        0 <= i < j < entries.len() ==> ranks_before(
            lists,
            (#[trigger] entries[i]).id,
            (#[trigger] entries[j]).id,
        )
}

/// Puts an entry where it belongs among ordered ones.
fn insert_ranked(sorted: &mut Vec<Scored>, x: Scored, Ghost(lists): Ghost<Seq<Seq<i64>>>)
    requires
        in_rank_order(lists, old(sorted)@),
        x.holds(all_places(lists, x.id)),
        !entry_ids(old(sorted)@).contains(x.id),
    ensures
        in_rank_order(lists, final(sorted)@),
        exists|p: int|
            0 <= p <= old(sorted)@.len() && final(sorted)@ == #[trigger] old(sorted)@.insert(p, x),
{
    let ghost start = sorted@;
    let mut p: usize = 0;
    while p < sorted.len() && before(&sorted[p], &x, Ghost(lists))
        invariant
            p <= sorted@.len(),
            sorted@ == start,
            in_rank_order(lists, start),
            x.holds(all_places(lists, x.id)),
            forall|i: int| 0 <= i < p ==> ranks_before(lists, (#[trigger] start[i]).id, x.id),
        decreases sorted@.len() - p,
    {
        p += 1;
    }
    sorted.insert(p, x);
    proof {
        let after = sorted@;
        assert(after == start.insert(p as int, x));
        assert forall|i: int, j: int| 0 <= i < j < after.len() implies ranks_before(
            lists,
            (#[trigger] after[i]).id,
            (#[trigger] after[j]).id,
        ) by {
            if j < p {
                assert(after[i] == start[i] && after[j] == start[j]);
            } else if j == p {
                assert(after[i] == start[i]);
            } else if i < p {
                assert(after[i] == start[i] && after[j] == start[j - 1]);
            } else {
                assert(after[j] == start[j - 1]);
                assert(entry_ids(start)[p as int] == start[p as int].id);
                assert(start[p as int].id != x.id);
                assert(ranks_before(lists, x.id, start[p as int].id));
                if i == p {
                    if j - 1 > p {
                        assert(ranks_before(lists, start[p as int].id, start[j - 1].id));
                        ranks_before_transitive(
                            lists,
                            x.id,
                            start[p as int].id,
                            start[j - 1].id,
                        );
                    }
                } else {
                    assert(after[i] == start[i - 1]);
                }
            }
        }
        assert forall|i: int| 0 <= i < after.len() implies (#[trigger] after[i]).holds(
            all_places(lists, after[i].id),
        ) by {
            if i < p {
                assert(after[i] == start[i]);
            } else if i > p {
                assert(after[i] == start[i - 1]);
            }
        }
    }
}

/// Merges ranked lists: the best `limit` ids by the sum of their reciprocal
/// ranks, the smaller id first where two score the same.
pub fn rrf_merge(ranked_lists: &[&[i64]], limit: usize) -> (r: Vec<i64>)
    ensures
        is_merge(list_views(ranked_lists@), limit as int, r@),
{
    let ghost lists = list_views(ranked_lists@);
    let mut left = score_all(ranked_lists);
    let ghost all = left@;
    let mut sorted: Vec<Scored> = Vec::new();
    while left.len() > 0
        invariant
            covers(all, lists, Seq::empty()),
            left@.len() <= all.len(),
            left@ == all.take(left@.len() as int),
            in_rank_order(lists, sorted@),
            forall|id: i64| #[trigger]
                entry_ids(sorted@).contains(id) <==> entry_ids(
                    all.skip(left@.len() as int),
                ).contains(id),
        decreases left@.len(),
    {
        let ghost n = left@.len() as int;
        let ghost old_sorted = sorted@;
        let x = match left.pop() {
            Some(x) => x,
            None => return Vec::new(),
        };
        proof {
            assert(x == all[n - 1]);
            assert(all_places(lists, x.id) + places(Seq::empty(), x.id) =~= all_places(
                lists,
                x.id,
            ));
            if entry_ids(all.skip(n)).contains(x.id) {
                let j = choose|j: int|
                    0 <= j < all.skip(n).len() && entry_ids(all.skip(n))[j] == x.id;
                assert(entry_ids(all)[n + j] == x.id);
                assert(entry_ids(all)[n - 1] == x.id);
            }
        }
        insert_ranked(&mut sorted, x, Ghost(lists));
        proof {
            let p = choose|p: int|
                0 <= p <= old_sorted.len() && sorted@ == #[trigger] old_sorted.insert(p, x);
            assert(left@ =~= all.take(n - 1));
            let rest = all.skip(n - 1);
            assert(rest.skip(1) =~= all.skip(n));
            assert forall|id: i64| #[trigger] entry_ids(sorted@).contains(id) <==> entry_ids(
                rest,
            ).contains(id) by {
                assert(entry_ids(rest).contains(id) <==> id == x.id || entry_ids(
                    all.skip(n),
                ).contains(id)) by {
                    if entry_ids(rest).contains(id) {
                        let j = choose|j: int| 0 <= j < rest.len() && entry_ids(rest)[j] == id;
                        if j > 0 {
                            assert(entry_ids(all.skip(n))[j - 1] == id);
                        }
                    }
                    assert(entry_ids(rest)[0] == x.id);
                    if entry_ids(all.skip(n)).contains(id) {
                        let j = choose|j: int|
                            0 <= j < all.skip(n).len() && entry_ids(all.skip(n))[j] == id;
                        assert(entry_ids(rest)[j + 1] == id);
                    }
                }
                assert(entry_ids(sorted@).contains(id) <==> id == x.id || entry_ids(
                    old_sorted,
                ).contains(id)) by {
                    if entry_ids(sorted@).contains(id) {
                        let j = choose|j: int|
                            0 <= j < sorted@.len() && entry_ids(sorted@)[j] == id;
                        if j < p {
                            assert(entry_ids(old_sorted)[j] == id);
                        } else if j > p {
                            assert(entry_ids(old_sorted)[j - 1] == id);
                        }
                    }
                    assert(entry_ids(sorted@)[p] == x.id);
                    if entry_ids(old_sorted).contains(id) {
                        let j = choose|j: int|
                            0 <= j < old_sorted.len() && entry_ids(old_sorted)[j] == id;
                        if j < p {
                            assert(entry_ids(sorted@)[j] == id);
                        } else {
                            assert(entry_ids(sorted@)[j + 1] == id);
                        }
                    }
                }
            }
        }
    }
    let ghost ranking = entry_ids(sorted@);
    proof {
        assert(all.skip(0) =~= all);
        assert(is_ranking(lists, ranking)) by {
            assert forall|id: i64| #[trigger] ranking.contains(id) <==> stands_in(lists, id) by {
                assert(entry_ids(all).contains(id) <==> stands_in(lists, id));
            }
            assert forall|i: int, j: int| 0 <= i < j < ranking.len() implies ranks_before(
                lists,
                #[trigger] ranking[i],
                #[trigger] ranking[j],
            ) by {
                assert(ranking[i] == sorted@[i].id && ranking[j] == sorted@[j].id);
            }
        }
    }
    let mut out: Vec<i64> = Vec::new();
    let mut i: usize = 0;
    while i < sorted.len() && i < limit
        invariant
            i <= sorted@.len(),
            i <= limit,
            ranking == entry_ids(sorted@),
            out@ == ranking.take(i as int),
        decreases sorted@.len() - i,
    {
        out.push(sorted[i].id);
        assert(ranking.take(i + 1) =~= ranking.take(i as int).push(ranking[i as int]));
        i += 1;
    }
    out
}

/// A merged list is settled by the lists and the limit; it holds no id twice,
/// only ids of the lists, at most `limit` of them, leaves none out while there
/// is room, and every id in it ranks before every id that was left out.
pub proof fn merged_ids_are_the_best(
    lists: Seq<Seq<i64>>,
    limit: nat,
    merged: Seq<i64>,
    other: Seq<i64>,
)
    requires
        is_merge(lists, limit as int, merged),
        is_merge(lists, limit as int, other),
    ensures
        merged == other,
        merged.no_duplicates(),
        merged.len() <= limit,
        forall|i: int| 0 <= i < merged.len() ==> stands_in(lists, #[trigger] merged[i]),
        forall|id: i64| #[trigger]
            stands_in(lists, id) && !merged.contains(id) ==> merged.len() == limit,
        forall|id: i64, i: int|
            stands_in(lists, id) && !merged.contains(id) && 0 <= i < merged.len()
                ==> #[trigger] ranks_before(lists, merged[i], id),
{
    let cut = |r: Seq<i64>|
        r.take(
            if (limit as int) < r.len() {
                limit as int
            } else {
                r.len() as int
            },
        );
    let ranking = choose|r: Seq<i64>| #[trigger] is_ranking(lists, r) && merged == cut(r);
    let second = choose|r: Seq<i64>| #[trigger] is_ranking(lists, r) && other == cut(r);
    ranking_is_unique(lists, ranking, second);
    assert forall|i: int, j: int|
        0 <= i < ranking.len() && 0 <= j < ranking.len() && i != j implies ranking[i]
        != ranking[j] by {
        if i < j {
            assert(ranks_before(lists, ranking[i], ranking[j]));
        } else {
            assert(ranks_before(lists, ranking[j], ranking[i]));
        }
    }
    assert forall|i: int| 0 <= i < merged.len() implies stands_in(lists, #[trigger] merged[i]) by {
        assert(ranking[i] == merged[i]);
        assert(ranking.contains(ranking[i]));
    }
    assert forall|id: i64| #[trigger]
        stands_in(lists, id) && !merged.contains(id) implies merged.len() == limit by {
        assert(ranking.contains(id));
        if ranking.len() <= limit {
            assert(merged =~= ranking);
        }
    }
    assert forall|id: i64, i: int|
        stands_in(lists, id) && !merged.contains(id) && 0 <= i
            < merged.len() implies #[trigger] ranks_before(lists, merged[i], id) by {
        assert(ranking.contains(id));
        let j = choose|j: int| 0 <= j < ranking.len() && ranking[j] == id;
        if j < merged.len() {
            assert(merged[j] == id);
        }
        assert(ranks_before(lists, ranking[i], ranking[j]));
    }
}

// ---------------------------------------------------------------------------
// A search, step by step

/// What a search asks of the store and of the embedder.
#[derive(Debug)]
pub struct SearchPlan {
    /// How many ids each ranker is to give at most.
    pub pool_size: usize,
    /// The full-text expression; without one the full-text ranker gives none.
    pub fts_match: Option<String>,
    /// How many neighbours the vector index is asked for.
    pub knn_k: usize,
}

/// How many ids each ranker is asked for.
pub open spec fn pool_size(limit: int) -> int {
    if limit * SEARCH_POOL_MULTIPLIER > SEARCH_POOL_MIN {
        limit * SEARCH_POOL_MULTIPLIER
    } else {
        SEARCH_POOL_MIN as int
    }
}

/// How many neighbours are asked for, so that enough live ones are among them.
pub open spec fn neighbours_for(pool: int) -> int {
    if pool * KNN_OVERFETCH <= usize::MAX {
        pool * KNN_OVERFETCH
    } else {
        usize::MAX as int
    }
}

/// Twice as many neighbours are asked for as the pool holds, as far as they can be counted.
pub proof fn neighbours_are_overfetched(pool: nat)
    requires
        pool <= usize::MAX,
    ensures
        2 * pool <= usize::MAX ==> neighbours_for(pool as int) == 2 * pool,
        2 * pool > usize::MAX ==> neighbours_for(pool as int) == usize::MAX,
        neighbours_for(pool as int) >= pool,
{
}

/// Plans a search. A blank query, or a limit of zero, finds nothing at once.
pub fn plan_search(query: &str, limit: usize) -> (r: Option<SearchPlan>)
    requires
        text::trimmed(query@).len() == 0 || limit * SEARCH_POOL_MULTIPLIER <= usize::MAX,
    ensures
        r is None <==> text::trimmed(query@).len() == 0 || limit == 0,
        r matches Some(plan) ==> {
            &&& plan.pool_size == pool_size(limit as int)
            &&& text::opt_view(plan.fts_match) == match_expression(blocks(query@))
            &&& plan.knn_k == neighbours_for(plan.pool_size as int)
            &&& plan.knn_k == (if plan.pool_size * KNN_OVERFETCH <= usize::MAX {
                plan.pool_size * KNN_OVERFETCH
            } else {
                usize::MAX as int
            })
        },
{
    if text::trim(query).is_empty() || limit == 0 {
        return None;
    }
    let wanted: usize = limit * SEARCH_POOL_MULTIPLIER;
    let pool_size: usize = if wanted > SEARCH_POOL_MIN {
        wanted
    } else {
        SEARCH_POOL_MIN
    };
    let knn_k: usize = if pool_size <= usize::MAX / KNN_OVERFETCH {
        pool_size * KNN_OVERFETCH
    } else {
        usize::MAX
    };
    Some(SearchPlan { pool_size, fts_match: build_fts_match(query), knn_k })
}

/// How embedding the query ended.
#[derive(Debug)]
pub enum QueryEmbedding {
    /// The lengths of the vectors that came back.
    Vectors(Vec<u64>),
    Failed(EmbedError),
    /// The time limit passed; how it is shown.
    TimedOut(String),
}

/// Whether the first vector can be searched for, or why not.
pub open spec fn query_vector(e: QueryEmbedding, dimensions: u64) -> Result<(), Seq<char>> {
    match e {
        QueryEmbedding::Failed(err) => Err("embed error: "@ + err@.message()),
        QueryEmbedding::TimedOut(limit) => Err("embed timed out after "@ + limit@),
        QueryEmbedding::Vectors(lens) => if lens@.len() == 0 {
            Err("embedder returned 0 vectors for 1 input"@)
        } else if lens@[0] != dimensions {
            Err(
                "query embedding dim "@ + text::decimal_text(lens@[0] as nat)
                    + " != embedder.dimensions() "@ + text::decimal_text(dimensions as nat),
            )
        } else {
            Ok(())
        },
    }
}

/// Decides whether the vector path can go on. Any reason against it makes the
/// search full-text only; it is never an error of the search.
pub fn check_query_embedding(e: &QueryEmbedding, dimensions: u64) -> (r: Result<(), String>)
    ensures
        match r {
            Ok(_) => query_vector(*e, dimensions) == Ok::<(), Seq<char>>(()),
            Err(m) => query_vector(*e, dimensions) == Err::<(), Seq<char>>(m@),
        },
{
    match e {
        QueryEmbedding::Failed(err) => Err(
            "embed error: ".to_owned().concat(err.message().as_str()),
        ),
        QueryEmbedding::TimedOut(limit) => Err(
            "embed timed out after ".to_owned().concat(limit.as_str()),
        ),
        QueryEmbedding::Vectors(lens) => {
            if lens.len() == 0 {
                Err("embedder returned 0 vectors for 1 input".to_owned())
            } else if lens[0] != dimensions {
                Err(
                    "query embedding dim ".to_owned().concat(
                        text::u64_text(lens[0]).as_str(),
                    ).concat(" != embedder.dimensions() ").concat(
                        text::u64_text(dimensions).as_str(),
                    ),
                )
            } else {
                Ok(())
            }
        },
    }
}

/// What the rankers found, of the nearest rows no more than the pool holds.
pub open spec fn pooled(fts: Seq<i64>, near: Seq<i64>, pool: int) -> Seq<Seq<i64>> {
    seq![
        fts,
        near.take(
            if pool < near.len() {
                pool
            } else {
                near.len() as int
            },
        ),
    ]
}

/// The ids that a search gives: the fusion of what the two rankers found, of
/// the nearest rows no more than the pool holds. Without a vector path the
/// second list is empty.
pub fn merge_rankings(
    fts_ranked: &Vec<i64>,
    vec_ranked: &Vec<i64>,
    pool_size: usize,
    limit: usize,
) -> (r: Vec<i64>)
    ensures
        is_merge(pooled(fts_ranked@, vec_ranked@, pool_size as int), limit as int, r@),
{
    let mut near: Vec<i64> = Vec::new();
    let mut i: usize = 0;
    while i < vec_ranked.len() && i < pool_size
        invariant
            i <= vec_ranked@.len(),
            i <= pool_size,
            near@ == vec_ranked@.take(i as int),
        decreases vec_ranked@.len() - i,
    {
        near.push(vec_ranked[i]);
        assert(vec_ranked@.take(i + 1) =~= vec_ranked@.take(i as int).push(vec_ranked@[i as int]));
        i += 1;
    }
    let lists = [fts_ranked.as_slice(), near.as_slice()];
    let r = rrf_merge(&lists, limit);
    assert(list_views(lists@) =~= pooled(fts_ranked@, vec_ranked@, pool_size as int));
    r
}

/// A row as a ranker names it.
#[derive(Debug, Clone, Copy, PartialEq, Eq, Structural)]
pub struct RankedRow {
    pub id: i64,
    /// The row that replaced this one; a row without one is live.
    pub superseded_by: Option<i64>,
}

/// How the vector path of a search went.
#[derive(Debug)]
pub enum VectorPath {
    NoEmbedder,
    /// The query was given to an embedder for vectors of this length. The nearest
    /// rows were asked for only where its vector can be searched for.
    Tried {
        embedding: QueryEmbedding,
        dimensions: u64,
        nearest: Option<Result<Vec<RankedRow>, String>>,
    },
}

/// The ids of the live rows, in order.
pub open spec fn live_ids(found: Seq<RankedRow>) -> Seq<i64>
    decreases found.len(),
{
    if found.len() == 0 {
        Seq::empty()
    } else {
        let before = live_ids(found.drop_last());
        if found.last().superseded_by is None {
            before.push(found.last().id)
        } else {
            before
        }
    }
}

fn keep_live(found: &Vec<RankedRow>) -> (r: Vec<i64>)
    ensures
        r@ == live_ids(found@),
{
    let mut out: Vec<i64> = Vec::new();
    let mut i: usize = 0;
    assert(found@.take(0) =~= Seq::empty());
    while i < found.len()
        invariant
            i <= found@.len(),
            out@ == live_ids(found@.take(i as int)),
        decreases found@.len() - i,
    {
        assert(found@.take(i + 1).drop_last() =~= found@.take(i as int));
        if found[i].superseded_by.is_none() {
            out.push(found[i].id);
        }
        i += 1;
    }
    assert(found@.take(i as int) =~= found@);
    out
}

/// The nearest rows that the vector path found: none without an embedder, where
/// its answer cannot be searched for, or where the search for it failed.
pub open spec fn near_found(vector: VectorPath) -> Seq<RankedRow> {
    match vector {
        VectorPath::NoEmbedder => Seq::empty(),
        VectorPath::Tried { embedding, dimensions, nearest } => match (
            query_vector(embedding, dimensions),
            nearest,
        ) {
            (Ok(_), Some(Ok(rows))) => rows@,
            _ => Seq::empty(),
        },
    }
}

/// The ids that a search for `query` gives, in order.
pub open spec fn is_found(
    query: Seq<char>,
    limit: int,
    fts: Seq<RankedRow>,
    near: Seq<RankedRow>,
    ids: Seq<i64>,
) -> bool {
    if text::trimmed(query).len() == 0 || limit == 0 {
        ids.len() == 0
    } else {
        is_merge(pooled(live_ids(fts), live_ids(near), pool_size(limit)), limit, ids)
    }
}

/// The ids of a search, of what the full-text ranker found and of how the vector
/// path went. A vector path that failed is no error: the search goes on without
/// it. Rows that were replaced are passed over.
pub fn search_ids(
    query: &str,
    limit: usize,
    fts_found: &Vec<RankedRow>,
    vector: &VectorPath,
) -> (r: Vec<i64>)
    requires
        text::trimmed(query@).len() == 0 || limit * SEARCH_POOL_MULTIPLIER <= usize::MAX,
    ensures
        is_found(query@, limit as int, fts_found@, near_found(*vector), r@),
{
    let plan = match plan_search(query, limit) {
        Some(plan) => plan,
        None => return Vec::new(),
    };
    let fts = keep_live(fts_found);
    let mut near: Vec<i64> = Vec::new();
    if let VectorPath::Tried { embedding, dimensions, nearest } = vector {
        if check_query_embedding(embedding, *dimensions).is_ok() {
            if let Some(Ok(rows)) = nearest {
                near = keep_live(rows);
            }
        }
    }
    merge_rankings(&fts, &near, plan.pool_size, limit)
}

// ---------------------------------------------------------------------------
// Laws of fusion

/// An id that stands once in a list earns one place there.
proof fn one_place(list: Seq<i64>, i: int)
    requires
        list.no_duplicates(),
        0 <= i < list.len(),
    ensures
        places(list, list[i]) == seq![RRF_K + i + 1],
    decreases list.len(),
{
    let id = list[i];
    let rest = list.drop_last();
    if i == list.len() - 1 {
        assert(!rest.contains(id)) by {
            if rest.contains(id) {
                let j = choose|j: int| 0 <= j < rest.len() && rest[j] == id;
                assert(list[j] == id);
            }
        }
        no_places(rest, id);
    } else {
        assert(rest[i] == id);
        one_place(rest, i);
        assert(list[list.len() - 1] != id);
    }
    assert(places(list, id) =~= seq![RRF_K + i + 1]);
}

/// The places of an id in two lists.
proof fn two_lists_places(a: Seq<i64>, b: Seq<i64>, id: i64)
    ensures
        all_places(seq![a, b], id) == places(a, id) + places(b, id),
{
    let lists = seq![a, b];
    assert(lists.drop_last() =~= seq![a]);
    assert(seq![a].drop_last() =~= Seq::empty());
    reveal_with_fuel(all_places, 2);
    assert(all_places(seq![a], id) =~= places(a, id));
}

proof fn one_reciprocal(k: int)
    ensures
        sum_of_reciprocals(seq![k]) == (Fraction { num: 1, den: k }),
{
    assert(seq![k].drop_last() =~= Seq::empty());
    reveal_with_fuel(sum_of_reciprocals, 2);
    assert(0 * k + 1 == 1 && 1 * k == k) by (nonlinear_arith);
}

proof fn two_reciprocals(p: int, q: int)
    ensures
        sum_of_reciprocals(seq![p] + seq![q]) == (Fraction { num: q + p, den: p * q }),
{
    one_reciprocal(p);
    assert((seq![p] + seq![q]).drop_last() =~= seq![p]);
    assert(1 * q + p == q + p) by (nonlinear_arith);
}

/// A list that stands beside an empty one is its own ranking.
proof fn lone_list_is_ranking(a: Seq<i64>, b: Seq<i64>)
    requires
        a.no_duplicates(),
        b.no_duplicates(),
        a.len() == 0 || b.len() == 0,
    ensures
        is_ranking(seq![a, b], a + b),
{
    let lists = seq![a, b];
    let list = a + b;
    assert(a.len() == 0 ==> list =~= b);
    assert(b.len() == 0 ==> list =~= a);
    assert forall|id: i64| #[trigger] list.contains(id) <==> stands_in(lists, id) by {
        if list.contains(id) {
            if b.len() == 0 {
                assert(lists[0].contains(id));
            } else {
                assert(lists[1].contains(id));
            }
        }
        if stands_in(lists, id) {
            let i = choose|i: int| 0 <= i < lists.len() && (#[trigger] lists[i]).contains(id);
            assert(lists[i] == list);
        }
    }
    assert forall|i: int, j: int| 0 <= i < j < list.len() implies ranks_before(
        lists,
        #[trigger] list[i],
        #[trigger] list[j],
    ) by {
        let (x, y) = (list[i], list[j]);
        two_lists_places(a, b, x);
        two_lists_places(a, b, y);
        one_place(list, i);
        one_place(list, j);
        assert(all_places(lists, x) =~= places(list, x));
        assert(all_places(lists, y) =~= places(list, y));
        let (p, q) = (RRF_K + i + 1, RRF_K + j + 1);
        one_reciprocal(p);
        one_reciprocal(q);
        assert(score(lists, x) == (Fraction { num: 1, den: p }));
        assert(score(lists, y) == (Fraction { num: 1, den: q }));
        assert(score(lists, x).exceeds(score(lists, y))) by (nonlinear_arith)
            requires
                score(lists, x) == (Fraction { num: 1, den: p }),
                score(lists, y) == (Fraction { num: 1, den: q }),
                p < q,
        ;
    }
}

/// Where only one ranker found anything, its order stands: a search whose vector
/// path failed gives the full-text hits as they were ranked, and one whose query
/// has no full-text term gives the nearest rows.
pub proof fn one_ranker_alone_decides(
    fts: Seq<i64>,
    near: Seq<i64>,
    pool: nat,
    limit: nat,
    merged: Seq<i64>,
)
    requires
        fts.no_duplicates(),
        near.no_duplicates(),
        is_merge(pooled(fts, near, pool as int), limit as int, merged),
    ensures
        near.len() == 0 ==> merged == fts.take(
            if limit < fts.len() {
                limit as int
            } else {
                fts.len() as int
            },
        ),
        fts.len() == 0 ==> {
            let nearest = near.take(
                if pool < near.len() {
                    pool as int
                } else {
                    near.len() as int
                },
            );
            merged == nearest.take(
                if limit < nearest.len() {
                    limit as int
                } else {
                    nearest.len() as int
                },
            )
        },
{
    let lists = pooled(fts, near, pool as int);
    let nearest = lists[1];
    let ranking = choose|r: Seq<i64>| #[trigger]
        is_ranking(lists, r) && merged == r.take(
            if (limit as int) < r.len() {
                limit as int
            } else {
                r.len() as int
            },
        );
    if near.len() == 0 || fts.len() == 0 {
        lone_list_is_ranking(fts, nearest);
        ranking_is_unique(lists, ranking, fts + nearest);
        assert(near.len() == 0 ==> fts + nearest =~= fts);
        assert(fts.len() == 0 ==> fts + nearest =~= nearest);
    }
}

/// What both rankers put ahead of a row ranks before it; so does what one puts
/// ahead of it and the other finds alone.
pub proof fn ahead_in_both_ranks_before(a: Seq<i64>, b: Seq<i64>, i: int, j: int, k: int)
    requires
        a.no_duplicates(),
        b.no_duplicates(),
        0 <= i < j < a.len(),
        0 <= k < b.len(),
        b[k] == a[i],
        forall|l: int| 0 <= l < b.len() && b[l] == a[j] ==> k < l,
    ensures
        ranks_before(seq![a, b], a[i], a[j]),
{
    let (x, y) = (a[i], a[j]);
    let (p, q, r) = (RRF_K + i + 1, RRF_K + k + 1, RRF_K + j + 1);
    two_lists_places(a, b, x);
    two_lists_places(a, b, y);
    one_place(a, i);
    one_place(b, k);
    one_place(a, j);
    two_reciprocals(p, q);
    assert(q * r > q * p) by (nonlinear_arith)
        requires
            q > 0,
            r > p,
    ;
    if b.contains(y) {
        let l = choose|l: int| 0 <= l < b.len() && b[l] == y;
        let t = RRF_K + l + 1;
        one_place(b, l);
        two_reciprocals(r, t);
        assert((q + p) * (r * t) == (q * r) * t + (p * r) * t) by (nonlinear_arith);
        assert((t + r) * (p * q) == (q * p) * t + (p * r) * q) by (nonlinear_arith);
        assert((q * r) * t > (q * p) * t) by (nonlinear_arith)
            requires
                q * r > q * p,
                t > 0,
        ;
        assert((p * r) * t > (p * r) * q) by (nonlinear_arith)
            requires
                p > 0,
                r > 0,
                t > q,
        ;
    } else {
        no_places(b, y);
        one_reciprocal(r);
        assert(all_places(seq![a, b], y) =~= seq![r]);
        assert((q + p) * r > p * q) by (nonlinear_arith)
            requires
                q * r > q * p,
                p > 0,
                r > 0,
        ;
        assert(1 * (p * q) == p * q) by (nonlinear_arith);
    }
}


/// What the log has under each of the ids.
pub open spec fn rows_under(log: Map<i64, TextView>, ids: Seq<i64>) -> Seq<Option<TextView>> {
    ids.map_values(|id: i64| row_under(log, id))
}

proof fn hits_are_rows(log: Map<i64, TextView>, ids: Seq<i64>, rows: Seq<Option<TextView>>)
    requires
        rows.len() >= ids.len(),
        forall|i: int| 0 <= i < ids.len() ==> #[trigger] rows[i] == row_under(log, ids[i]),
        ids.no_duplicates(),
    ensures
        hits_of(ids, rows).len() <= ids.len(),
        forall|i: int|
            0 <= i < hits_of(ids, rows).len() ==> {
                let hit = #[trigger] hits_of(ids, rows)[i];
                &&& ids.contains(hit.id)
                &&& log.contains_key(hit.id)
                &&& hit == hit_of(hit.id, log[hit.id])
            },
        forall|i: int, j: int|
            0 <= i < j < hits_of(ids, rows).len() ==> (#[trigger] hits_of(ids, rows)[i]).id != (
            #[trigger] hits_of(ids, rows)[j]).id,
        (forall|i: int| 0 <= i < ids.len() ==> log.contains_key(#[trigger] ids[i])) ==> {
            &&& hits_of(ids, rows).len() == ids.len()
            &&& forall|i: int|
                0 <= i < ids.len() ==> (#[trigger] hits_of(ids, rows)[i]).id == ids[i]
        },
    decreases ids.len(),
{
    if ids.len() > 0 {
        let init = ids.drop_last();
        assert forall|i: int| 0 <= i < init.len() implies #[trigger] rows[i] == row_under(
            log,
            init[i],
        ) by {
            assert(init[i] == ids[i]);
        }
        assert(init.no_duplicates()) by {
            assert forall|i: int, j: int|
                0 <= i < init.len() && 0 <= j < init.len() && i != j implies init[i] != init[j] by {
                assert(init[i] == ids[i] && init[j] == ids[j]);
            }
        }
        hits_are_rows(log, init, rows);
        let before = hits_of(init, rows);
        let n = ids.len() - 1;
        assert(rows[n] == row_under(log, ids[n]));
        assert forall|id: i64| init.contains(id) implies ids.contains(id) && id != ids[n] by {
            let i = choose|i: int| 0 <= i < init.len() && init[i] == id;
            assert(ids[i] == id);
        }
        assert(ids.contains(ids[n]));
        assert forall|i: int| 0 <= i < before.len() implies init.contains(
            (#[trigger] before[i]).id,
        ) by {}
        if forall|i: int| 0 <= i < ids.len() ==> log.contains_key(#[trigger] ids[i]) {
            assert forall|i: int| 0 <= i < init.len() implies log.contains_key(
                #[trigger] init[i],
            ) by {
                assert(init[i] == ids[i]);
            }
        }
    }
}

/// A row of the log with its text.
#[verifier::ext_equal]
pub ghost struct LoggedView {
    pub text: TextView,
    pub superseded_by: Option<i64>,
}

/// The texts of the log's rows.
pub open spec fn texts_of(log: Map<i64, LoggedView>) -> Map<i64, TextView> {
    Map::new(|id: i64| log.contains_key(id), |id: i64| log[id].text)
}

/// A ranker named rows of the log, each as the log has it.
pub open spec fn is_read_from(found: Seq<RankedRow>, log: Map<i64, LoggedView>) -> bool {
    forall|i: int|
        0 <= i < found.len() ==> log.contains_key((#[trigger] found[i]).id)
            && log[found[i].id].superseded_by == found[i].superseded_by
}

/// The vector path of the search failed, or there was none.
pub open spec fn vector_is_lost(vector: VectorPath) -> bool {
    match vector {
        VectorPath::NoEmbedder => true,
        VectorPath::Tried { embedding, dimensions, nearest } => query_vector(
            embedding,
            dimensions,
        ) is Err || nearest matches Some(Err(_)),
    }
}

proof fn live_ids_are_live(found: Seq<RankedRow>, log: Map<i64, LoggedView>)
    requires
        is_read_from(found, log),
    ensures
        forall|i: int|
            0 <= i < live_ids(found).len() ==> log.contains_key(#[trigger] live_ids(found)[i])
                && log[live_ids(found)[i]].superseded_by is None,
    decreases found.len(),
{
    if found.len() > 0 {
        let init = found.drop_last();
        assert forall|i: int| 0 <= i < init.len() implies log.contains_key(
            (#[trigger] init[i]).id,
        ) && log[init[i].id].superseded_by == init[i].superseded_by by {
            assert(init[i] == found[i]);
        }
        live_ids_are_live(init, log);
        assert(found.last() == found[found.len() - 1]);
        assert forall|i: int| 0 <= i < live_ids(found).len() implies log.contains_key(
            #[trigger] live_ids(found)[i],
        ) && log[live_ids(found)[i]].superseded_by is None by {
            if i < live_ids(init).len() {
                assert(live_ids(found)[i] == live_ids(init)[i]);
            }
        }
    }
}

/// A whole search over a log that nobody writes to meanwhile. It gives at most
/// `limit` hits, none for a blank query or a limit of zero; no row comes twice,
/// every hit is a live row as the log holds it, and the hits stand in the order
/// of rank. Where there is no embedder, or embedding the query failed, took too
/// long or gave a vector of another length, or the search for the vector failed,
/// the hits are those of a search without an embedder.
pub proof fn hybrid_search(
    query: Seq<char>,
    limit: nat,
    fts: Seq<RankedRow>,
    vector: VectorPath,
    ids: Seq<i64>,
    log: Map<i64, LoggedView>,
)
    requires
        is_found(query, limit as int, fts, near_found(vector), ids),
        is_read_from(fts, log),
        is_read_from(near_found(vector), log),
    ensures
        ({
            let hits = hits_of(ids, rows_under(texts_of(log), ids));
            &&& hits.len() == ids.len() <= limit
            &&& text::trimmed(query).len() == 0 || limit == 0 ==> hits.len() == 0
            &&& forall|i: int|
                0 <= i < hits.len() ==> {
                    let hit = #[trigger] hits[i];
                    &&& hit.id == ids[i]
                    &&& log.contains_key(hit.id)
                    &&& log[hit.id].superseded_by is None
                    &&& hit == hit_of(hit.id, log[hit.id].text)
                }
            &&& forall|i: int, j: int|
                0 <= i < j < hits.len() ==> (#[trigger] hits[i]).id != (#[trigger] hits[j]).id
            &&& vector_is_lost(vector) ==> forall|others: Seq<i64>| #[trigger]
                is_found(
                    query,
                    limit as int,
                    fts,
                    near_found(VectorPath::NoEmbedder),
                    others,
                ) ==> others == ids
        }),
{
    let near = near_found(vector);
    let lists = pooled(live_ids(fts), live_ids(near), pool_size(limit as int));
    if text::trimmed(query).len() > 0 && limit > 0 {
        merged_ids_are_the_best(lists, limit, ids, ids);
        live_ids_are_live(fts, log);
        live_ids_are_live(near, log);
        assert forall|i: int| 0 <= i < ids.len() implies log.contains_key(#[trigger] ids[i])
            && log[ids[i]].superseded_by is None by {
            assert(ids.contains(ids[i]));
            assert(stands_in(lists, ids[i]));
            let l = choose|l: int| 0 <= l < lists.len() && (#[trigger] lists[l]).contains(ids[i]);
            let k = choose|k: int| 0 <= k < lists[l].len() && lists[l][k] == ids[i];
            if l == 1 {
                assert(live_ids(near)[k] == ids[i]);
            } else {
                assert(live_ids(fts)[k] == ids[i]);
            }
        }
    }
    hits_are_rows(texts_of(log), ids, rows_under(texts_of(log), ids));
    if vector_is_lost(vector) {
        assert forall|others: Seq<i64>| #[trigger]
            is_found(
                query,
                limit as int,
                fts,
                near_found(VectorPath::NoEmbedder),
                others,
            ) implies others == ids by {
            if text::trimmed(query).len() > 0 && limit > 0 {
                merged_ids_are_the_best(lists, limit, others, ids);
            } else {
                assert(others =~= ids);
            }
        }
    }
}

/// A search whose vector path failed gives the live rows that the full-text
/// ranker found, in its order.
pub proof fn failed_vector_path_leaves_full_text(
    query: Seq<char>,
    limit: nat,
    fts: Seq<RankedRow>,
    vector: VectorPath,
    ids: Seq<i64>,
)
    requires
        vector_is_lost(vector),
        live_ids(fts).no_duplicates(),
        is_found(query, limit as int, fts, near_found(vector), ids),
    ensures
        text::trimmed(query).len() > 0 ==> ids == live_ids(fts).take(
            if limit < live_ids(fts).len() {
                limit as int
            } else {
                live_ids(fts).len() as int
            },
        ),
{
    if text::trimmed(query).len() > 0 && limit > 0 {
        one_ranker_alone_decides(
            live_ids(fts),
            Seq::empty(),
            pool_size(limit as int) as nat,
            limit,
            ids,
        );
    }
}

/// A hit shows its row: the row's own time and whole summary, and of the detail
/// the whole where it has at most 800 characters, else its first 800 and an
/// ellipsis.
pub proof fn hit_shows_its_row(id: i64, row: TextView)
    ensures
        ({
            let hit = hit_of(id, row);
            let body = match row.detail {
                Some(d) => d,
                None => Seq::empty(),
            };
            &&& hit.id == id
            &&& hit.ts == row.ts
            &&& hit.summary == row.summary
            &&& body.len() <= 800 ==> hit.snippet == body
            &&& body.len() > 800 ==> {
                &&& hit.snippet.len() == 801
                &&& hit.snippet.last() == '…'
                &&& forall|i: int| 0 <= i < 800 ==> #[trigger] hit.snippet[i] == body[i]
            }
        }),
{
    reveal_strlit("…");
}

/// A requested limit within the bounds stands; one beyond them comes to the
/// nearest bound, and a larger request never gives a smaller limit.
pub proof fn limits_are_kept_in_bounds(m: u64, n: u64)
    ensures
        1 <= limit_of(Some(n)) <= 25,
        1 <= n <= 25 ==> limit_of(Some(n)) == n,
        m <= n ==> limit_of(Some(m)) <= limit_of(Some(n)),
        limit_of(None) == 6,
{
}

/// Each ranker is asked for four times the limit, and for no fewer than twenty.
pub proof fn pools_are_roomy(limit: nat)
    ensures
        pool_size(limit as int) >= 4 * limit,
        pool_size(limit as int) >= 20,
        limit >= 5 ==> pool_size(limit as int) == 4 * limit,
        limit <= 5 ==> pool_size(limit as int) == 20,
{
}

/// A query can be searched for by vector exactly where the embedder gave a vector
/// and the first has the length that it announces.
pub proof fn only_fitting_vectors_are_searched_for(e: QueryEmbedding, dimensions: u64)
    ensures
        query_vector(e, dimensions) is Ok <==> {
            &&& e is Vectors
            &&& e->Vectors_0@.len() > 0
            &&& e->Vectors_0@[0] == dimensions
        },
{
}

/// The live rows that a ranker named are kept in its order, each of them, and
/// the others left out.
pub proof fn live_rows_are_kept(a: Seq<RankedRow>, b: Seq<RankedRow>, row: RankedRow)
    ensures
        live_ids(a + b) == live_ids(a) + live_ids(b),
        row.superseded_by is None ==> live_ids(seq![row]) == seq![row.id],
        row.superseded_by is Some ==> live_ids(seq![row]).len() == 0,
    decreases b.len(),
{
    assert(seq![row].drop_last() =~= Seq::empty());
    assert(live_ids(Seq::<RankedRow>::empty()) =~= Seq::empty());
    assert(row.superseded_by is None ==> live_ids(seq![row]) =~= seq![row.id]);
    if b.len() == 0 {
        assert(a + b =~= a);
        assert(live_ids(a) + live_ids(b) =~= live_ids(a));
    } else {
        assert((a + b).drop_last() =~= a + b.drop_last());
        live_rows_are_kept(a, b.drop_last(), row);
        assert(live_ids(a + b) =~= live_ids(a) + live_ids(b));
    }
}

proof fn live_row_is_named(found: Seq<RankedRow>, i: int)
    requires
        0 <= i < found.len(),
        found[i].superseded_by is None,
    ensures
        live_ids(found).contains(found[i].id),
{
    let before = found.take(i);
    let row = found[i];
    let after = found.skip(i + 1);
    assert(found =~= before + seq![row] + after);
    live_rows_are_kept(before + seq![row], after, row);
    live_rows_are_kept(before, seq![row], row);
    let n = live_ids(before).len() as int;
    assert(live_ids(found)[n] == row.id);
}

/// A search that gives fewer hits than it may has left no live row out: every
/// one that the full-text ranker named is among its hits, and every one of the
/// nearest that fill the pool.
pub proof fn no_live_row_is_lost(
    query: Seq<char>,
    limit: nat,
    fts: Seq<RankedRow>,
    near: Seq<RankedRow>,
    ids: Seq<i64>,
    i: int,
)
    requires
        text::trimmed(query).len() > 0,
        is_found(query, limit as int, fts, near, ids),
        ids.len() < limit,
    ensures
        0 <= i < fts.len() && fts[i].superseded_by is None ==> ids.contains(fts[i].id),
        0 <= i < live_ids(near).len() && i < 4 * limit ==> ids.contains(live_ids(near)[i]),
{
    let lists = pooled(live_ids(fts), live_ids(near), pool_size(limit as int));
    merged_ids_are_the_best(lists, limit, ids, ids);
    if 0 <= i < fts.len() && fts[i].superseded_by is None {
        live_row_is_named(fts, i);
        assert(lists[0].contains(fts[i].id));
        assert(stands_in(lists, fts[i].id));
    }
    if 0 <= i < live_ids(near).len() && i < 4 * limit {
        assert(lists[1][i] == live_ids(near)[i]);
        assert(lists[1].contains(live_ids(near)[i]));
        assert(stands_in(lists, live_ids(near)[i]));
    }
}

/// An id that stands at the places `i` and `j` of two rankings, counted from
/// zero, scores `1/(61 + i) + 1/(61 + j)`; one that stands in one alone scores
/// that part.
pub proof fn ranks_score_their_reciprocals(a: Seq<i64>, b: Seq<i64>, i: int, j: int)
    requires
        a.no_duplicates(),
        b.no_duplicates(),
        0 <= i < a.len(),
        0 <= j < b.len(),
    ensures
        a[i] == b[j] ==> score(seq![a, b], a[i]) == (Fraction {
            num: (61 + i) + (61 + j),
            den: (61 + i) * (61 + j),
        }),
        !b.contains(a[i]) ==> score(seq![a, b], a[i]) == (Fraction { num: 1, den: 61 + i }),
        !a.contains(b[j]) ==> score(seq![a, b], b[j]) == (Fraction { num: 1, den: 61 + j }),
{
    two_lists_places(a, b, a[i]);
    two_lists_places(a, b, b[j]);
    one_place(a, i);
    one_place(b, j);
    if a[i] == b[j] {
        two_reciprocals(61 + i, 61 + j);
    }
    if !b.contains(a[i]) {
        no_places(b, a[i]);
        assert(places(a, a[i]) + places(b, a[i]) =~= seq![61 + i]);
        one_reciprocal(61 + i);
    }
    if !a.contains(b[j]) {
        no_places(a, b[j]);
        assert(places(a, b[j]) + places(b, b[j]) =~= seq![61 + j]);
        one_reciprocal(61 + j);
    }
}

/// Of two ids the one with the higher score comes first; where the scores are
/// equal it is the smaller id.
pub proof fn higher_scores_come_first(lists: Seq<Seq<i64>>, x: i64, y: i64)
    ensures
        ({
            let s = score(lists, x);
            let t = score(lists, y);
            &&& s.num * t.den > t.num * s.den ==> ranks_before(lists, x, y) && !ranks_before(
                lists,
                y,
                x,
            )
            &&& s.num * t.den == t.num * s.den && x < y ==> ranks_before(lists, x, y)
                && !ranks_before(lists, y, x)
        }),
{
}

/// Merged ids stand in the order of rank, the best first.
pub proof fn merged_ids_stand_by_rank(
    lists: Seq<Seq<i64>>,
    limit: nat,
    merged: Seq<i64>,
    i: int,
    j: int,
)
    requires
        is_merge(lists, limit as int, merged),
        0 <= i < j < merged.len(),
    ensures
        ranks_before(lists, merged[i], merged[j]),
{
    let ranking = choose|r: Seq<i64>| #[trigger]
        is_ranking(lists, r) && merged == r.take(
            if (limit as int) < r.len() {
                limit as int
            } else {
                r.len() as int
            },
        );
    assert(merged[i] == ranking[i] && merged[j] == ranking[j]);
}

/// The terms that are looked for are without repetition, and the ideographs among them are
/// those of the unified block and its first extension.
pub proof fn terms_are_asked_for_once(terms: Seq<Seq<char>>, c: char)
    ensures
        distinct(terms).no_duplicates(),
        forall|t: Seq<char>| #[trigger] distinct(terms).contains(t) <==> terms.contains(t),
        is_cjk(c) <==> 0x3400 <= c as nat <= 0x9fff,
{
    distinct_keeps_terms(terms);
    distinct_keeps_all(terms);
}

/// Ids give their hits in order; one without a row gives none and takes none away.
pub proof fn ids_give_their_hits_in_order(
    ids: Seq<i64>,
    rows: Seq<Option<TextView>>,
    id: i64,
    row: Option<TextView>,
)
    requires
        ids.len() == rows.len(),
    ensures
        hits_of(ids.push(id), rows.push(row)) == (match row {
            Some(x) => hits_of(ids, rows).push(hit_of(id, x)),
            None => hits_of(ids, rows),
        }),
        hits_of(Seq::empty(), rows).len() == 0,
{
    assert(ids.push(id).drop_last() =~= ids);
    later_rows_give_no_hit(ids, rows, row);
}

proof fn later_rows_give_no_hit(
    ids: Seq<i64>,
    rows: Seq<Option<TextView>>,
    row: Option<TextView>,
)
    requires
        ids.len() <= rows.len(),
    ensures
        hits_of(ids, rows.push(row)) == hits_of(ids, rows),
    decreases ids.len(),
{
    if ids.len() > 0 {
        later_rows_give_no_hit(ids.drop_last(), rows, row);
        assert(rows.push(row)[ids.len() - 1] == rows[ids.len() - 1]);
    }
}

/// A note is kept under its time with its summary trimmed and its detail character for
/// character; only a note whose summary is blank is not.
pub proof fn notes_are_kept_as_they_are(now: i64, summary: Seq<char>, detail: Option<Seq<char>>)
    ensures
        noted(now, summary, detail) is None <==> text::is_white(summary),
        noted(now, summary, detail) matches Some(row) ==> row.ts == now && row.summary
            == text::trimmed(summary) && row.detail == detail,
{
    crate::render::blank_is_all_white(summary);
}

/// What is read under an id is what the log has there, whole; a missing row is told by a
/// flag.
pub proof fn entries_show_their_row(id: i64, row: TextView)
    ensures
        ({
            let e = entry_for(id, Some(row));
            &&& e.found && e.id == id && e.ts == row.ts
            &&& e.summary == row.summary && e.detail == row.detail
            &&& !entry_for(id, None).found && entry_for(id, None).id == id
        }),
{
}

/// The two rankers are fused as they rank, the full-text one first, and of the nearest rows
/// no more than the pool holds.
pub proof fn both_rankers_are_fused(fts: Seq<i64>, near: Seq<i64>, pool: nat)
    ensures
        pooled(fts, near, pool as int).len() == 2,
        pooled(fts, near, pool as int)[0] == fts,
        pooled(fts, near, pool as int)[1].is_prefix_of(near),
        near.len() <= pool ==> pooled(fts, near, pool as int)[1] == near,
        near.len() > pool ==> pooled(fts, near, pool as int)[1].len() == pool,
{
    assert(near.take(near.len() as int) =~= near);
}

/// All rows that the vector path found count, in their order, and none where the query was
/// not embedded or the search for its vector failed.
pub proof fn nearest_rows_count_where_found(
    embedding: QueryEmbedding,
    dimensions: u64,
    nearest: Option<Result<Vec<RankedRow>, String>>,
)
    ensures
        ({
            let near = near_found(VectorPath::Tried { embedding, dimensions, nearest });
            let found = query_vector(embedding, dimensions) is Ok && nearest is Some && nearest->0
                is Ok;
            &&& found ==> near == nearest->0->Ok_0@
            &&& !found ==> near.len() == 0
            &&& near_found(VectorPath::NoEmbedder).len() == 0
        }),
{
}

} // verus!
