//! Search-quality evaluation: fixture cases with required hits, golden result lists, and
//! the failures a run reports against both; plus the previews used by the developer probes.
use vstd::prelude::*;

use crate::index::chunking::{IndexedChunk, IndexedDocument};
use crate::index::types::IndexStatus;
use crate::text::{chars_of, contains, contains_chars, decimal, decimal_string, join, push_str};
use crate::ZgError;

verus! {

/// A fixture suite: cases run against a sample vault.
#[derive(Clone, Debug)]
pub struct SearchQualityFixtureSuite {
    pub suite_id: String,
    pub sample_vault_manifest: String,
    pub default_limit: usize,
    pub cases: Vec<SearchQualityCase>,
}

/// One fixture case: a query, an optional scope and limit, and the hits it must return.
#[derive(Clone, Debug)]
pub struct SearchQualityCase {
    pub id: String,
    pub query: String,
    pub scope: Option<String>,
    pub notes: Option<String>,
    pub limit: Option<usize>,
    pub expectations: SearchQualityExpectations,
}

/// The hits a case must return.
#[derive(Clone, Debug)]
pub struct SearchQualityExpectations {
    pub must_include: Vec<ExpectedSearchHit>,
}

/// A required hit: a path that must appear within the first `within_top` hits, with a
/// snippet that contains a given text when one is given.
#[derive(Clone, Debug)]
pub struct ExpectedSearchHit {
    pub path: String,
    pub within_top: usize,
    pub snippet_contains: Option<String>,
}

/// A recorded suite of result lists to compare later runs against.
#[derive(Clone, Debug)]
pub struct SearchQualityGoldenSuite {
    pub suite_id: String,
    pub sample_vault_manifest: String,
    pub cases: Vec<SearchQualityGoldenCase>,
}

/// The recorded result list of one case.
#[derive(Clone, Debug)]
pub struct SearchQualityGoldenCase {
    pub id: String,
    pub query: String,
    pub scope: Option<String>,
    pub limit: usize,
    pub hits: Vec<SearchQualityGoldenHit>,
}

/// One ranked hit as recorded or observed: rank from one, path, lines and snippet.
#[derive(Clone, Debug)]
pub struct SearchQualityGoldenHit {
    pub rank: usize,
    pub rel_path: String,
    pub line_start: usize,
    pub line_end: usize,
    pub snippet: String,
}

/// The spec-level content of a ranked hit.
pub struct HitRow {
    pub rank: usize,
    pub rel_path: Seq<char>,
    pub line_start: usize,
    pub line_end: usize,
    pub snippet: Seq<char>,
}

/// The spec-level content of a ranked hit.
pub open spec fn hit_row(h: SearchQualityGoldenHit) -> HitRow {
    HitRow {
        rank: h.rank,
        rel_path: h.rel_path@,
        line_start: h.line_start,
        line_end: h.line_end,
        snippet: h.snippet@,
    }
}

/// The spec-level content of a list of ranked hits.
pub open spec fn hit_rows(v: Seq<SearchQualityGoldenHit>) -> Seq<HitRow> {
    v.map_values(|h: SearchQualityGoldenHit| hit_row(h))
}

/// The text `{:?}` prints for a string: quoted, with quotes, backslashes and control
/// characters escaped.
pub uninterp spec fn debug_text(s: Seq<char>) -> Seq<char>;

/// `format!("{:?}", s)` for a string.
#[verifier::external_body]
pub(crate) fn debug_quoted(s: &str) -> (r: String)
    ensures
        r@ == debug_text(s@),
{
    format!("{:?}", s)
}

/// The first observed hit with path `path`.
pub open spec fn first_with_path(observed: Seq<HitRow>, path: Seq<char>) -> Option<HitRow>
    decreases observed.len(),
{
    if observed.len() == 0 {
        None
    } else if observed[0].rel_path == path {
        Some(observed[0])
    } else {
        first_with_path(observed.drop_first(), path)
    }
}

/// The failure a required hit reports against the observed hits, if any.
pub open spec fn expectation_failure(observed: Seq<HitRow>, e: ExpectedSearchHit) -> Option<Seq<char>> {
    match first_with_path(observed, e.path@) {
        Some(h) => if h.rank <= e.within_top {
            match e.snippet_contains {
                Some(needle) => if contains(h.snippet, needle@) {
                    None
                } else {
                    Some(
                        "`"@ + e.path@ + "` appeared at rank "@ + decimal(h.rank as nat)
                            + " but snippet did not contain "@ + debug_text(needle@),
                    )
                },
                None => None,
            }
        } else {
            Some(
                "`"@ + e.path@ + "` appeared at rank "@ + decimal(h.rank as nat)
                    + ", expected within top "@ + decimal(e.within_top as nat),
            )
        },
        None => Some(
            "missing required hit `"@ + e.path@ + "` within top "@ + decimal(e.within_top as nat),
        ),
    }
}

/// The failures of the first `n` required hits, in order.
pub open spec fn expectation_failures(observed: Seq<HitRow>, expected: Seq<ExpectedSearchHit>, n: int) -> Seq<Seq<char>>
    decreases n,
{
    if n <= 0 {
        Seq::empty()
    } else {
        let prev = expectation_failures(observed, expected, n - 1);
        match expectation_failure(observed, expected[n - 1]) {
            Some(f) => prev.push(f),
            None => prev,
        }
    }
}

fn find_by_path(observed: &Vec<SearchQualityGoldenHit>, path: &str) -> (r: Option<usize>)
    ensures
        r matches Some(k) ==> k < observed@.len() && first_with_path(hit_rows(observed@), path@) == Some(hit_rows(observed@)[k as int]),
        r is None ==> first_with_path(hit_rows(observed@), path@) is None,
{
    let ghost rows = hit_rows(observed@);
    let mut i: usize = 0;
    assert(rows.skip(0) =~= rows);
    while i < observed.len()
        invariant
            i <= observed@.len(),
            rows == hit_rows(observed@),
            first_with_path(rows, path@) == first_with_path(rows.skip(i as int), path@),
        decreases observed@.len() - i,
    {
        assert(rows.skip(i as int)[0] == rows[i as int]);
        assert(rows.skip(i as int).drop_first() =~= rows.skip(i + 1));
        if crate::text::same_text(observed[i].rel_path.as_str(), path) {
            return Some(i);
        }
        i = i + 1;
    }
    None
}

fn check_expectation(observed: &Vec<SearchQualityGoldenHit>, e: &ExpectedSearchHit) -> (r: Option<String>)
    ensures
        crate::text::opt_text(r) == expectation_failure(hit_rows(observed@), *e),
{
    match find_by_path(observed, e.path.as_str()) {
        Some(k) => {
            let h = &observed[k];
            if h.rank <= e.within_top {
                match &e.snippet_contains {
                    Some(needle) => {
                        let hay = chars_of(h.snippet.as_str());
                        let nv = chars_of(needle.as_str());
                        if contains_chars(hay.as_slice(), nv.as_slice()) {
                            None
                        } else {
                            let mut s = String::new();
                            push_str(&mut s, "`");
                            push_str(&mut s, e.path.as_str());
                            push_str(&mut s, "` appeared at rank ");
                            push_str(&mut s, decimal_string(h.rank as u64).as_str());
                            push_str(&mut s, " but snippet did not contain ");
                            push_str(&mut s, debug_quoted(needle.as_str()).as_str());
                            Some(s)
                        }
                    },
                    None => None,
                }
            } else {
                let mut s = String::new();
                push_str(&mut s, "`");
                push_str(&mut s, e.path.as_str());
                push_str(&mut s, "` appeared at rank ");
                push_str(&mut s, decimal_string(h.rank as u64).as_str());
                push_str(&mut s, ", expected within top ");
                push_str(&mut s, decimal_string(e.within_top as u64).as_str());
                Some(s)
            }
        },
        None => {
            let mut s = String::new();
            push_str(&mut s, "missing required hit `");
            push_str(&mut s, e.path.as_str());
            push_str(&mut s, "` within top ");
            push_str(&mut s, decimal_string(e.within_top as u64).as_str());
            Some(s)
        },
    }
}

/// Checks the required hits of a case against the hits it returned.
pub fn check_expectations(observed: &Vec<SearchQualityGoldenHit>, expected: &Vec<ExpectedSearchHit>) -> (r: Vec<String>)
    ensures
        crate::string_views(r@) == expectation_failures(hit_rows(observed@), expected@, expected@.len() as int),
{
    let mut out: Vec<String> = Vec::new();
    let mut i: usize = 0;
    while i < expected.len()
        invariant
            i <= expected@.len(),
            crate::string_views(out@) == expectation_failures(hit_rows(observed@), expected@, i as int),
        decreases expected@.len() - i,
    {
        match check_expectation(observed, &expected[i]) {
            Some(f) => {
                let ghost before = crate::string_views(out@);
                let ghost fv = f@;
                out.push(f);
                assert(crate::string_views(out@) =~= before.push(fv));
            },
            None => {},
        }
        i = i + 1;
    }
    out
}

/// Whether two hits agree on path, lines and snippet (the rank is not compared).
pub open spec fn same_hit(a: HitRow, b: HitRow) -> bool {
    a.rel_path == b.rel_path && a.line_start == b.line_start && a.line_end == b.line_end
        && a.snippet == b.snippet
}

/// Whether two hit lists agree hit for hit.
pub open spec fn hits_match(expected: Seq<HitRow>, actual: Seq<HitRow>) -> bool {
    expected.len() == actual.len() && forall|i: int| 0 <= i < expected.len() ==> same_hit(expected[i], actual[i])
}

/// How a hit is shown in a failure: `path:start-end "snippet"`.
pub open spec fn hit_text(h: HitRow) -> Seq<char> {
    h.rel_path + ":"@ + decimal(h.line_start as nat) + "-"@ + decimal(h.line_end as nat) + " "@
        + debug_text(h.snippet)
}

/// The failure at position `i` of two hit lists, if they differ there.
pub open spec fn rank_failure(expected: Seq<HitRow>, actual: Seq<HitRow>, i: int) -> Option<Seq<char>> {
    let rank = decimal((i + 1) as nat);
    if i < expected.len() && i < actual.len() {
        if same_hit(expected[i], actual[i]) {
            None
        } else {
            Some("rank "@ + rank + " expected "@ + hit_text(expected[i]) + ", got "@ + hit_text(actual[i]))
        }
    } else if i < expected.len() {
        Some("rank "@ + rank + " expected "@ + hit_text(expected[i]) + ", got <missing>"@)
    } else if i < actual.len() {
        Some("rank "@ + rank + " expected <missing>, got "@ + hit_text(actual[i]))
    } else {
        None
    }
}

/// The failures at positions below `n`, in order.
pub open spec fn rank_failures(expected: Seq<HitRow>, actual: Seq<HitRow>, n: int) -> Seq<Seq<char>>
    decreases n,
{
    if n <= 0 {
        Seq::empty()
    } else {
        let prev = rank_failures(expected, actual, n - 1);
        match rank_failure(expected, actual, n - 1) {
            Some(f) => prev.push(f),
            None => prev,
        }
    }
}

/// The golden failures of a case: none when its hits match the recorded ones, else a
/// summary line followed by one line per differing rank.
pub open spec fn golden_failures(case_id: Seq<char>, expected: Seq<HitRow>, actual: Seq<HitRow>) -> Seq<Seq<char>> {
    if hits_match(expected, actual) {
        Seq::empty()
    } else {
        let n = if expected.len() > actual.len() { expected.len() } else { actual.len() };
        seq![
            "golden mismatch for `"@ + case_id + "` (expected "@ + decimal(expected.len()) + " hits, got "@
                + decimal(actual.len()) + ")"@,
        ] + rank_failures(expected, actual, n as int)
    }
}

fn same_hit_exec(a: &SearchQualityGoldenHit, b: &SearchQualityGoldenHit) -> (r: bool)
    ensures
        r == same_hit(hit_row(*a), hit_row(*b)),
{
    a.line_start == b.line_start && a.line_end == b.line_end && crate::text::same_text(
        a.rel_path.as_str(),
        b.rel_path.as_str(),
    ) && crate::text::same_text(a.snippet.as_str(), b.snippet.as_str())
}

fn push_hit_text(s: &mut String, h: &SearchQualityGoldenHit)
    ensures
        final(s)@ == old(s)@ + hit_text(hit_row(*h)),
{
    push_str(s, h.rel_path.as_str());
    push_str(s, ":");
    push_str(s, decimal_string(h.line_start as u64).as_str());
    push_str(s, "-");
    push_str(s, decimal_string(h.line_end as u64).as_str());
    push_str(s, " ");
    push_str(s, debug_quoted(h.snippet.as_str()).as_str());
    assert(final(s)@ =~= old(s)@ + hit_text(hit_row(*h)));
}

/// Compares the hits of a case with its recorded golden hits.
pub fn compare_with_golden(case_id: &str, expected: &Vec<SearchQualityGoldenHit>, actual: &Vec<SearchQualityGoldenHit>) -> (r: Vec<String>)
    ensures
        crate::string_views(r@) == golden_failures(case_id@, hit_rows(expected@), hit_rows(actual@)),
{
    let ghost ev = hit_rows(expected@);
    let ghost av = hit_rows(actual@);
    let mut all_same = expected.len() == actual.len();
    let mut i: usize = 0;
    while all_same && i < expected.len()
        invariant
            i <= expected@.len(),
            ev == hit_rows(expected@),
            av == hit_rows(actual@),
            all_same ==> expected@.len() == actual@.len(),
            all_same ==> forall|j: int| 0 <= j < i ==> same_hit(ev[j], av[j]),
            !all_same ==> !hits_match(ev, av),
        decreases expected@.len() - i,
    {
        if !same_hit_exec(&expected[i], &actual[i]) {
            assert(!same_hit(ev[i as int], av[i as int]));
            assert(!hits_match(ev, av));
            all_same = false;
        }
        i = i + 1;
    }
    if all_same {
        let r: Vec<String> = Vec::new();
        assert(crate::string_views(r@) =~= Seq::<Seq<char>>::empty());
        return r;
    }
    let mut out: Vec<String> = Vec::new();
    let mut head = String::new();
    push_str(&mut head, "golden mismatch for `");
    push_str(&mut head, case_id);
    push_str(&mut head, "` (expected ");
    push_str(&mut head, decimal_string(expected.len() as u64).as_str());
    push_str(&mut head, " hits, got ");
    push_str(&mut head, decimal_string(actual.len() as u64).as_str());
    push_str(&mut head, ")");
    out.push(head);
    let n = if expected.len() > actual.len() { expected.len() } else { actual.len() };
    let ghost first = crate::string_views(out@);
    let mut k: usize = 0;
    assert(first + rank_failures(ev, av, 0) =~= first);
    while k < n
        invariant
            k <= n,
            n == (if expected@.len() > actual@.len() { expected@.len() } else { actual@.len() }),
            ev == hit_rows(expected@),
            av == hit_rows(actual@),
            crate::string_views(out@) == first + rank_failures(ev, av, k as int),
        decreases n - k,
    {
        let ghost before = crate::string_views(out@);
        let rank = decimal_string((k + 1) as u64);
        if k < expected.len() && k < actual.len() {
            if !same_hit_exec(&expected[k], &actual[k]) {
                let mut s = String::new();
                push_str(&mut s, "rank ");
                push_str(&mut s, rank.as_str());
                push_str(&mut s, " expected ");
                push_hit_text(&mut s, &expected[k]);
                push_str(&mut s, ", got ");
                push_hit_text(&mut s, &actual[k]);
                let ghost sv = s@;
                out.push(s);
                assert(crate::string_views(out@) =~= before.push(sv));
            }
        } else if k < expected.len() {
            let mut s = String::new();
            push_str(&mut s, "rank ");
            push_str(&mut s, rank.as_str());
            push_str(&mut s, " expected ");
            push_hit_text(&mut s, &expected[k]);
            push_str(&mut s, ", got <missing>");
            let ghost sv = s@;
            out.push(s);
            assert(crate::string_views(out@) =~= before.push(sv));
        } else {
            let mut s = String::new();
            push_str(&mut s, "rank ");
            push_str(&mut s, rank.as_str());
            push_str(&mut s, " expected <missing>, got ");
            push_hit_text(&mut s, &actual[k]);
            let ghost sv = s@;
            out.push(s);
            assert(crate::string_views(out@) =~= before.push(sv));
        }
        assert(first + rank_failures(ev, av, k + 1) =~= (if rank_failure(ev, av, k as int) is Some { (first + rank_failures(ev, av, k as int)).push(rank_failure(ev, av, k as int)->Some_0) } else { first + rank_failures(ev, av, k as int) }));
        k = k + 1;
    }
    out
}

/// The outcome of one fixture case.
#[derive(Clone, Debug)]
pub struct CaseEvaluation {
    pub id: String,
    pub query: String,
    pub scope: Option<String>,
    pub notes: Option<String>,
    pub limit: usize,
    pub passed: bool,
    pub expectation_failures: Vec<String>,
    pub golden_failures: Vec<String>,
    pub hits: Vec<SearchQualityGoldenHit>,
}

/// The result limit of a case: its own, else the suite default.
pub open spec fn case_limit_of(case: SearchQualityCase, default_limit: usize) -> usize {
    match case.limit {
        Some(limit) => limit,
        None => default_limit,
    }
}

/// The result limit of a case.
pub fn case_limit(case: &SearchQualityCase, default_limit: usize) -> (r: usize)
    ensures
        r == case_limit_of(*case, default_limit),
{
    match case.limit {
        Some(limit) => limit,
        None => default_limit,
    }
}

/// The recorded case with id `id`; when several share it, the last one counts.
pub open spec fn golden_case_of(cases: Seq<SearchQualityGoldenCase>, id: Seq<char>) -> Option<SearchQualityGoldenCase>
    decreases cases.len(),
{
    if cases.len() == 0 {
        None
    } else if cases.last().id@ == id {
        Some(cases.last())
    } else {
        golden_case_of(cases.drop_last(), id)
    }
}

/// Looks up the recorded case of a fixture case.
pub fn golden_case_for<'a>(suite: Option<&'a SearchQualityGoldenSuite>, id: &str) -> (r: Option<&'a SearchQualityGoldenCase>)
    ensures
        suite is None ==> r is None,
        suite matches Some(g) ==> (match r {
            Some(c) => golden_case_of(g.cases@, id@) == Some(*c),
            None => golden_case_of(g.cases@, id@) is None,
        }),
{
    let g = match suite {
        Some(g) => g,
        None => return None,
    };
    let mut i: usize = g.cases.len();
    assert(g.cases@.take(i as int) =~= g.cases@);
    while i > 0
        invariant
            i <= g.cases@.len(),
            suite == Some(g),
            golden_case_of(g.cases@, id@) == golden_case_of(g.cases@.take(i as int), id@),
        decreases i,
    {
        assert(g.cases@.take(i as int).last() == g.cases@[i - 1]);
        assert(g.cases@.take(i as int).drop_last() =~= g.cases@.take(i - 1));
        if crate::text::same_text(g.cases[i - 1].id.as_str(), id) {
            return Some(&g.cases[i - 1]);
        }
        i = i - 1;
    }
    None
}

/// Evaluates one case: its required hits against what it returned, and what it returned
/// against its recorded golden hits, when there are some.
pub fn evaluate_case(
    case: &SearchQualityCase,
    default_limit: usize,
    observed: Vec<SearchQualityGoldenHit>,
    golden: Option<&SearchQualityGoldenSuite>,
) -> (r: CaseEvaluation)
    ensures
        r.id@ == case.id@,
        r.query@ == case.query@,
        crate::text::opt_text(r.scope) == crate::text::opt_text(case.scope),
        crate::text::opt_text(r.notes) == crate::text::opt_text(case.notes),
        r.limit == case_limit_of(*case, default_limit),
        crate::string_views(r.expectation_failures@) == expectation_failures(
            hit_rows(observed@),
            case.expectations.must_include@,
            case.expectations.must_include@.len() as int,
        ),
        crate::string_views(r.golden_failures@) == (match golden {
            Some(g) => match golden_case_of(g.cases@, case.id@) {
                Some(gc) => golden_failures(case.id@, hit_rows(gc.hits@), hit_rows(observed@)),
                None => Seq::empty(),
            },
            None => Seq::empty(),
        }),
        r.passed == (r.expectation_failures@.len() == 0 && r.golden_failures@.len() == 0),
        hit_rows(r.hits@) == hit_rows(observed@),
{
    let limit = case_limit(case, default_limit);
    let expectation = check_expectations(&observed, &case.expectations.must_include);
    let golden_found = golden_case_for(golden, case.id.as_str());
    let golden_failures: Vec<String> = match golden_found {
        Some(gc) => compare_with_golden(case.id.as_str(), &gc.hits, &observed),
        None => {
            let v: Vec<String> = Vec::new();
            assert(crate::string_views(v@) =~= Seq::<Seq<char>>::empty());
            v
        },
    };
    let passed = expectation.len() == 0 && golden_failures.len() == 0;
    CaseEvaluation {
        id: case.id.clone(),
        query: case.query.clone(),
        scope: case.scope.clone(),
        notes: case.notes.clone(),
        limit,
        passed,
        expectation_failures: expectation,
        golden_failures,
        hits: observed,
    }
}

/// The totals of a suite run.
#[derive(Clone, Copy, Debug, PartialEq, Eq, Structural)]
pub struct SuiteSummary {
    pub total_cases: usize,
    pub passed_cases: usize,
    /// The number of cases with at least one expectation failure.
    pub expectation_failures: usize,
    /// The number of cases with at least one golden failure.
    pub golden_failures: usize,
}

impl SuiteSummary {
    /// Whether the run passed: no case failed an expectation or its golden hits.
    pub fn passed(&self) -> (r: bool)
        ensures
            r == (self.expectation_failures == 0 && self.golden_failures == 0),
    {
        self.expectation_failures == 0 && self.golden_failures == 0
    }
}

/// How many of the first `n` cases satisfy a condition, by kind: 0 passed, 1 expectation
/// failure, 2 golden failure.
pub open spec fn count_cases(cases: Seq<CaseEvaluation>, n: int, which: int) -> int
    decreases n,
{
    if n <= 0 {
        0
    } else {
        count_cases(cases, n - 1, which) + if (which == 0 && cases[n - 1].passed) || (which == 1
            && cases[n - 1].expectation_failures@.len() > 0) || (which == 2
            && cases[n - 1].golden_failures@.len() > 0) {
            1int
        } else {
            0int
        }
    }
}

proof fn lemma_count_cases_bound(cases: Seq<CaseEvaluation>, n: int, which: int)
    requires
        0 <= n,
    ensures
        0 <= count_cases(cases, n, which) <= n,
    decreases n,
{
    if n > 0 {
        lemma_count_cases_bound(cases, n - 1, which);
    }
}

/// Totals a suite run.
pub fn summarize_cases(cases: &Vec<CaseEvaluation>) -> (r: SuiteSummary)
    ensures
        r.total_cases == cases@.len(),
        r.passed_cases == count_cases(cases@, cases@.len() as int, 0),
        r.expectation_failures == count_cases(cases@, cases@.len() as int, 1),
        r.golden_failures == count_cases(cases@, cases@.len() as int, 2),
{
    let mut passed: usize = 0;
    let mut expectation: usize = 0;
    let mut golden: usize = 0;
    let mut i: usize = 0;
    while i < cases.len()
        invariant
            i <= cases@.len(),
            passed == count_cases(cases@, i as int, 0),
            expectation == count_cases(cases@, i as int, 1),
            golden == count_cases(cases@, i as int, 2),
        decreases cases@.len() - i,
    {
        proof {
            lemma_count_cases_bound(cases@, i as int, 0);
            lemma_count_cases_bound(cases@, i as int, 1);
            lemma_count_cases_bound(cases@, i as int, 2);
        }
        if cases[i].passed {
            passed = passed + 1;
        }
        if cases[i].expectation_failures.len() > 0 {
            expectation = expectation + 1;
        }
        if cases[i].golden_failures.len() > 0 {
            golden = golden + 1;
        }
        i = i + 1;
    }
    SuiteSummary {
        total_cases: cases.len(),
        passed_cases: passed,
        expectation_failures: expectation,
        golden_failures: golden,
    }
}

/// `s` with every non-overlapping occurrence of `pat` (scanning left to right) replaced by
/// `rep`, as `str::replace` does; an empty `pat` puts `rep` around every character.
pub open spec fn replace_all(s: Seq<char>, pat: Seq<char>, rep: Seq<char>) -> Seq<char> {
    if pat.len() == 0 {
        rep + join(s.map_values(|c: char| seq![c]), rep) + if s.len() > 0 {
            rep
        } else {
            Seq::empty()
        }
    } else {
        join(crate::text::split_at_pattern(s, pat), rep)
    }
}

/// A snippet with the vault root (its backslashes read as slashes) replaced by
/// `<VAULT_ROOT>`, so that recorded results do not depend on where the vault lives.
pub open spec fn normalized_snippet(snippet: Seq<char>, vault_root: Seq<char>) -> Seq<char> {
    replace_all(snippet, crate::index::util::forward_slashes(vault_root), "<VAULT_ROOT>"@)
}

/// Replaces the vault root in a snippet by `<VAULT_ROOT>`.
pub fn normalize_snippet(snippet: &str, vault_root: &str) -> (r: String)
    ensures
        r@ == normalized_snippet(snippet@, vault_root@),
{
    let root = crate::index::util::to_forward_slashes(vault_root);
    let pat = chars_of(root.as_str());
    let s = chars_of(snippet);
    let rep = chars_of("<VAULT_ROOT>");
    if pat.len() == 0 {
        let mut singles: Vec<Vec<char>> = Vec::new();
        let mut i: usize = 0;
        while i < s.len()
            invariant
                i <= s@.len(),
                crate::text::views(singles@) == s@.take(i as int).map_values(|c: char| seq![c]),
            decreases s@.len() - i,
        {
            let ghost before = crate::text::views(singles@);
            let mut one: Vec<char> = Vec::new();
            one.push(s[i]);
            assert(one@ =~= seq![s@[i as int]]);
            singles.push(one);
            assert(crate::text::views(singles@) =~= before.push(seq![s@[i as int]]));
            assert(s@.take(i + 1).map_values(|c: char| seq![c]) =~= s@.take(i as int).map_values(|c: char| seq![c]).push(seq![s@[i as int]]));
            i = i + 1;
        }
        assert(s@.take(s@.len() as int) =~= s@);
        let middle = crate::text::join_chars(&singles, rep.as_slice());
        let mut out = crate::text::string_of(rep.as_slice());
        crate::text::push_chars(&mut out, middle.as_slice());
        if s.len() > 0 {
            crate::text::push_chars(&mut out, rep.as_slice());
        }
        assert(out@ =~= normalized_snippet(snippet@, vault_root@));
        return out;
    }
    let pieces = crate::text::split_pattern(s.as_slice(), pat.as_slice());
    let joined = crate::text::join_chars(&pieces, rep.as_slice());
    crate::text::string_of(joined.as_slice())
}

/// A preview of a long text: the text itself when it has at most `limit` characters, else
/// its longest prefix of at most `limit` bytes followed by `...`.
pub open spec fn preview_text(input: Seq<char>, limit: usize) -> Seq<char> {
    if input.len() <= limit {
        input
    } else {
        crate::index::snippets::fit_prefix(input, limit as int) + "..."@
    }
}

/// Cuts a text down to a preview.
pub fn truncate_preview(input: &str, limit: usize) -> (r: String)
    ensures
        r@ == preview_text(input@, limit),
{
    let chars = chars_of(input);
    if chars.len() <= limit {
        return input.to_owned();
    }
    let mut prefix = crate::index::snippets::fit_prefix_exec(chars.as_slice(), limit);
    push_str(&mut prefix, "...");
    prefix
}

/// One search hit as an evaluation reads it: its path, lines and snippet.
#[derive(Clone, Debug)]
pub struct FoundHit {
    pub rel_path: String,
    pub line_start: usize,
    pub line_end: usize,
    pub snippet: String,
}

/// Ranks search hits from one and scrubs the vault root from their snippets.
pub fn rank_hits(hits: &Vec<FoundHit>, vault_root: &str) -> (r: Vec<SearchQualityGoldenHit>)
    ensures
        r@.len() == hits@.len(),
        forall|k: int|
            0 <= k < r@.len() ==> hit_row(#[trigger] r@[k]) == (HitRow {
                rank: (k + 1) as usize,
                rel_path: hits@[k].rel_path@,
                line_start: hits@[k].line_start,
                line_end: hits@[k].line_end,
                snippet: normalized_snippet(hits@[k].snippet@, vault_root@),
            }),
{
    let mut out: Vec<SearchQualityGoldenHit> = Vec::new();
    let mut i: usize = 0;
    while i < hits.len()
        invariant
            i <= hits@.len(),
            out@.len() == i,
            forall|k: int|
                0 <= k < i ==> hit_row(#[trigger] out@[k]) == (HitRow {
                    rank: (k + 1) as usize,
                    rel_path: hits@[k].rel_path@,
                    line_start: hits@[k].line_start,
                    line_end: hits@[k].line_end,
                    snippet: normalized_snippet(hits@[k].snippet@, vault_root@),
                }),
        decreases hits@.len() - i,
    {
        let h = &hits[i];
        out.push(
            SearchQualityGoldenHit {
                rank: i + 1,
                rel_path: h.rel_path.clone(),
                line_start: h.line_start,
                line_end: h.line_end,
                snippet: normalize_snippet(h.snippet.as_str(), vault_root),
            },
        );
        i = i + 1;
    }
    out
}

/// Records the result list of one case as a golden case.
pub fn golden_case(case: &SearchQualityCase, default_limit: usize, hits: Vec<SearchQualityGoldenHit>) -> (r:
    SearchQualityGoldenCase)
    ensures
        r.id@ == case.id@,
        r.query@ == case.query@,
        crate::text::opt_text(r.scope) == crate::text::opt_text(case.scope),
        r.limit == case_limit_of(*case, default_limit),
        r.hits@ == hits@,
{
    SearchQualityGoldenCase {
        id: case.id.clone(),
        query: case.query.clone(),
        scope: case.scope.clone(),
        limit: case_limit(case, default_limit),
        hits,
    }
}

/// One chunk as the chunk probe reports it.
#[derive(Clone, Debug)]
pub struct ChunkProbeEntry {
    pub chunk_index: usize,
    pub chunk_kind: String,
    pub line_start: usize,
    pub line_end: usize,
    pub language: Option<String>,
    pub symbol_kind: Option<String>,
    pub container: Option<String>,
    pub raw_text: String,
    pub normalized_text: String,
    pub shared_normalized_text: String,
    pub shared_normalized_text_hash: String,
}

/// The chunks a file yields under the current chunking and content rules.
#[derive(Clone, Debug)]
pub struct ChunkProbeReport {
    pub path: String,
    pub chunk_count: usize,
    pub chunks: Vec<ChunkProbeEntry>,
}

/// Whether a probe entry reports chunk `c`.
pub open spec fn reports_chunk(e: ChunkProbeEntry, c: IndexedChunk) -> bool {
    &&& e.chunk_index == c.chunk_index
    &&& e.chunk_kind@ == c.chunk_kind@
    &&& e.line_start == c.line_start
    &&& e.line_end == c.line_end
    &&& crate::text::opt_text(e.language) == crate::text::opt_text(c.language)
    &&& crate::text::opt_text(e.symbol_kind) == crate::text::opt_text(c.symbol_kind)
    &&& crate::text::opt_text(e.container) == crate::text::opt_text(c.container)
    &&& e.raw_text@ == c.raw_text@
    &&& e.normalized_text@ == c.normalized_text@
    &&& e.shared_normalized_text@ == c.shared_normalized_text@
    &&& e.shared_normalized_text_hash@ == c.shared_normalized_text_hash@
}

/// Reports the chunks of the file at `path`, given what preparing it for the index
/// yielded; a file that yields no document is an error.
pub fn probe_chunks(path: &str, document: Option<IndexedDocument>) -> (r: Result<ChunkProbeReport, ZgError>)
    ensures
        r is Ok <==> document is Some,
        r matches Err(e) ==> e.message@ == path@ + " is not indexable under the current chunking/content rules"@,
        r matches Ok(report) ==> {
            let d = document->Some_0;
            &&& report.path@ == path@
            &&& report.chunk_count == d.chunks@.len()
            &&& report.chunks@.len() == d.chunks@.len()
            &&& forall|k: int| 0 <= k < report.chunks@.len() ==> reports_chunk(#[trigger] report.chunks@[k], d.chunks@[k])
        },
{
    let d = match document {
        Some(d) => d,
        None => {
            let mut s = String::new();
            push_str(&mut s, path);
            push_str(&mut s, " is not indexable under the current chunking/content rules");
            return Err(crate::other(s));
        },
    };
    let mut entries: Vec<ChunkProbeEntry> = Vec::new();
    let mut i: usize = 0;
    while i < d.chunks.len()
        invariant
            i <= d.chunks@.len(),
            entries@.len() == i,
            forall|k: int| 0 <= k < i ==> reports_chunk(#[trigger] entries@[k], d.chunks@[k]),
        decreases d.chunks@.len() - i,
    {
        let c = &d.chunks[i];
        entries.push(
            ChunkProbeEntry {
                chunk_index: c.chunk_index,
                chunk_kind: c.chunk_kind.clone(),
                line_start: c.line_start,
                line_end: c.line_end,
                language: c.language.clone(),
                symbol_kind: c.symbol_kind.clone(),
                container: c.container.clone(),
                raw_text: c.raw_text.clone(),
                normalized_text: c.normalized_text.clone(),
                shared_normalized_text: c.shared_normalized_text.clone(),
                shared_normalized_text_hash: c.shared_normalized_text_hash.clone(),
            },
        );
        i = i + 1;
    }
    Ok(ChunkProbeReport { path: path.to_owned(), chunk_count: d.chunks.len(), chunks: entries })
}

/// Row totals of an index database.
#[derive(Clone, Copy, Debug)]
pub struct DbCacheTotals {
    pub files: u64,
    pub chunk_refs: u64,
    pub shared_chunks: u64,
    pub vec_chunks: u64,
    pub vec_index_rows: u64,
    pub fts_rows: u64,
}

/// A key with how many rows have it.
#[derive(Clone, Debug)]
pub struct KeyCount {
    pub key: String,
    pub count: u64,
}

/// A file with its number of chunks.
#[derive(Clone, Debug)]
pub struct FileChunkCount {
    pub rel_path: String,
    pub chunk_count: u64,
}

/// A shared chunk with its reference count and a preview of its text.
#[derive(Clone, Debug)]
pub struct SharedChunkCount {
    pub ref_count: u64,
    pub normalized_text_preview: String,
}

/// The latest recorded index run.
#[derive(Clone, Debug)]
pub struct IndexRunProbe {
    pub started_at_unix_ms: u64,
    pub finished_at_unix_ms: u64,
    pub status: String,
    pub scanned_files: u64,
    pub indexed_files: u64,
    pub chunks_indexed: u64,
    pub error: Option<String>,
}

/// What the database cache probe reports about an index.
#[derive(Clone, Debug)]
pub struct DbCacheProbeReport {
    pub requested_path: String,
    pub index_root: String,
    pub status: IndexStatus,
    pub totals: DbCacheTotals,
    pub chunk_kinds: Vec<KeyCount>,
    pub symbol_languages: Vec<KeyCount>,
    pub symbol_kinds: Vec<KeyCount>,
    pub top_files_by_chunks: Vec<FileChunkCount>,
    pub top_shared_chunks: Vec<SharedChunkCount>,
    pub last_index_run: Option<IndexRunProbe>,
}

/// The index root the database probe reads for `requested_path`, from its status; a path
/// that no index covers is an error.
pub fn probe_index_root(requested_path: &str, status: &IndexStatus) -> (r: Result<String, ZgError>)
    ensures
        r matches Ok(root) ==> crate::text::opt_text(status.index_root) == Some(root@),
        r is Err <==> status.index_root is None,
        r matches Err(e) ==> e.message@ == "no ancestor .zg index found for "@ + requested_path@,
{
    match &status.index_root {
        Some(root) => Ok(root.clone()),
        None => {
            let mut s = String::new();
            push_str(&mut s, "no ancestor .zg index found for ");
            push_str(&mut s, requested_path);
            Err(crate::other(s))
        },
    }
}

/// The preview length of shared chunk texts in the database probe.
pub const SHARED_CHUNK_PREVIEW_CHARS: usize = 120;

/// Reports a shared chunk with a preview of its text.
pub fn shared_chunk_count(ref_count: u64, normalized_text: &str) -> (r: SharedChunkCount)
    ensures
        r.ref_count == ref_count,
        r.normalized_text_preview@ == preview_text(normalized_text@, SHARED_CHUNK_PREVIEW_CHARS),
{
    SharedChunkCount {
        ref_count,
        normalized_text_preview: truncate_preview(normalized_text, SHARED_CHUNK_PREVIEW_CHARS),
    }
}

/// Assembles the database cache probe report of `requested_path` from what was read.
pub fn probe_db_cache(
    requested_path: &str,
    index_root: String,
    status: IndexStatus,
    totals: DbCacheTotals,
    chunk_kinds: Vec<KeyCount>,
    symbol_languages: Vec<KeyCount>,
    symbol_kinds: Vec<KeyCount>,
    top_files_by_chunks: Vec<FileChunkCount>,
    top_shared_chunks: Vec<SharedChunkCount>,
    last_index_run: Option<IndexRunProbe>,
) -> (r: DbCacheProbeReport)
    ensures
        r.requested_path@ == requested_path@,
        r.index_root == index_root,
        r.status == (IndexStatus { requested_path: r.status.requested_path, ..status }),
        r.status.requested_path@ == requested_path@,
        r.totals == totals,
        r.chunk_kinds == chunk_kinds,
        r.symbol_languages == symbol_languages,
        r.symbol_kinds == symbol_kinds,
        r.top_files_by_chunks == top_files_by_chunks,
        r.top_shared_chunks == top_shared_chunks,
        r.last_index_run == last_index_run,
{
    let mut status = status;
    status.requested_path = requested_path.to_owned();
    DbCacheProbeReport {
        requested_path: requested_path.to_owned(),
        index_root,
        status,
        totals,
        chunk_kinds,
        symbol_languages,
        symbol_kinds,
        top_files_by_chunks,
        top_shared_chunks,
        last_index_run,
    }
}

} // verus!
