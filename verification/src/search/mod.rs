//! Regex-shaped input detection and the ordering of regex search results.
//!
//! Running ripgrep is left to the caller; this module decides when a query is regex-shaped,
//! which scopes are never searched, and how the hits ripgrep reports are ordered.
pub mod ripgrep;

use vstd::prelude::*;
use vstd::multiset::Multiset;

use crate::paths::{components, has_zg_component, has_zg_part, part_views, parts_before, parts_less,
    path_parts, PathPart, lemma_parts_less_irreflexive, lemma_parts_less_transitive};
use crate::text::{chars_before, chars_less, chars_of, lemma_chars_less_irreflexive,
    lemma_chars_less_transitive};

verus! {

broadcast use vstd::seq_lib::group_to_multiset_ensures;

/// How many lines of context to show before and after a match.
#[derive(Clone, Copy, Debug, Default, PartialEq, Eq, Structural)]
pub struct SearchContext {
    pub before: usize,
    pub after: usize,
}

impl SearchContext {
    /// Whether any context lines are asked for.
    pub fn has_context(self) -> (r: bool)
        ensures
            r == (self.before > 0 || self.after > 0),
    {
        self.before > 0 || self.after > 0
    }

    /// The lines `line_start..=line_end` widened by the context: `before` lines earlier but not
    /// before line 1, `after` lines later but not past the file's last line (nor, when the file
    /// is shorter than the hit says, short of `line_end`).
    pub fn widen(self, line_start: usize, line_end: usize, line_count: usize) -> (r: (usize, usize))
        ensures
            r.0 == (if line_start as int - self.before as int >= 1 { line_start as int - self.before as int } else { 1 }),
            ({
                let cap = if line_count >= line_end { line_count as int } else { line_end as int };
                let wanted = line_end as int + self.after as int;
                r.1 == (if wanted <= cap { wanted } else { cap })
            }),
    {
        let start = if line_start > self.before && line_start - self.before >= 1 {
            line_start - self.before
        } else {
            1
        };
        let cap = if line_count >= line_end { line_count } else { line_end };
        let end = if self.after <= cap - line_end { line_end + self.after } else { cap };
        (start, end)
    }
}

/// A way to scan files with a regex or a literal pattern, as ripgrep does.
pub trait ScanBackend {
    /// The matches of `pattern` under `root`, with `context` lines around each.
    fn regex_search(&self, root: &str, pattern: &str, context: SearchContext) -> Result<Vec<GrepHit>, crate::ZgError>;

    /// The matches of `pattern` taken literally under `root`.
    fn literal_search(&self, root: &str, pattern: &str) -> Result<Vec<GrepHit>, crate::ZgError>;
}

/// One regex match: the file, the 1-based line number, and the line without its newline.
#[derive(Debug)]
pub struct GrepHit {
    pub path: String,
    pub line_number: usize,
    pub line: String,
}

/// The order regex hits are printed in: by path (component-wise), then line number, then line.
pub open spec fn grep_hit_less(a: GrepHit, b: GrepHit) -> bool {
    let pa = components(a.path@);
    let pb = components(b.path@);
    parts_less(pa, pb) || (pa == pb && (a.line_number < b.line_number || (a.line_number
        == b.line_number && chars_less(a.line@, b.line@))))
}

/// Whether `hits` are in printing order.
pub open spec fn grep_hits_sorted(hits: Seq<GrepHit>) -> bool {
    forall|i: int, j: int| 0 <= i < j < hits.len() ==> !grep_hit_less(hits[j], hits[i])
}

/// The hit order is transitive and irreflexive.
pub proof fn lemma_grep_hit_less(a: GrepHit, b: GrepHit, c: GrepHit)
    ensures
        grep_hit_less(a, b) && grep_hit_less(b, c) ==> grep_hit_less(a, c),
        !grep_hit_less(a, a),
{
    let pa = components(a.path@);
    let pb = components(b.path@);
    let pc = components(c.path@);
    lemma_parts_less_irreflexive(pa);
    lemma_chars_less_irreflexive(a.line@);
    if grep_hit_less(a, b) && grep_hit_less(b, c) {
        if parts_less(pa, pb) && parts_less(pb, pc) {
            lemma_parts_less_transitive(pa, pb, pc);
        }
        if chars_less(a.line@, b.line@) && chars_less(b.line@, c.line@) {
            lemma_chars_less_transitive(a.line@, b.line@, c.line@);
        }
    }
}

fn hit_before(ap: &Vec<PathPart>, a: &GrepHit, bp: &Vec<PathPart>, b: &GrepHit) -> (r: bool)
    requires
        part_views(ap@) == components(a.path@),
        part_views(bp@) == components(b.path@),
    ensures
        r == grep_hit_less(*a, *b),
{
    if parts_before(ap, bp) {
        return true;
    }
    if parts_before(bp, ap) {
        proof {
            lemma_parts_less_irreflexive(part_views(ap@));
        }
        return false;
    }
    let same_path = !parts_before(ap, bp) && !parts_before(bp, ap) && same_parts(ap, bp);
    if !same_path {
        return false;
    }
    if a.line_number < b.line_number {
        return true;
    }
    if a.line_number > b.line_number {
        return false;
    }
    let x = chars_of(a.line.as_str());
    let y = chars_of(b.line.as_str());
    chars_before(x.as_slice(), y.as_slice())
}

fn same_parts(a: &Vec<PathPart>, b: &Vec<PathPart>) -> (r: bool)
    ensures
        r == (part_views(a@) == part_views(b@)),
{
    if a.len() != b.len() {
        assert(part_views(a@).len() != part_views(b@).len());
        return false;
    }
    let mut i: usize = 0;
    while i < a.len()
        invariant
            i <= a@.len(),
            a@.len() == b@.len(),
            forall|k: int| 0 <= k < i ==> a@[k]@ == b@[k]@,
        decreases a@.len() - i,
    {
        if !crate::paths::same_part_exec(&a[i], &b[i]) {
            assert(part_views(a@)[i as int] != part_views(b@)[i as int]);
            return false;
        }
        i = i + 1;
    }
    assert(part_views(a@) =~= part_views(b@));
    true
}

/// Puts regex hits in printing order: by path, then line number, then line text.
pub fn sort_grep_hits(hits: Vec<GrepHit>) -> (r: Vec<GrepHit>)
    ensures
        r@.to_multiset() == hits@.to_multiset(),
        grep_hits_sorted(r@),
{
    let mut rest = hits;
    let mut out: Vec<GrepHit> = Vec::new();
    let mut keys: Vec<Vec<PathPart>> = Vec::new();
    while rest.len() > 0
        invariant
            out@.to_multiset().add(rest@.to_multiset()) == hits@.to_multiset(),
            grep_hits_sorted(out@),
            keys@.len() == out@.len(),
            forall|k: int| 0 <= k < out@.len() ==> part_views(#[trigger] keys@[k]@) == components(out@[k].path@),
        decreases rest@.len(),
    {
        let ghost before_rest = rest@;
        let h = rest.remove(0);
        assert(rest@.to_multiset() == before_rest.to_multiset().remove(h));
        let hp = path_parts(h.path.as_str());
        let mut pos: usize = 0;
        while pos < out.len() && !hit_before(&hp, &h, &keys[pos], &out[pos])
            invariant
                pos <= out@.len(),
                keys@.len() == out@.len(),
                part_views(hp@) == components(h.path@),
                forall|k: int| 0 <= k < out@.len() ==> part_views(#[trigger] keys@[k]@) == components(out@[k].path@),
                forall|k: int| 0 <= k < pos ==> !grep_hit_less(h, #[trigger] out@[k]),
            decreases out@.len() - pos,
        {
            pos = pos + 1;
        }
        let ghost old_out = out@;
        let ghost old_keys = keys@;
        proof {
            assert forall|i: int, j: int| 0 <= i < j < old_out.len() + 1 implies !grep_hit_less(
                old_out.insert(pos as int, h)[j],
                old_out.insert(pos as int, h)[i],
            ) by {
                let s = old_out.insert(pos as int, h);
                if j == pos {
                    assert(s[i] == old_out[i]);
                } else if i == pos {
                    assert(s[j] == old_out[j - 1]);
                    assert(grep_hit_less(h, old_out[pos as int]));
                    if pos < j - 1 {
                        assert(!grep_hit_less(old_out[j - 1], old_out[pos as int]));
                    }
                    lemma_grep_hit_less(old_out[j - 1], h, old_out[pos as int]);
                    lemma_grep_hit_less(h, h, h);
                } else {
                    let oi = if i < pos { i } else { i - 1 };
                    let oj = if j < pos { j } else { j - 1 };
                    assert(s[i] == old_out[oi]);
                    assert(s[j] == old_out[oj]);
                }
            }
        }
        out.insert(pos, h);
        keys.insert(pos, hp);
        assert(out@ == old_out.insert(pos as int, h));
        assert forall|k: int| 0 <= k < out@.len() implies part_views(#[trigger] keys@[k]@)
            == components(out@[k].path@) by {
            if k > pos {
                assert(keys@[k] == old_keys[k - 1]);
                assert(out@[k] == old_out[k - 1]);
            } else if k < pos {
                assert(keys@[k] == old_keys[k]);
                assert(out@[k] == old_out[k]);
            }
        }
    }
    assert(rest@.to_multiset() =~= Multiset::empty());
    out
}

/// The hits a regex search over `root` reports: none when the scope lies inside a `.zg/`
/// cache, else ripgrep's hits in printing order.
pub fn regex_search(root: &str, hits: Vec<GrepHit>) -> (r: Vec<GrepHit>)
    ensures
        has_zg_part(root@) ==> r@.len() == 0,
        !has_zg_part(root@) ==> r@.to_multiset() == hits@.to_multiset() && grep_hits_sorted(r@),
{
    if has_zg_component(root) {
        return Vec::new();
    }
    sort_grep_hits(hits)
}

} // verus!

verus! {

use regex_syntax::hir::HirKind as H;
use RegexNodeKind as N;

/// The kind of a parsed regex node, as `regex_syntax::hir::HirKind` tells them apart.
#[derive(Clone, Copy, Debug, PartialEq, Eq, Structural)]
pub enum RegexNodeKind {
    Empty,
    Literal,
    Class,
    Look,
    Repetition,
    Capture,
    Concat,
    Alternation,
}

/// What parsing `pattern` with `regex_syntax::parse` gives, as far as regex detection reads
/// it: the kind of the top node and, for a concatenation, the kinds of its parts; `None` when
/// the pattern does not parse.
pub uninterp spec fn regex_outline(pattern: Seq<char>) -> Option<(RegexNodeKind, Seq<RegexNodeKind>)>;

/// `regex_syntax::parse`, read down to the kinds of the top node and of a concatenation's
/// parts. The contract names the result `regex_outline(pattern@)`; it adds what the crate's
/// smart constructors guarantee: only a concatenation reports parts, and a concatenation's
/// parts are never themselves concatenations (`Hir::concat` flattens them).
#[verifier::external_body]
fn parse_regex_outline(pattern: &str) -> (r: Option<(RegexNodeKind, Vec<RegexNodeKind>)>)
    ensures
        r matches Some((top, subs)) ==> regex_outline(pattern@) == Some((top, subs@)),
        r is None ==> regex_outline(pattern@) is None,
        r matches Some((top, subs)) ==> (top != RegexNodeKind::Concat ==> subs@.len() == 0),
        r matches Some((top, subs)) ==> forall|i: int|
            0 <= i < subs@.len() ==> subs@[i] != RegexNodeKind::Concat,
{
    let tag = |k: &H| match k {
        H::Empty => N::Empty, H::Literal(_) => N::Literal, H::Class(_) => N::Class,
        H::Look(_) => N::Look, H::Repetition(_) => N::Repetition, H::Capture(_) => N::Capture,
        H::Concat(_) => N::Concat, H::Alternation(_) => N::Alternation,
    };
    regex_syntax::parse(pattern).ok().map(|hir| {
        let subs = match hir.kind() {
            H::Concat(parts) => parts.iter().map(|part| tag(part.kind())).collect(),
            _ => Vec::new(),
        };
        (tag(hir.kind()), subs)
    })
}

/// The characters that give a query regex structure.
pub open spec fn is_structural_char(c: char) -> bool {
    c == '[' || c == ']' || c == '(' || c == ')' || c == '{' || c == '}' || c == '|' || c == '^'
        || c == '$' || c == '\\'
}

/// Whether `s` holds a structural regex character.
pub open spec fn has_structural_signal(s: Seq<char>) -> bool {
    exists|i: int| 0 <= i < s.len() && is_structural_char(s[i])
}

/// Whether `s` holds any hint of regex syntax: a structural character or `.*`, `.+`, `.?`.
pub open spec fn has_regex_signal(s: Seq<char>) -> bool {
    has_structural_signal(s) || crate::text::contains(s, ".*"@) || crate::text::contains(s, ".+"@)
        || crate::text::contains(s, ".?"@)
}

/// Whether a node of this kind is more than plain text.
pub open spec fn kind_is_regex(k: RegexNodeKind) -> bool {
    !(k == RegexNodeKind::Empty || k == RegexNodeKind::Literal || k == RegexNodeKind::Concat)
}

/// Whether a parsed pattern uses regex semantics: anything but empty, a literal, or a
/// concatenation of literals.
pub open spec fn outline_is_regex(top: RegexNodeKind, subs: Seq<RegexNodeKind>) -> bool {
    if top == RegexNodeKind::Concat {
        exists|i: int| 0 <= i < subs.len() && kind_is_regex(subs[i])
    } else {
        kind_is_regex(top)
    }
}

/// Whether a query should be run as a regex rather than as indexed text search.
pub open spec fn probably_regex(s: Seq<char>) -> bool {
    if !has_regex_signal(s) {
        false
    } else if exists|i: int| 0 <= i < s.len() && s[i] == '\\' {
        true
    } else {
        match regex_outline(s) {
            Some((top, subs)) => outline_is_regex(top, subs),
            None => has_structural_signal(s),
        }
    }
}

/// Regex-shaped input keeps regex semantics: a query with regex syntax in it that parses to a
/// character class, a look-around assertion, a repetition, a capture group or an alternation
/// (or to a concatenation with such a part) is run as a regex; one that parses to plain text
/// (nothing, a literal, or a concatenation of literals) without a backslash is not.
pub proof fn lemma_regex_shapes(s: Seq<char>)
    requires
        exists|i: int|
            0 <= i < s.len() && (s[i] == '[' || s[i] == ']' || s[i] == '(' || s[i] == ')' || s[i] == '{' || s[i]
                == '}' || s[i] == '|' || s[i] == '^' || s[i] == '$' || s[i] == '\\'),
    ensures
        regex_outline(s) matches Some((top, subs)) && (top == RegexNodeKind::Class || top == RegexNodeKind::Look
            || top == RegexNodeKind::Repetition || top == RegexNodeKind::Capture || top == RegexNodeKind::Alternation)
            ==> probably_regex(s),
        regex_outline(s) matches Some((top, subs)) && top == RegexNodeKind::Concat && (exists|i: int|
            0 <= i < subs.len() && (subs[i] == RegexNodeKind::Class || subs[i] == RegexNodeKind::Look || subs[i]
                == RegexNodeKind::Repetition || subs[i] == RegexNodeKind::Capture || subs[i]
                == RegexNodeKind::Alternation)) ==> probably_regex(s),
        regex_outline(s) matches Some((top, subs)) && (forall|i: int| 0 <= i < s.len() ==> s[i] != '\\') && (top
            == RegexNodeKind::Empty || top == RegexNodeKind::Literal || (top == RegexNodeKind::Concat && forall|i: int|
            0 <= i < subs.len() ==> (subs[i] == RegexNodeKind::Empty || subs[i] == RegexNodeKind::Literal
                || subs[i] == RegexNodeKind::Concat))) ==> !probably_regex(s),
        (exists|i: int| 0 <= i < s.len() && s[i] == '\\') ==> probably_regex(s),
        regex_outline(s) is None ==> probably_regex(s),
{
    let i = choose|i: int|
        0 <= i < s.len() && (s[i] == '[' || s[i] == ']' || s[i] == '(' || s[i] == ')' || s[i] == '{' || s[i]
            == '}' || s[i] == '|' || s[i] == '^' || s[i] == '$' || s[i] == '\\');
    assert(is_structural_char(s[i]));
    assert(has_structural_signal(s));
}

/// Text with no regex syntax at all (no structural character and none of `.*`, `.+`, `.?`)
/// is never run as a regex.
pub proof fn lemma_plain_text_is_not_regex(s: Seq<char>)
    requires
        forall|i: int|
            0 <= i < s.len() ==> !(s[i] == '[' || s[i] == ']' || s[i] == '(' || s[i] == ')' || s[i] == '{'
                || s[i] == '}' || s[i] == '|' || s[i] == '^' || s[i] == '$' || s[i] == '\\'),
        !crate::text::contains(s, ".*"@),
        !crate::text::contains(s, ".+"@),
        !crate::text::contains(s, ".?"@),
    ensures
        !probably_regex(s),
{
}

fn structural_char(c: char) -> (r: bool)
    ensures
        r == is_structural_char(c),
{
    c == '[' || c == ']' || c == '(' || c == ')' || c == '{' || c == '}' || c == '|' || c == '^'
        || c == '$' || c == '\\'
}

fn contains_structural_regex_signal(s: &[char]) -> (r: bool)
    ensures
        r == has_structural_signal(s@),
{
    let mut i: usize = 0;
    while i < s.len()
        invariant
            i <= s@.len(),
            forall|k: int| 0 <= k < i ==> !is_structural_char(s@[k]),
        decreases s@.len() - i,
    {
        if structural_char(s[i]) {
            return true;
        }
        i = i + 1;
    }
    false
}

fn contains_regex_signal(s: &[char]) -> (r: bool)
    ensures
        r == has_regex_signal(s@),
{
    if contains_structural_regex_signal(s) {
        return true;
    }
    let a = chars_of(".*");
    let b = chars_of(".+");
    let c = chars_of(".?");
    crate::text::contains_chars(s, a.as_slice()) || crate::text::contains_chars(s, b.as_slice())
        || crate::text::contains_chars(s, c.as_slice())
}

fn has_backslash(s: &[char]) -> (r: bool)
    ensures
        r == exists|i: int| 0 <= i < s@.len() && s@[i] == '\\',
{
    let mut i: usize = 0;
    while i < s.len()
        invariant
            i <= s@.len(),
            forall|k: int| 0 <= k < i ==> s@[k] != '\\',
        decreases s@.len() - i,
    {
        if s[i] == '\\' {
            return true;
        }
        i = i + 1;
    }
    false
}

fn hir_contains_regex_semantics(top: RegexNodeKind, subs: &Vec<RegexNodeKind>) -> (r: bool)
    ensures
        r == outline_is_regex(top, subs@),
{
    match top {
        RegexNodeKind::Empty | RegexNodeKind::Literal => false,
        RegexNodeKind::Concat => {
            let mut i: usize = 0;
            while i < subs.len()
                invariant
                    i <= subs@.len(),
                    top == RegexNodeKind::Concat,
                    forall|k: int| 0 <= k < i ==> !kind_is_regex(subs@[k]),
                decreases subs@.len() - i,
            {
                let k = subs[i];
                if !(k == RegexNodeKind::Empty || k == RegexNodeKind::Literal || k
                    == RegexNodeKind::Concat) {
                    assert(kind_is_regex(subs@[i as int]));
                    return true;
                }
                i = i + 1;
            }
            false
        },
        _ => true,
    }
}

/// Whether a query looks like a regex: it must show regex syntax, and when it parses, the
/// parse must use more than plain literals.
pub fn is_probably_regex(input: &str) -> (r: bool)
    ensures
        r == probably_regex(input@),
{
    let s = chars_of(input);
    if !contains_regex_signal(s.as_slice()) {
        return false;
    }
    if has_backslash(s.as_slice()) {
        return true;
    }
    match parse_regex_outline(input) {
        Some((top, subs)) => hir_contains_regex_semantics(top, &subs),
        None => contains_structural_regex_signal(s.as_slice()),
    }
}

/// How a query is run: as a regex over the files, or against the local index.
#[derive(Clone, Copy, Debug, PartialEq, Eq, Structural)]
pub enum SearchMode {
    Regex,
    Indexed,
}

/// Regex-shaped queries keep regex semantics; everything else goes to the index.
pub fn resolve_search_mode(query: &str) -> (r: SearchMode)
    ensures
        r == (if probably_regex(query@) { SearchMode::Regex } else { SearchMode::Indexed }),
{
    if is_probably_regex(query) {
        SearchMode::Regex
    } else {
        SearchMode::Indexed
    }
}

} // verus!
