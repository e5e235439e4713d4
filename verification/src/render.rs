//! How search results and index status are laid out for the terminal.
use vstd::prelude::*;

use crate::index::types::{level_name, IndexStatus};
use crate::messages::{level_hint_text, status_level_hint};
use crate::text::{
    chars_of, decimal, decimal_string, join, join_chars, push_str, split_words, string_of, views,
    words,
};

verus! {

/// One search result, ready to print: the path, the line label, a one-line preview, and which
/// channels found it (none for plain grep results).
#[derive(Clone, Debug)]
pub struct RenderedSearchHit {
    pub path: String,
    pub line_label: String,
    pub preview: String,
    pub classification: Option<String>,
}

/// Whether output is grouped under per-file headings, and whether it is coloured.
#[derive(Clone, Copy, Debug, PartialEq, Eq, Structural)]
pub struct SearchOutputStyle {
    pub headings: bool,
    pub color: bool,
}

/// `value` wrapped in the colour escape `code` when colour is on.
pub open spec fn painted(value: Seq<char>, style: SearchOutputStyle, code: Seq<char>) -> Seq<char> {
    if style.color {
        code + value + "\x1b[0m"@
    } else {
        value
    }
}

/// Wraps `value` in the colour escape `code` when colour is on.
pub fn paint(value: &str, style: SearchOutputStyle, code: &str) -> (r: String)
    ensures
        r@ == painted(value@, style, code@),
{
    let mut s = String::new();
    if style.color {
        push_str(&mut s, code);
        push_str(&mut s, value);
        push_str(&mut s, "\x1b[0m");
    } else {
        push_str(&mut s, value);
    }
    s
}

/// `12` for a one-line range, `12-14` otherwise.
pub open spec fn line_label_text(line_start: usize, line_end: usize) -> Seq<char> {
    if line_start == line_end {
        decimal(line_start as nat)
    } else {
        decimal(line_start as nat) + "-"@ + decimal(line_end as nat)
    }
}

/// The label of a line range: one number when it is a single line.
pub fn format_line_label(line_start: usize, line_end: usize) -> (r: String)
    ensures
        r@ == line_label_text(line_start, line_end),
{
    let mut s = decimal_string(line_start as u64);
    if line_start != line_end {
        push_str(&mut s, "-");
        push_str(&mut s, decimal_string(line_end as u64).as_str());
    }
    s
}

/// A snippet folded onto one line: its words joined by single spaces.
pub open spec fn inline_text(snippet: Seq<char>) -> Seq<char> {
    join(words(snippet), " "@)
}

/// Folds a snippet onto one line.
pub fn inline_preview(snippet: &str) -> (r: String)
    ensures
        r@ == inline_text(snippet@),
{
    let chars = chars_of(snippet);
    let ws = split_words(chars.as_slice());
    let sep = chars_of(" ");
    let joined = join_chars(&ws, sep.as_slice());
    string_of(joined.as_slice())
}

/// The channel letters of a hit: `r` literal recall, `f` full-text, `v` vector; `?` for none.
pub open spec fn channel_text(indexed_text_match: bool, partial_text_match: bool, semantic_match: bool) -> Seq<
    char,
> {
    let label = (if partial_text_match { seq!['r'] } else { Seq::empty() }) + (if indexed_text_match {
        seq!['f']
    } else {
        Seq::empty()
    }) + (if semantic_match { seq!['v'] } else { Seq::empty() });
    if label.len() == 0 {
        seq!['?']
    } else {
        label
    }
}

/// The channel letters of a hit.
pub fn display_channel(indexed_text_match: bool, partial_text_match: bool, semantic_match: bool) -> (r:
    String)
    ensures
        r@ == channel_text(indexed_text_match, partial_text_match, semantic_match),
{
    let mut label = String::new();
    if partial_text_match {
        push_str(&mut label, "r");
    }
    if indexed_text_match {
        push_str(&mut label, "f");
    }
    if semantic_match {
        push_str(&mut label, "v");
    }
    if !partial_text_match && !indexed_text_match && !semantic_match {
        push_str(&mut label, "?");
    }
    proof {
        reveal_strlit("r");
        reveal_strlit("f");
        reveal_strlit("v");
        reveal_strlit("?");
    }
    assert(label@ =~= channel_text(indexed_text_match, partial_text_match, semantic_match));
    label
}

/// The bracketed channel prefix of a hit.
pub fn format_hit_prefix(classification: &str) -> (r: String)
    ensures
        r@ == "["@ + classification@ + "]"@,
{
    let mut s = String::new();
    push_str(&mut s, "[");
    push_str(&mut s, classification);
    push_str(&mut s, "]");
    s
}

/// Builds the printable form of one indexed search result.
pub fn format_search_result(
    rel_path: &str,
    line_start: usize,
    line_end: usize,
    indexed_text_match: bool,
    partial_text_match: bool,
    semantic_match: bool,
    snippet: &str,
) -> (r: RenderedSearchHit)
    ensures
        r.path@ == rel_path@,
        r.line_label@ == line_label_text(line_start, line_end),
        r.preview@ == inline_text(snippet@),
        r.classification matches Some(c) && c@ == channel_text(
            indexed_text_match,
            partial_text_match,
            semantic_match,
        ),
{
    let mut path = String::new();
    push_str(&mut path, rel_path);
    RenderedSearchHit {
        path,
        line_label: format_line_label(line_start, line_end),
        preview: inline_preview(snippet),
        classification: Some(display_channel(indexed_text_match, partial_text_match, semantic_match)),
    }
}

/// The body of a result line: channels, line label and preview, or `label:preview` for grep.
pub open spec fn hit_body_text(hit: RenderedSearchHit, style: SearchOutputStyle) -> Seq<char> {
    match hit.classification {
        Some(c) => painted("["@ + c@ + "]"@, style, "\x1b[2;33m"@) + " "@ + painted(
            hit.line_label@,
            style,
            "\x1b[32m"@,
        ) + ": "@ + hit.preview@,
        None => painted(hit.line_label@, style, "\x1b[32m"@) + ":"@ + hit.preview@,
    }
}

/// The body of a result line.
pub fn render_hit_body(hit: &RenderedSearchHit, style: SearchOutputStyle) -> (r: String)
    ensures
        r@ == hit_body_text(*hit, style),
{
    match &hit.classification {
        Some(classification) => {
            let mut s = paint(format_hit_prefix(classification.as_str()).as_str(), style, "\x1b[2;33m");
            push_str(&mut s, " ");
            push_str(&mut s, paint(hit.line_label.as_str(), style, "\x1b[32m").as_str());
            push_str(&mut s, ": ");
            push_str(&mut s, hit.preview.as_str());
            s
        },
        None => {
            let mut s = paint(hit.line_label.as_str(), style, "\x1b[32m");
            push_str(&mut s, ":");
            push_str(&mut s, hit.preview.as_str());
            s
        },
    }
}

/// The output lines for `hits`: under headings, a file's consecutive hits share one heading
/// line and a blank line separates files; otherwise each line is `path:body`.
pub open spec fn hit_lines(hits: Seq<RenderedSearchHit>, style: SearchOutputStyle) -> Seq<Seq<char>>
    decreases hits.len(),
{
    if hits.len() == 0 {
        Seq::empty()
    } else {
        let prev = hit_lines(hits.drop_last(), style);
        let hit = hits.last();
        if style.headings {
            let new_file = hits.len() == 1 || hits[hits.len() - 2].path@ != hit.path@;
            let with_heading = if new_file {
                (if hits.len() > 1 { prev.push(Seq::empty()) } else { prev }).push(
                    painted(hit.path@, style, "\x1b[1;35m"@),
                )
            } else {
                prev
            };
            with_heading.push(hit_body_text(hit, style))
        } else {
            prev.push(painted(hit.path@, style, "\x1b[1;35m"@) + ":"@ + hit_body_text(hit, style))
        }
    }
}

/// The whole rendered output: the lines joined by newlines, with a final newline unless empty.
pub open spec fn rendered_text(hits: Seq<RenderedSearchHit>, style: SearchOutputStyle) -> Seq<char> {
    let lines = hit_lines(hits, style);
    if lines.len() == 0 {
        Seq::empty()
    } else {
        join(lines, "\n"@) + "\n"@
    }
}

/// Renders search results the way ripgrep lays them out.
pub fn render_search_hits(hits: &[RenderedSearchHit], style: SearchOutputStyle) -> (r: String)
    ensures
        r@ == rendered_text(hits@, style),
{
    let mut lines: Vec<Vec<char>> = Vec::new();
    let mut i: usize = 0;
    assert(views(lines@) =~= hit_lines(hits@.take(0), style));
    while i < hits.len()
        invariant
            i <= hits@.len(),
            views(lines@) == hit_lines(hits@.take(i as int), style),
        decreases hits@.len() - i,
    {
        let hit = &hits[i];
        let ghost prev = views(lines@);
        proof {
            assert(hits@.take(i + 1).drop_last() =~= hits@.take(i as int));
        }
        if style.headings {
            let new_file = i == 0 || !crate::text::same_text(
                hits[i - 1].path.as_str(),
                hit.path.as_str(),
            );
            if new_file {
                if i > 0 {
                    let blank: Vec<char> = Vec::new();
                    lines.push(blank);
                }
                let heading = paint(hit.path.as_str(), style, "\x1b[1;35m");
                lines.push(chars_of(heading.as_str()));
            }
            let body = render_hit_body(hit, style);
            lines.push(chars_of(body.as_str()));
            proof {
                let ps = hits@.take(i + 1);
                assert(ps.last() == hit);
                if i > 0 {
                    assert(ps[ps.len() - 2] == hits@[i - 1]);
                }
                assert(views(lines@) =~= hit_lines(ps, style));
            }
        } else {
            let mut line = paint(hit.path.as_str(), style, "\x1b[1;35m");
            push_str(&mut line, ":");
            push_str(&mut line, render_hit_body(hit, style).as_str());
            lines.push(chars_of(line.as_str()));
            proof {
                let ps = hits@.take(i + 1);
                assert(ps.last() == hit);
                assert(views(lines@) =~= hit_lines(ps, style));
            }
        }
        i = i + 1;
    }
    assert(hits@.take(hits@.len() as int) =~= hits@);
    if lines.len() == 0 {
        return String::new();
    }
    let sep = chars_of("\n");
    let joined = join_chars(&lines, sep.as_slice());
    let mut out = string_of(joined.as_slice());
    push_str(&mut out, "\n");
    out
}

/// `yes` or `no`.
pub fn yes_no(value: bool) -> (r: &'static str)
    ensures
        r@ == (if value { "yes"@ } else { "no"@ }),
{
    if value {
        "yes"
    } else {
        "no"
    }
}

} // verus!

verus! {

/// `yes` or `no`.
pub open spec fn yes_no_text(value: bool) -> Seq<char> {
    if value { "yes"@ } else { "no"@ }
}

/// Lines each followed by a newline.
pub open spec fn lines_text(lines: Seq<Seq<char>>) -> Seq<char>
    decreases lines.len(),
{
    if lines.len() == 0 {
        Seq::empty()
    } else {
        lines_text(lines.drop_last()) + lines.last() + "\n"@
    }
}

/// An optional line as zero or one lines.
pub open spec fn maybe_line(line: Option<Seq<char>>) -> Seq<Seq<char>> {
    match line {
        Some(l) => seq![l],
        None => Seq::empty(),
    }
}

/// The lines of the `zg index status` report, one `name: value` line each.
pub open spec fn status_lines(status: IndexStatus) -> Seq<Seq<char>> {
    seq![
        "requested path: "@ + status.requested_path@,
        "index root: "@ + (match status.index_root { Some(r) => r@, None => "none"@ }),
        "indexed: "@ + yes_no_text(status.indexed),
        "index level: "@ + level_name(status.index_level),
        "chunking: "@ + status.chunk_mode@,
        "marker: "@ + status.chunk_marker@,
        "scope policy: "@ + status.scope_policy@,
        "walk policy: "@ + status.walk_policy@,
        "dirty: "@ + yes_no_text(status.dirty),
        "dirty reason: "@ + (match status.dirty_reason { Some(r) => r@, None => "none"@ }),
        "files: "@ + decimal(status.file_count as nat),
        "chunks: "@ + decimal(status.chunk_count as nat),
        "fts ready: "@ + yes_no_text(status.fts_ready),
        "vector ready: "@ + yes_no_text(status.vector_ready),
    ] + maybe_line(match status.last_index_run_status {
        Some(s) => Some("last index run status: "@ + s@),
        None => None,
    }) + maybe_line(match status.last_index_run_duration_ms {
        Some(d) => Some("last index run duration ms: "@ + decimal(d as nat)),
        None => None,
    }) + maybe_line(match status.index_root {
        Some(r) => level_hint_text(r@, status.index_level, status.chunk_count),
        None => None,
    }) + seq![
        "last sync unix ms: "@ + (match status.last_sync_unix_ms {
            Some(v) => decimal(v as nat),
            None => "never"@,
        }),
    ]
}

/// The `zg index status` report.
pub open spec fn status_text(status: IndexStatus) -> Seq<char> {
    lines_text(status_lines(status))
}

/// Appends the line `line` to a text made of `lines`.
pub(crate) fn push_text_line(s: &mut String, line: &str, Ghost(lines): Ghost<Seq<Seq<char>>>) -> (r: Ghost<Seq<Seq<char>>>)
    requires
        old(s)@ == lines_text(lines),
    ensures
        r@ == lines.push(line@),
        final(s)@ == lines_text(r@),
{
    push_str(s, line);
    push_str(s, "\n");
    let ghost out = lines.push(line@);
    assert(out.drop_last() =~= lines);
    assert(s@ =~= lines_text(out));
    Ghost(out)
}

/// Appends the line `name` + `value` to a text made of `lines`.
pub(crate) fn push_line(s: &mut String, name: &str, value: &str, Ghost(lines): Ghost<Seq<Seq<char>>>) -> (r: Ghost<Seq<Seq<char>>>)
    requires
        old(s)@ == lines_text(lines),
    ensures
        r@ == lines.push(name@ + value@),
        final(s)@ == lines_text(r@),
{
    push_str(s, name);
    push_str(s, value);
    push_str(s, "\n");
    let ghost out = lines.push(name@ + value@);
    assert(out.drop_last() =~= lines);
    assert(s@ =~= lines_text(out));
    Ghost(out)
}

/// The `zg index status` report.
#[verifier::rlimit(100)]
#[verifier::spinoff_prover]
pub fn format_status(status: &IndexStatus) -> (r: String)
    ensures
        r@ == status_text(*status),
{
    let mut s = String::new();
    let ghost mut g: Seq<Seq<char>> = Seq::empty();
    let Ghost(g1) = push_line(&mut s, "requested path: ", status.requested_path.as_str(), Ghost(g));
    let Ghost(g2) = match &status.index_root {
        Some(root) => push_line(&mut s, "index root: ", root.as_str(), Ghost(g1)),
        None => push_line(&mut s, "index root: ", "none", Ghost(g1)),
    };
    let Ghost(g3) = push_line(&mut s, "indexed: ", yes_no(status.indexed), Ghost(g2));
    let Ghost(g4) = push_line(&mut s, "index level: ", status.index_level.as_str(), Ghost(g3));
    let Ghost(g5) = push_line(&mut s, "chunking: ", status.chunk_mode.as_str(), Ghost(g4));
    let Ghost(g6) = push_line(&mut s, "marker: ", status.chunk_marker.as_str(), Ghost(g5));
    let Ghost(g7) = push_line(&mut s, "scope policy: ", status.scope_policy.as_str(), Ghost(g6));
    let Ghost(g8) = push_line(&mut s, "walk policy: ", status.walk_policy.as_str(), Ghost(g7));
    let Ghost(g9) = push_line(&mut s, "dirty: ", yes_no(status.dirty), Ghost(g8));
    let Ghost(g10) = match &status.dirty_reason {
        Some(reason) => push_line(&mut s, "dirty reason: ", reason.as_str(), Ghost(g9)),
        None => push_line(&mut s, "dirty reason: ", "none", Ghost(g9)),
    };
    let Ghost(g11) = push_line(&mut s, "files: ", decimal_string(status.file_count).as_str(), Ghost(g10));
    let Ghost(g12) = push_line(&mut s, "chunks: ", decimal_string(status.chunk_count).as_str(), Ghost(g11));
    let Ghost(g13) = push_line(&mut s, "fts ready: ", yes_no(status.fts_ready), Ghost(g12));
    let Ghost(g14) = push_line(&mut s, "vector ready: ", yes_no(status.vector_ready), Ghost(g13));
    let ghost head = g14;
    let Ghost(g15) = if let Some(last_status) = &status.last_index_run_status {
        push_line(&mut s, "last index run status: ", last_status.as_str(), Ghost(g14))
    } else {
        Ghost(g14)
    };
    let Ghost(g16) = if let Some(duration_ms) = status.last_index_run_duration_ms {
        push_line(&mut s, "last index run duration ms: ", decimal_string(duration_ms).as_str(), Ghost(g15))
    } else {
        Ghost(g15)
    };
    let mut g17: Ghost<Seq<Seq<char>>> = Ghost(g16);
    if let Some(root) = &status.index_root {
        if let Some(hint) = status_level_hint(root.as_str(), status.index_level, status.chunk_count) {
            proof {
                reveal_strlit("");
            }
            g17 = push_line(&mut s, "", hint.as_str(), Ghost(g16));
            assert(""@ + hint@ =~= hint@);
        }
    }
    let Ghost(g18) = match status.last_sync_unix_ms {
        Some(v) => push_line(&mut s, "last sync unix ms: ", decimal_string(v).as_str(), g17),
        None => push_line(&mut s, "last sync unix ms: ", "never", g17),
    };
    assert(head =~= status_lines(*status).take(14));
    assert(g18 =~= status_lines(*status));
    s
}

} // verus!
