//! Parsing of diff3-style conflict blocks with variable-width markers,
//! context extraction with nested-marker sanitization, and the helpers the
//! surrounding tooling needs to talk about marker lines.
//!
//! All functions here are pure text transformations: the process that runs
//! the version-control commands hands their output in as plain strings.

use vstd::prelude::*;
use vstd::string::StringExecFns;
use crate::strutil::{
    matches_at, views, line_split, concat_lines, lines_wf, is_line, first_prefix_idx, first_eq_idx,
    lemma_first_prefix_idx, lemma_first_eq_idx, lemma_line_split_props, lemma_line_split_of_concat,
    split_lines, join_all, vec_subrange, find_line_with_prefix, find_line_eq,
    ends_with_nl, push_char, str_starts_with, str_trim, spec_trim, parse_usize, all_digits,
    digits_val, str_eq, first_char_idx, last_char_idx, lemma_first_char_idx, lemma_last_char_idx,
    str_find_char, str_rfind_char, is_whitespace_char, char_is_whitespace, append_strings,
    str_find, contains_string,
};
use crate::conflict_resolver::{
    Conflict, ConflictModel, ResolvedConflict, ResolvedModel, resolved_views, contains_sub,
};

verus! {

/// Width of the conflict markers that version-control tools write by
/// default, and the width at or above which a marker-looking line inside
/// context is treated as a nested conflict.
pub const DEFAULT_MARKER_SIZE: usize = 7;

/// How many lines of context the engine extracts and how wide the diffs it
/// renders are.
#[derive(Debug, Clone, Copy)]
pub struct ContextLines {
    pub code_context_lines: u32,
    pub diff_context_lines: u32,
    pub patch_context_lines: u32,
}

/// Why a conflict block or its surrounding context was rejected.
#[derive(Debug, Clone, Copy, PartialEq, Eq, Structural)]
pub enum ParseError {
    MissingHeadMarker,
    MissingBaseMarker,
    MissingSeparator,
    MissingEndMarker,
    InvalidMarkerOrder,
    NestedMarkers,
}

// ---------------------------------------------------------------------------
// Marker lines
// ---------------------------------------------------------------------------

/// The marker character repeated `n` times.
pub open spec fn marker_seq(c: char, n: nat) -> Seq<char> {
    Seq::new(n, |i: int| c)
}

/// The prefix that opens a conflict: the head marker and a space.
pub open spec fn head_prefix(w: nat) -> Seq<char> {
    marker_seq('<', w).push(' ')
}

/// The prefix of the base-section marker line: the base marker and a space.
pub open spec fn base_prefix(w: nat) -> Seq<char> {
    marker_seq('|', w).push(' ')
}

/// The exact separator line between base and remote sections.
pub open spec fn sep_line(w: nat) -> Seq<char> {
    marker_seq('=', w).push('\n')
}

/// The prefix of the closing marker line.
pub open spec fn end_prefix(w: nat) -> Seq<char> {
    marker_seq('>', w)
}

/// The prefix of an attribution line written by an earlier resolution pass.
pub open spec fn annot_prefix(w: nat) -> Seq<char> {
    marker_seq('|', w) + " synthmerge: "@
}

pub open spec fn is_marker_char(c: char) -> bool {
    c == '<' || c == '>' || c == '=' || c == '|'
}

/// A line that starts with at least `DEFAULT_MARKER_SIZE` characters drawn
/// from the marker alphabet: a conflict marker nested where plain text was
/// expected.
pub open spec fn has_nested_marker(l: Seq<char>) -> bool {
    l.len() >= DEFAULT_MARKER_SIZE && forall|k: int|
        0 <= k < DEFAULT_MARKER_SIZE ==> is_marker_char(l[k])
}

pub open spec fn has_nested_in(ls: Seq<Seq<char>>) -> bool {
    exists|i: int| 0 <= i < ls.len() && has_nested_marker(#[trigger] ls[i])
}

// ---------------------------------------------------------------------------
// Stripping foreign conflict blocks out of context lines
// ---------------------------------------------------------------------------

/// One pass of the open/base/end marker state machine over `ls`: marker
/// lines are dropped, lines of a base or remote section are dropped, lines
/// of the local section and plain lines are kept.
pub open spec fn strip_markers_rec(ls: Seq<Seq<char>>, w: nat, skip: bool, in_head: bool) -> Seq<
    Seq<char>,
>
    decreases ls.len(),
{
    if ls.len() == 0 {
        Seq::empty()
    } else {
        let l = ls.first();
        let rest = ls.drop_first();
        if matches_at(l, marker_seq('<', w), 0) {
            strip_markers_rec(rest, w, true, true)
        } else if matches_at(l, marker_seq('|', w), 0) {
            strip_markers_rec(rest, w, skip, false)
        } else if matches_at(l, marker_seq('>', w), 0) {
            strip_markers_rec(rest, w, false, false)
        } else if !skip || in_head {
            seq![l] + strip_markers_rec(rest, w, skip, in_head)
        } else {
            strip_markers_rec(rest, w, skip, in_head)
        }
    }
}

pub open spec fn strip_markers(ls: Seq<Seq<char>>, w: nat) -> Seq<Seq<char>> {
    strip_markers_rec(ls, w, false, false)
}

/// Dropping the first line keeps a line sequence well formed.
proof fn lemma_wf_drop_first(ls: Seq<Seq<char>>)
    requires
        lines_wf(ls),
        ls.len() > 0,
    ensures
        lines_wf(ls.drop_first()),
{
    assert forall|i: int|
        0 <= i < ls.drop_first().len() implies is_line(#[trigger] ls.drop_first()[i]) && (i
        < ls.drop_first().len() - 1 ==> ls.drop_first()[i].last() == '\n') by {
        assert(ls.drop_first()[i] == ls[i + 1]);
    }
}

/// The marker-stripping pass keeps the line sequence well formed.
proof fn lemma_strip_wf(ls: Seq<Seq<char>>, w: nat, skip: bool, in_head: bool)
    requires
        lines_wf(ls),
    ensures
        lines_wf(strip_markers_rec(ls, w, skip, in_head)),
        strip_markers_rec(ls, w, skip, in_head).len() > 0 ==> ({
            let out = strip_markers_rec(ls, w, skip, in_head);
            exists|i: int|
                0 <= i < ls.len() && out.last() == ls[i] && (i < ls.len() - 1 ==> out.last().last()
                    == '\n')
        }),
    decreases ls.len(),
{
    if ls.len() == 0 {
    } else {
        let l = ls.first();
        let rest = ls.drop_first();
        lemma_wf_drop_first(ls);
        if matches_at(l, marker_seq('<', w), 0) {
            lemma_strip_wf(rest, w, true, true);
            strip_last_shift(ls, w, strip_markers_rec(rest, w, true, true));
        } else if matches_at(l, marker_seq('|', w), 0) {
            lemma_strip_wf(rest, w, skip, false);
            strip_last_shift(ls, w, strip_markers_rec(rest, w, skip, false));
        } else if matches_at(l, marker_seq('>', w), 0) {
            lemma_strip_wf(rest, w, false, false);
            strip_last_shift(ls, w, strip_markers_rec(rest, w, false, false));
        } else if !skip || in_head {
            lemma_strip_wf(rest, w, skip, in_head);
            let tail_out = strip_markers_rec(rest, w, skip, in_head);
            let out = seq![l] + tail_out;
            if tail_out.len() == 0 {
                assert(out =~= seq![l]);
                assert(out.last() == ls[0]);
                assert(lines_wf(out)) by {
                    assert(is_line(l));
                }
            } else {
                let i0 = choose|i: int|
                    0 <= i < rest.len() && tail_out.last() == rest[i] && (i < rest.len() - 1
                        ==> tail_out.last().last() == '\n');
                assert(out.last() == tail_out.last());
                assert(out.last() == ls[i0 + 1]);
                assert(i0 + 1 < ls.len() - 1 ==> out.last().last() == '\n');
                assert(lines_wf(out)) by {
                    assert forall|i: int|
                        0 <= i < out.len() implies is_line(#[trigger] out[i]) && (i < out.len() - 1
                        ==> out[i].last() == '\n') by {
                        if i == 0 {
                            assert(out[0] == l);
                            assert(is_line(l));
                            if out.len() > 1 {
                                assert(ls.len() >= 2);
                                assert(l.last() == '\n');
                            }
                        } else {
                            assert(out[i] == tail_out[i - 1]);
                        }
                    }
                }
            }
        } else {
            lemma_strip_wf(rest, w, skip, in_head);
            strip_last_shift(ls, w, strip_markers_rec(rest, w, skip, in_head));
        }
    }
}

/// Helper: a witness for the last line of a stripped tail also witnesses
/// the whole sequence.
proof fn strip_last_shift(ls: Seq<Seq<char>>, w: nat, tail_out: Seq<Seq<char>>)
    requires
        ls.len() > 0,
        tail_out.len() > 0 ==> exists|i: int|
            0 <= i < ls.drop_first().len() && tail_out.last() == ls.drop_first()[i] && (i
                < ls.drop_first().len() - 1 ==> tail_out.last().last() == '\n'),
    ensures
        tail_out.len() > 0 ==> exists|i: int|
            0 <= i < ls.len() && tail_out.last() == ls[i] && (i < ls.len() - 1
                ==> tail_out.last().last() == '\n'),
{
    if tail_out.len() > 0 {
        let i0 = choose|i: int|
            0 <= i < ls.drop_first().len() && tail_out.last() == ls.drop_first()[i] && (i
                < ls.drop_first().len() - 1 ==> tail_out.last().last() == '\n');
        assert(ls.drop_first()[i0] == ls[i0 + 1]);
        assert(0 <= i0 + 1 < ls.len() && tail_out.last() == ls[i0 + 1] && (i0 + 1 < ls.len() - 1
            ==> tail_out.last().last() == '\n'));
    }
}

/// A prefix of a well-formed line sequence is well formed.
proof fn lemma_wf_take(ls: Seq<Seq<char>>, k: int)
    requires
        lines_wf(ls),
        0 <= k <= ls.len(),
    ensures
        lines_wf(ls.take(k)),
{
    assert forall|i: int|
        0 <= i < ls.take(k).len() implies is_line(#[trigger] ls.take(k)[i]) && (i < ls.take(k).len()
        - 1 ==> ls.take(k)[i].last() == '\n') by {
        assert(ls.take(k)[i] == ls[i]);
    }
}

/// A suffix of a well-formed line sequence is well formed.
proof fn lemma_wf_skip(ls: Seq<Seq<char>>, k: int)
    requires
        lines_wf(ls),
        0 <= k <= ls.len(),
    ensures
        lines_wf(ls.skip(k)),
{
    assert forall|i: int|
        0 <= i < ls.skip(k).len() implies is_line(#[trigger] ls.skip(k)[i]) && (i < ls.skip(k).len()
        - 1 ==> ls.skip(k)[i].last() == '\n') by {
        assert(ls.skip(k)[i] == ls[i + k]);
    }
}

// ---------------------------------------------------------------------------
// Parsing one conflict block
// ---------------------------------------------------------------------------

/// Context extraction for a block occupying lines
/// `[start_line - 1, start_line - 1 + ls.len())` of `content`, with the
/// marker positions already found inside the block's lines `ls`.
pub open spec fn spec_extract(
    ls: Seq<Seq<char>>,
    content: Seq<char>,
    start_line: int,
    file_path: Seq<char>,
    w: nat,
    ccl: nat,
    local_start: int,
    base_start: int,
    rs: int,
    annot_start: int,
    re: int,
) -> Result<ConflictModel, ParseError> {
    let cls = line_split(content);
    let head_end = start_line - 1;
    let head_stripped = strip_markers(cls.take(head_end), w);
    let tail_idx = start_line - 1 + ls.len();
    let tail_stripped = strip_markers(cls.skip(tail_idx as int), w);
    if has_nested_in(head_stripped) {
        Err(ParseError::NestedMarkers)
    } else if has_nested_in(tail_stripped) {
        Err(ParseError::NestedMarkers)
    } else {
        let nr_head: int = if ccl <= head_end {
            ccl as int
        } else {
            head_end
        };
        let head_keep = if head_stripped.len() <= ccl {
            head_stripped
        } else {
            head_stripped.skip(head_stripped.len() - ccl)
        };
        let nr_tail: int = if ccl + tail_idx <= cls.len() {
            ccl as int
        } else {
            cls.len() - tail_idx
        };
        let tail_keep = if tail_stripped.len() <= ccl {
            tail_stripped
        } else {
            tail_stripped.take(ccl as int)
        };
        Ok(
            ConflictModel {
                file_path: file_path,
                local: concat_lines(ls.subrange(local_start + 1, base_start)),
                base: concat_lines(ls.subrange(base_start + 1, annot_start)),
                remote: concat_lines(ls.subrange(rs + 1, re)),
                head_context: concat_lines(head_keep),
                tail_context: concat_lines(tail_keep),
                start_line: start_line as nat,
                remote_start: rs as nat,
                nr_head_context_lines: nr_head as nat,
                nr_tail_context_lines: nr_tail as nat,
                marker_size: w,
            },
        )
    }
}

/// Structural parse of one diff3-style block: the four marker lines must
/// occur in strictly increasing order; an attribution line from an earlier
/// resolution pass, when present, ends the base section early.
pub open spec fn spec_parse_conflict(
    conflict_text: Seq<char>,
    content: Seq<char>,
    start_line: int,
    file_path: Seq<char>,
    w: nat,
    ccl: nat,
) -> Result<ConflictModel, ParseError> {
    let ls = line_split(conflict_text);
    let local_start = first_prefix_idx(ls, head_prefix(w), 0);
    let base_start = first_prefix_idx(ls, base_prefix(w), 0);
    let rs = first_eq_idx(ls, sep_line(w), 0);
    let annot = first_prefix_idx(ls, annot_prefix(w), 0);
    let re = first_prefix_idx(ls, end_prefix(w), 0);
    if local_start < 0 {
        Err(ParseError::MissingHeadMarker)
    } else if base_start < 0 {
        Err(ParseError::MissingBaseMarker)
    } else if rs < 0 {
        Err(ParseError::MissingSeparator)
    } else if re < 0 {
        Err(ParseError::MissingEndMarker)
    } else if re <= rs || rs <= base_start || base_start <= local_start {
        Err(ParseError::InvalidMarkerOrder)
    } else if (if annot < 0 {
        rs
    } else {
        annot
    }) <= base_start {
        Err(ParseError::InvalidMarkerOrder)
    } else {
        spec_extract(
            ls,
            content,
            start_line,
            file_path,
            w,
            ccl,
            local_start,
            base_start,
            rs,
            if annot < 0 {
                rs
            } else {
                annot
            },
            re,
        )
    }
}

/// No marker leakage: when a conflict block parses successfully, no line of
/// the extracted head or tail context looks like a conflict marker of at
/// least the default width — nested or adjacent conflicts never leak into
/// context, whatever the block's own marker width is.
pub proof fn lemma_no_marker_leakage(
    conflict_text: Seq<char>,
    content: Seq<char>,
    start_line: int,
    file_path: Seq<char>,
    w: nat,
    ccl: nat,
    c: ConflictModel,
)
    requires
        spec_parse_conflict(conflict_text, content, start_line, file_path, w, ccl) == Ok::<
            ConflictModel,
            ParseError,
        >(c),
        1 <= start_line,
        start_line - 1 + line_split(conflict_text).len() <= line_split(content).len(),
    ensures
        forall|i: int|
            0 <= i < line_split(c.head_context).len() ==> !has_nested_marker(
                #[trigger] line_split(c.head_context)[i],
            ),
        forall|i: int|
            0 <= i < line_split(c.tail_context).len() ==> !has_nested_marker(
                #[trigger] line_split(c.tail_context)[i],
            ),
{
    let ls = line_split(conflict_text);
    let cls = line_split(content);
    let head_end = start_line - 1;
    let tail_idx = start_line - 1 + ls.len();
    let head_stripped = strip_markers(cls.take(head_end), w);
    let tail_stripped = strip_markers(cls.skip(tail_idx as int), w);
    lemma_line_split_props(content);
    lemma_wf_take(cls, head_end);
    lemma_wf_skip(cls, tail_idx as int);
    lemma_strip_wf(cls.take(head_end), w, false, false);
    lemma_strip_wf(cls.skip(tail_idx as int), w, false, false);
    let head_keep = if head_stripped.len() <= ccl {
        head_stripped
    } else {
        head_stripped.skip(head_stripped.len() - ccl)
    };
    let tail_keep = if tail_stripped.len() <= ccl {
        tail_stripped
    } else {
        tail_stripped.take(ccl as int)
    };
    if head_stripped.len() <= ccl {
    } else {
        lemma_wf_skip(head_stripped, head_stripped.len() - ccl);
    }
    if tail_stripped.len() <= ccl {
    } else {
        lemma_wf_take(tail_stripped, ccl as int);
    }
    assert(lines_wf(head_keep));
    assert(lines_wf(tail_keep));
    assert(c.head_context == concat_lines(head_keep));
    assert(c.tail_context == concat_lines(tail_keep));
    lemma_line_split_of_concat(head_keep);
    lemma_line_split_of_concat(tail_keep);
    assert forall|i: int|
        0 <= i < line_split(c.head_context).len() implies !has_nested_marker(
        #[trigger] line_split(c.head_context)[i],
    ) by {
        assert(line_split(c.head_context)[i] == head_keep[i]);
        if head_stripped.len() <= ccl {
            assert(head_keep[i] == head_stripped[i]);
        } else {
            assert(head_keep[i] == head_stripped[i + (head_stripped.len() - ccl)]);
        }
        if has_nested_marker(line_split(c.head_context)[i]) {
            assert(has_nested_in(head_stripped));
        }
    }
    assert forall|i: int|
        0 <= i < line_split(c.tail_context).len() implies !has_nested_marker(
        #[trigger] line_split(c.tail_context)[i],
    ) by {
        assert(line_split(c.tail_context)[i] == tail_keep[i]);
        assert(tail_keep[i] == tail_stripped[i]);
        if has_nested_marker(line_split(c.tail_context)[i]) {
            assert(has_nested_in(tail_stripped));
        }
    }
}

// ---------------------------------------------------------------------------
// Scanning a file for conflict blocks
// ---------------------------------------------------------------------------

/// The first complete conflict block at or after line `pos`: the first
/// head-marker line, followed (in order, each strictly later) by the first
/// base-marker line, separator line and end-marker line. The end line must
/// be newline-terminated. Returns the inclusive line range of the block.
pub open spec fn spec_find_block(ls: Seq<Seq<char>>, w: nat, pos: int) -> Option<(int, int)> {
    let i = first_prefix_idx(ls, head_prefix(w), pos);
    if i < 0 {
        None
    } else {
        let j = first_prefix_idx(ls, base_prefix(w), i + 1);
        if j < 0 {
            None
        } else {
            let k = first_eq_idx(ls, sep_line(w), j + 1);
            if k < 0 {
                None
            } else {
                let l = first_prefix_idx(ls, end_prefix(w), k + 1);
                if l < 0 {
                    None
                } else if ls[l].len() > 0 && ls[l].last() == '\n' {
                    Some((i, l))
                } else {
                    None
                }
            }
        }
    }
}

proof fn lemma_find_block(ls: Seq<Seq<char>>, w: nat, pos: int)
    requires
        0 <= pos,
    ensures
        match spec_find_block(ls, w, pos) {
            Some(b) => pos <= b.0 && b.0 < b.1 && b.1 < ls.len(),
            None => true,
        },
{
    lemma_first_prefix_idx(ls, head_prefix(w), pos);
    let i = first_prefix_idx(ls, head_prefix(w), pos);
    if i >= 0 {
        lemma_first_prefix_idx(ls, base_prefix(w), i + 1);
        let j = first_prefix_idx(ls, base_prefix(w), i + 1);
        if j >= 0 {
            lemma_first_eq_idx(ls, sep_line(w), j + 1);
            let k = first_eq_idx(ls, sep_line(w), j + 1);
            if k >= 0 {
                lemma_first_prefix_idx(ls, end_prefix(w), k + 1);
            }
        }
    }
}

/// All conflict blocks of the file, in order, scanning from line `pos` and
/// continuing after the end of each found block.
pub open spec fn spec_scan(ls: Seq<Seq<char>>, w: nat, pos: int) -> Seq<(int, int)>
    decreases ls.len() - pos,
    when 0 <= pos
    via spec_scan_dec
{
    match spec_find_block(ls, w, pos) {
        None => Seq::empty(),
        Some(b) => seq![b] + spec_scan(ls, w, b.1 + 1),
    }
}

#[via_fn]
proof fn spec_scan_dec(ls: Seq<Seq<char>>, w: nat, pos: int) {
    lemma_find_block(ls, w, pos);
}

/// Parse each block of `blocks` (inclusive line ranges of `ls`, the lines of
/// `content`); the first parse error aborts the file.
pub open spec fn spec_blocks_to_conflicts(
    ls: Seq<Seq<char>>,
    content: Seq<char>,
    path: Seq<char>,
    w: nat,
    ccl: nat,
    blocks: Seq<(int, int)>,
) -> Result<Seq<ConflictModel>, ParseError>
    decreases blocks.len(),
{
    if blocks.len() == 0 {
        Ok(Seq::empty())
    } else {
        let b = blocks.first();
        let text = concat_lines(ls.subrange(b.0, b.1 + 1));
        match spec_parse_conflict(text, content, b.0 + 1, path, w, ccl) {
            Err(e) => Err(e),
            Ok(c) => match spec_blocks_to_conflicts(ls, content, path, w, ccl, blocks.drop_first()) {
                Err(e) => Err(e),
                Ok(rest) => Ok(seq![c] + rest),
            },
        }
    }
}

/// One file reported as unmerged by the version-control system: its
/// repository-relative path, its content, and its marker width.
pub struct UnmergedFile {
    pub path: String,
    pub content: String,
    pub marker_size: usize,
}

#[verifier::ext_equal]
pub struct UnmergedFileModel {
    pub path: Seq<char>,
    pub content: Seq<char>,
    pub marker_size: nat,
}

impl View for UnmergedFile {
    type V = UnmergedFileModel;

    open spec fn view(&self) -> UnmergedFileModel {
        UnmergedFileModel {
            path: self.path@,
            content: self.content@,
            marker_size: self.marker_size as nat,
        }
    }
}

/// A line with its line terminator removed: a trailing newline, then a
/// trailing carriage return, are dropped.
pub open spec fn chomp(l: Seq<char>) -> Seq<char> {
    let a = if l.len() > 0 && l.last() == '\n' {
        l.drop_last()
    } else {
        l
    };
    if a.len() > 0 && a.last() == '\r' {
        a.drop_last()
    } else {
        a
    }
}

/// The marker width announced by one line of attribute-query output for
/// `path`: the line must start with the path and a colon, and after
/// trimming, with the attribute name; the remainder must be a number that
/// fits the machine.
pub open spec fn line_marker_size(l: Seq<char>, path: Seq<char>) -> Option<nat> {
    if matches_at(l, path.push(':'), 0) {
        let t = spec_trim(l.skip(path.len() as int + 1));
        if matches_at(t, "conflict-marker-size: "@, 0) {
            let num = t.skip("conflict-marker-size: "@.len() as int);
            if all_digits(num) && digits_val(num) <= usize::MAX {
                Some(digits_val(num))
            } else {
                None
            }
        } else {
            None
        }
    } else {
        None
    }
}

/// The first line that announces a marker width for `path`, if any.
pub open spec fn spec_marker_size(ls: Seq<Seq<char>>, path: Seq<char>) -> Option<nat>
    decreases ls.len(),
{
    if ls.len() == 0 {
        None
    } else {
        match line_marker_size(chomp(ls.first()), path) {
            Some(v) => Some(v),
            None => spec_marker_size(ls.drop_first(), path),
        }
    }
}

/// Filter applied to the output of a commit-diff query: between a line
/// starting the diff of one file and that file's `---` header, the
/// intervening index lines are dropped.
pub open spec fn filter_diff_rec(ls: Seq<Seq<char>>, keeping: bool) -> Seq<Seq<char>>
    decreases ls.len(),
{
    if ls.len() == 0 {
        Seq::empty()
    } else {
        let l = ls.first();
        let rest = ls.drop_first();
        if matches_at(l, "diff --git"@, 0) {
            seq![l] + filter_diff_rec(rest, false)
        } else if matches_at(l, "---"@, 0) {
            seq![l] + filter_diff_rec(rest, true)
        } else if keeping {
            seq![l] + filter_diff_rec(rest, keeping)
        } else {
            filter_diff_rec(rest, keeping)
        }
    }
}

/// The conflicts of one unmerged file.
pub open spec fn spec_file_conflicts(f: UnmergedFileModel, ccl: nat) -> Result<
    Seq<ConflictModel>,
    ParseError,
> {
    spec_blocks_to_conflicts(
        line_split(f.content),
        f.content,
        f.path,
        f.marker_size,
        ccl,
        spec_scan(line_split(f.content), f.marker_size, 0),
    )
}

/// The conflicts of all unmerged files, in file order; the first parse
/// error aborts the run.
pub open spec fn spec_find_conflicts(files: Seq<UnmergedFileModel>, ccl: nat) -> Result<
    Seq<ConflictModel>,
    ParseError,
>
    decreases files.len(),
{
    if files.len() == 0 {
        Ok(Seq::empty())
    } else {
        match spec_file_conflicts(files.first(), ccl) {
            Err(e) => Err(e),
            Ok(cs) => match spec_find_conflicts(files.drop_first(), ccl) {
                Err(e) => Err(e),
                Ok(rest) => Ok(cs + rest),
            },
        }
    }
}

/// The views of a vector of conflicts.
pub open spec fn conflict_views(v: Seq<Conflict>) -> Seq<ConflictModel> {
    v.map_values(|c: Conflict| c@)
}

/// The views of a vector of unmerged files.
pub open spec fn file_views(v: Seq<UnmergedFile>) -> Seq<UnmergedFileModel> {
    v.map_values(|f: UnmergedFile| f@)
}


// ---------------------------------------------------------------------------
// Combining producer labels
// ---------------------------------------------------------------------------

/// The part of a label before its parenthesized suffix; the whole label
/// when it has no complete `(...)` group.
pub open spec fn label_key(name: Seq<char>) -> Seq<char> {
    let p = last_char_idx(name, '(');
    if p < 0 {
        name
    } else {
        let e = first_char_idx(name.skip(p + 1), ')', 0);
        if e < 0 {
            name
        } else {
            name.take(p)
        }
    }
}

/// The content of a label's parenthesized suffix; empty when it has none.
pub open spec fn label_suffix(name: Seq<char>) -> Seq<char> {
    let p = last_char_idx(name, '(');
    if p < 0 {
        Seq::empty()
    } else {
        let after = name.skip(p + 1);
        let e = first_char_idx(after, ')', 0);
        if e < 0 {
            Seq::empty()
        } else {
            after.take(e)
        }
    }
}

/// Add one (key, suffix) pair to the label groups, scanning from group `j`:
/// a new suffix joins its key's group, a suffix already present is dropped,
/// an unknown key opens a new group at the end.
pub open spec fn add_label_from(
    gs: Seq<(Seq<char>, Seq<Seq<char>>)>,
    key: Seq<char>,
    sfx: Seq<char>,
    j: int,
) -> Seq<(Seq<char>, Seq<Seq<char>>)>
    decreases gs.len() - j,
{
    if j < 0 || j >= gs.len() {
        gs.push((key, seq![sfx]))
    } else if gs[j].0 == key {
        if gs[j].1.contains(sfx) {
            gs
        } else {
            gs.update(j, (key, gs[j].1.push(sfx)))
        }
    } else {
        add_label_from(gs, key, sfx, j + 1)
    }
}

/// The label groups of the first `i` labels, in first-seen order.
pub open spec fn group_labels_pre(models: Seq<Seq<char>>, i: int) -> Seq<
    (Seq<char>, Seq<Seq<char>>),
>
    decreases i,
{
    if i <= 0 {
        Seq::empty()
    } else {
        add_label_from(
            group_labels_pre(models, i - 1),
            label_key(models[i - 1]),
            label_suffix(models[i - 1]),
            0,
        )
    }
}

/// The suffixes joined with `|`, from index `i` on.
pub open spec fn join_bar_from(sfxs: Seq<Seq<char>>, i: int) -> Seq<char>
    decreases sfxs.len() - i,
{
    if i < 0 || i >= sfxs.len() {
        Seq::empty()
    } else if i == sfxs.len() - 1 {
        sfxs[i]
    } else {
        sfxs[i] + "|"@ + join_bar_from(sfxs, i + 1)
    }
}

pub open spec fn contains_empty(sfxs: Seq<Seq<char>>) -> bool {
    exists|i: int| 0 <= i < sfxs.len() && (#[trigger] sfxs[i]).len() == 0
}

/// One group's rendering: when any member had no parenthesized suffix, the
/// key stands alone; otherwise the key is followed by the joined suffixes
/// in parentheses.
pub open spec fn render_group(g: (Seq<char>, Seq<Seq<char>>)) -> Seq<char> {
    if contains_empty(g.1) {
        g.0
    } else {
        g.0 + "("@ + join_bar_from(g.1, 0) + ")"@
    }
}

/// All groups' renderings joined with `, `, from group `i` on.
pub open spec fn render_groups_from(gs: Seq<(Seq<char>, Seq<Seq<char>>)>, i: int) -> Seq<char>
    decreases gs.len() - i,
{
    if i < 0 || i >= gs.len() {
        Seq::empty()
    } else if i == gs.len() - 1 {
        render_group(gs[i])
    } else {
        render_group(gs[i]) + ", "@ + render_groups_from(gs, i + 1)
    }
}

/// The combined attribution for a set of producer labels.
pub open spec fn spec_combine(models: Seq<Seq<char>>) -> Seq<char> {
    render_groups_from(group_labels_pre(models, models.len() as int), 0)
}

/// The views of label groups.
pub open spec fn group_views(gs: Seq<(String, Vec<String>)>) -> Seq<(Seq<char>, Seq<Seq<char>>)> {
    gs.map_values(|g: (String, Vec<String>)| (g.0@, views(g.1@)))
}

// ---------------------------------------------------------------------------
// Cross-endpoint deduplication
// ---------------------------------------------------------------------------

/// The merge key of a candidate: the conflict's file and position, and
/// the candidate's text.
pub open spec fn rkey(r: ResolvedModel) -> (Seq<char>, Seq<char>, nat) {
    (r.conflict.file_path, r.resolved_version, r.conflict.start_line)
}

/// The members of `rs` sharing merge key `k`, in order.
pub open spec fn group_of(rs: Seq<ResolvedModel>, k: (Seq<char>, Seq<char>, nat)) -> Seq<ResolvedModel>
    decreases rs.len(),
{
    if rs.len() == 0 {
        Seq::empty()
    } else {
        let pre = group_of(rs.drop_last(), k);
        if rkey(rs.last()) == k {
            pre.push(rs.last())
        } else {
            pre
        }
    }
}

/// The labels of a group's members.
pub open spec fn models_of(g: Seq<ResolvedModel>) -> Seq<Seq<char>> {
    g.map_values(|x: ResolvedModel| x.model)
}

/// The longest duration among a group's members.
pub open spec fn max_duration(g: Seq<ResolvedModel>) -> u64
    decreases g.len(),
{
    if g.len() == 0 {
        0
    } else {
        let m = max_duration(g.drop_last());
        if g.last().duration_ms > m {
            g.last().duration_ms
        } else {
            m
        }
    }
}

/// The summed token cost of a group's members, counting unknown costs as
/// zero; the sum saturates at the machine limit.
pub open spec fn sum_tokens(g: Seq<ResolvedModel>) -> u64
    decreases g.len(),
{
    if g.len() == 0 {
        0
    } else {
        let pre = sum_tokens(g.drop_last());
        let t = match g.last().total_tokens {
            Some(t) => t,
            None => 0,
        };
        if pre + t <= u64::MAX {
            (pre + t) as u64
        } else {
            u64::MAX
        }
    }
}

/// One merged entry for the group with key `k`: the first member's conflict
/// and text, the combined labels, the longest duration and the summed
/// token cost; the confidence signal does not survive a merge.
pub open spec fn merge_group(rs: Seq<ResolvedModel>, k: (Seq<char>, Seq<char>, nat)) -> ResolvedModel {
    let g = group_of(rs, k);
    ResolvedModel {
        conflict: g[0].conflict,
        resolved_version: g[0].resolved_version,
        model: spec_combine(models_of(g)),
        duration_ms: max_duration(g),
        total_tokens: Some(sum_tokens(g)),
        logprob_bits: None,
    }
}

/// Whether some earlier candidate (index below `i`) shares the merge key of
/// candidate `i`.
pub open spec fn key_seen_before(rs: Seq<ResolvedModel>, i: int) -> bool {
    exists|j: int| 0 <= j < i && rkey(#[trigger] rs[j]) == rkey(rs[i])
}

/// The deduplicated list of the first `i` candidates: one merged entry per
/// merge key, in first-seen order.
pub open spec fn spec_dedup_pre(rs: Seq<ResolvedModel>, i: int) -> Seq<ResolvedModel>
    decreases i,
{
    if i <= 0 {
        Seq::empty()
    } else {
        let prev = spec_dedup_pre(rs, i - 1);
        if key_seen_before(rs, i - 1) {
            prev
        } else {
            prev.push(merge_group(rs, rkey(rs[i - 1])))
        }
    }
}

/// The deduplicated candidate list.
pub open spec fn spec_dedup(rs: Seq<ResolvedModel>) -> Seq<ResolvedModel> {
    spec_dedup_pre(rs, rs.len() as int)
}

// ---------------------------------------------------------------------------
// Write-back
// ---------------------------------------------------------------------------

/// Why a resolved conflict could not be spliced back into its file.
#[derive(Debug, Clone, Copy, PartialEq, Eq, Structural)]
pub enum WriteBackError {
    /// The splice position is outside the file.
    LineOutOfRange,
    /// The line at the splice position is neither the separator nor an
    /// attribution line of an earlier pass: the file no longer matches.
    UnexpectedMarkerLine,
}

/// Splicing one resolved conflict back into its file's content: at the
/// separator's line an attribution line and the resolved text are inserted,
/// provided that line still is the separator or an earlier attribution
/// line.
pub open spec fn spec_apply_one(content: Seq<char>, r: ResolvedModel) -> Result<
    Seq<char>,
    WriteBackError,
> {
    let cls = line_split(content);
    let pos = r.conflict.start_line + r.conflict.remote_start;
    if pos < 1 || pos - 1 >= cls.len() {
        Err(WriteBackError::LineOutOfRange)
    } else {
        let idx = pos - 1;
        let cur = cls[idx];
        let w = r.conflict.marker_size;
        if cur == sep_line(w) || matches_at(cur, annot_prefix(w), 0) {
            let marker = (annot_prefix(w) + r.model).push('\n');
            let new_lines = cls.take(idx) + seq![marker] + line_split(r.resolved_version)
                + cls.skip(idx);
            Ok(concat_lines(new_lines))
        } else {
            Err(WriteBackError::UnexpectedMarkerLine)
        }
    }
}

// ---------------------------------------------------------------------------
// Merge-message annotation
// ---------------------------------------------------------------------------

/// A line of the form `Word-by: ...`: an upper-case letter, non-whitespace
/// characters, `-by:`, one whitespace character, anything up to the
/// terminating newline.
pub open spec fn trailer_split_at(l: Seq<char>, k: int) -> bool {
    &&& 1 <= k
    &&& k + 6 <= l.len()
    &&& 65 <= l[0] as u32 <= 90
    &&& forall|t: int| 1 <= t < k ==> !is_whitespace_char(#[trigger] l[t])
    &&& l[k] == '-'
    &&& l[k + 1] == 'b'
    &&& l[k + 2] == 'y'
    &&& l[k + 3] == ':'
    &&& is_whitespace_char(l[k + 4])
    &&& forall|t: int| k + 5 <= t < l.len() - 1 ==> #[trigger] l[t] != '\n'
    &&& l[l.len() - 1] == '\n'
}

pub open spec fn is_trailer_line(l: Seq<char>) -> bool {
    exists|k: int| trailer_split_at(l, k)
}

/// Index of the first line whose trimmed text is `# Conflicts:`, or -1.
pub open spec fn first_conflicts_idx(ls: Seq<Seq<char>>, from: int) -> int
    decreases ls.len() - from,
{
    if from < 0 || from >= ls.len() {
        -1
    } else if spec_trim(ls[from]) == "# Conflicts:"@ {
        from
    } else {
        first_conflicts_idx(ls, from + 1)
    }
}

proof fn lemma_first_conflicts_idx(ls: Seq<Seq<char>>, from: int)
    requires
        0 <= from,
    ensures
        first_conflicts_idx(ls, from) >= 0 ==> from <= first_conflicts_idx(ls, from) < ls.len()
            && spec_trim(ls[first_conflicts_idx(ls, from)]) == "# Conflicts:"@ && (forall|j: int|
            from <= j < first_conflicts_idx(ls, from) ==> spec_trim(#[trigger] ls[j])
                != "# Conflicts:"@),
        first_conflicts_idx(ls, from) < 0 ==> first_conflicts_idx(ls, from) == -1 && forall|j: int|
            from <= j < ls.len() ==> spec_trim(#[trigger] ls[j]) != "# Conflicts:"@,
    decreases ls.len() - from,
{
    if from >= ls.len() {
    } else if spec_trim(ls[from]) == "# Conflicts:"@ {
    } else {
        lemma_first_conflicts_idx(ls, from + 1);
    }
}

/// Step back from `p` to the nearest line with nonblank text, or to 0.
pub open spec fn back_nonblank(ls: Seq<Seq<char>>, p: int) -> int
    decreases p,
{
    if p <= 0 {
        0
    } else {
        let q = p - 1;
        if spec_trim(ls[q]).len() != 0 {
            q
        } else {
            back_nonblank(ls, q)
        }
    }
}

/// The trailer the annotated message carries.
pub open spec fn assisted_by_line() -> Seq<char> {
    "Assisted-by: synthmerge"@
}

/// Annotating a merge message: nothing when the trailer is already there;
/// otherwise the trailer is inserted after the last nonblank line before
/// any `# Conflicts:` comment block, preceded by a blank line unless that
/// region already ends in a run of `Word-by:` trailer lines.
pub open spec fn spec_annotate(content: Seq<char>) -> Option<Seq<char>> {
    if contains_sub(content, assisted_by_line()) {
        None
    } else {
        let ls = line_split(content);
        if ls.len() == 0 {
            Some("Assisted-by: synthmerge\n"@)
        } else {
            let cpos = first_conflicts_idx(ls, 0);
            let ip0 = if cpos < 0 {
                ls.len() as int
            } else {
                cpos
            };
            let ip = back_nonblank(ls, ip0);
            let has_trailer = exists|t: int|
                0 <= t <= ip && t < ls.len() && is_trailer_line(#[trigger] ls[t]);
            let line = if has_trailer {
                "Assisted-by: synthmerge\n"@
            } else {
                "\nAssisted-by: synthmerge\n"@
            };
            Some(concat_lines(ls.take(ip + 1) + seq![line] + ls.skip(ip + 1)))
        }
    }
}

/// A label whose parenthesized suffix group, when it has a complete one,
/// is nonempty and ends the label. Every label the engine builds has this
/// shape, since endpoint and variant names cannot contain parentheses.
pub open spec fn label_selfrender(m: Seq<char>) -> bool {
    let p = last_char_idx(m, '(');
    if p < 0 {
        true
    } else {
        let e = first_char_idx(m.skip(p + 1), ')', 0);
        e < 0 || (e > 0 && p + 1 + e == m.len() - 1)
    }
}

/// Combining a single self-rendering label gives the label back.
proof fn lemma_combine_singleton(m: Seq<char>)
    requires
        label_selfrender(m),
    ensures
        spec_combine(seq![m]) == m,
{
    reveal_strlit("(");
    reveal_strlit(")");
    reveal_strlit("|");
    lemma_last_char_idx(m, '(');
    let p = last_char_idx(m, '(');
    let key = label_key(m);
    let sfx = label_suffix(m);
    let gs = group_labels_pre(seq![m], 1);
    assert(group_labels_pre(seq![m], 0) =~= Seq::<(Seq<char>, Seq<Seq<char>>)>::empty());
    assert(gs == add_label_from(Seq::empty(), key, sfx, 0));
    assert(gs =~= seq![(key, seq![sfx])]);
    assert(spec_combine(seq![m]) == render_groups_from(gs, 0));
    assert(render_groups_from(gs, 0) == render_group((key, seq![sfx])));
    if p < 0 {
        assert(key == m && sfx =~= Seq::<char>::empty());
        assert(contains_empty(seq![sfx])) by {
            assert(seq![sfx][0].len() == 0);
        }
        assert(render_group((key, seq![sfx])) == m);
    } else {
        let after = m.skip(p + 1);
        lemma_first_char_idx(after, ')', 0);
        let e = first_char_idx(after, ')', 0);
        if e < 0 {
            assert(key == m && sfx =~= Seq::<char>::empty());
            assert(contains_empty(seq![sfx])) by {
                assert(seq![sfx][0].len() == 0);
            }
            assert(render_group((key, seq![sfx])) == m);
        } else {
            assert(e > 0 && p + 1 + e == m.len() - 1);
            assert(key == m.take(p));
            assert(sfx == after.take(e));
            assert(sfx.len() == e);
            assert(!contains_empty(seq![sfx])) by {
                if contains_empty(seq![sfx]) {
                    let i = choose|i: int|
                        0 <= i < seq![sfx].len() && (#[trigger] seq![sfx][i]).len() == 0;
                    assert(seq![sfx][i] == sfx);
                }
            }
            assert(join_bar_from(seq![sfx], 0) == sfx);
            assert(render_group((key, seq![sfx])) == key + "("@ + sfx + ")"@);
            assert(m[p] == '(');
            assert(after[e] == ')');
            assert(m[m.len() - 1] == ')');
            assert(key + "("@ + sfx + ")"@ =~= m) by {
                assert(forall|t: int| 0 <= t < e ==> after[t] == m[p + 1 + t]);
            }
        }
    }
}

/// Every copy of one label collapses into the same single group.
proof fn lemma_group_labels_all_same(models: Seq<Seq<char>>, m: Seq<char>, i: int)
    requires
        1 <= i <= models.len(),
        forall|j: int| 0 <= j < models.len() ==> #[trigger] models[j] == m,
    ensures
        group_labels_pre(models, i) == group_labels_pre(seq![m], 1),
    decreases i,
{
    let one = group_labels_pre(seq![m], 1);
    assert(group_labels_pre(seq![m], 0) =~= Seq::<(Seq<char>, Seq<Seq<char>>)>::empty());
    assert(one =~= seq![(label_key(m), seq![label_suffix(m)])]);
    if i == 1 {
        assert(group_labels_pre(models, 0) =~= Seq::<(Seq<char>, Seq<Seq<char>>)>::empty());
        assert(models[0] == m);
        assert(group_labels_pre(models, 1) =~= one);
    } else {
        lemma_group_labels_all_same(models, m, i - 1);
        assert(models[i - 1] == m);
        assert(one[0].1.contains(label_suffix(m))) by {
            assert(one[0].1[0] == label_suffix(m));
        }
        assert(add_label_from(one, label_key(m), label_suffix(m), 0) == one);
    }
}

/// Combining any number of copies of one self-rendering label gives the
/// label back.
proof fn lemma_combine_all_same(models: Seq<Seq<char>>, m: Seq<char>)
    requires
        models.len() > 0,
        forall|j: int| 0 <= j < models.len() ==> #[trigger] models[j] == m,
        label_selfrender(m),
    ensures
        spec_combine(models) == m,
{
    lemma_group_labels_all_same(models, m, models.len() as int);
    lemma_combine_singleton(m);
}

/// In a list of identical candidates, the group of the shared key is the
/// whole list.
proof fn lemma_group_all_equal(rs: Seq<ResolvedModel>)
    requires
        rs.len() > 0,
        forall|i: int| 0 <= i < rs.len() ==> #[trigger] rs[i] == rs[0],
    ensures
        group_of(rs, rkey(rs[0])) =~= rs,
    decreases rs.len(),
{
    if rs.len() == 1 {
        assert(group_of(rs.drop_last(), rkey(rs[0])) =~= Seq::<ResolvedModel>::empty());
    } else {
        assert(forall|i: int| 0 <= i < rs.drop_last().len() ==> rs.drop_last()[i] == rs[i]);
        lemma_group_all_equal(rs.drop_last());
        assert(rkey(rs.last()) == rkey(rs[0]));
    }
}

/// The longest duration in a list of identical candidates is the shared
/// duration.
proof fn lemma_max_all_equal(rs: Seq<ResolvedModel>)
    requires
        rs.len() > 0,
        forall|i: int| 0 <= i < rs.len() ==> #[trigger] rs[i] == rs[0],
    ensures
        max_duration(rs) == rs[0].duration_ms,
    decreases rs.len(),
{
    if rs.len() == 1 {
        assert(rs.drop_last() =~= Seq::<ResolvedModel>::empty());
        assert(max_duration(rs.drop_last()) == 0);
    } else {
        assert(forall|i: int| 0 <= i < rs.drop_last().len() ==> rs.drop_last()[i] == rs[i]);
        assert(rs.drop_last()[0] == rs[0]);
        lemma_max_all_equal(rs.drop_last());
        assert(rs.last() == rs[0]);
    }
}

/// Deduplicating a list of identical candidates yields one merged entry,
/// however long the list is.
proof fn lemma_dedup_all_equal(rs: Seq<ResolvedModel>, i: int)
    requires
        1 <= i <= rs.len(),
        forall|j: int| 0 <= j < rs.len() ==> #[trigger] rs[j] == rs[0],
    ensures
        spec_dedup_pre(rs, i) =~= seq![merge_group(rs, rkey(rs[0]))],
    decreases i,
{
    if i == 1 {
        assert(!key_seen_before(rs, 0));
        assert(spec_dedup_pre(rs, 0) =~= Seq::<ResolvedModel>::empty());
    } else {
        lemma_dedup_all_equal(rs, i - 1);
        assert(key_seen_before(rs, i - 1)) by {
            assert(rkey(rs[0]) == rkey(rs[i - 1]));
        }
    }
}

/// Deduplication is idempotent: merging a set of identical candidates
/// twice yields the same merged entry as merging once, provided the shared
/// label is self-rendering (as every label the engine builds is).
pub proof fn lemma_dedup_idempotent(rs: Seq<ResolvedModel>)
    requires
        rs.len() > 0,
        forall|i: int| 0 <= i < rs.len() ==> #[trigger] rs[i] == rs[0],
        label_selfrender(rs[0].model),
    ensures
        spec_dedup(spec_dedup(rs)) == spec_dedup(rs),
{
    let k = rkey(rs[0]);
    let m = rs[0].model;
    lemma_group_all_equal(rs);
    assert(group_of(rs, k) == rs);
    lemma_dedup_all_equal(rs, rs.len() as int);
    let x1 = merge_group(rs, k);
    let d = spec_dedup(rs);
    assert(d =~= seq![x1]);
    assert(models_of(rs).len() == rs.len());
    assert(forall|j: int| 0 <= j < models_of(rs).len() ==> #[trigger] models_of(rs)[j] == m);
    lemma_combine_all_same(models_of(rs), m);
    assert(x1.model == m);
    assert(x1.conflict == rs[0].conflict);
    assert(x1.resolved_version == rs[0].resolved_version);
    assert(rkey(x1) == k);
    assert(forall|i: int| 0 <= i < d.len() ==> #[trigger] d[i] == d[0]);
    lemma_group_all_equal(d);
    assert(group_of(d, k) =~= seq![x1]);
    lemma_dedup_all_equal(d, d.len() as int);
    let x2 = merge_group(d, k);
    assert(spec_dedup(d) =~= seq![x2]);
    assert(group_of(d, k)[0] == x1);
    assert(x2.conflict == x1.conflict);
    assert(x2.resolved_version == x1.resolved_version);
    assert(models_of(group_of(d, k)) =~= seq![m]);
    lemma_combine_singleton(m);
    assert(x2.model == m);
    lemma_max_all_equal(group_of(d, k));
    assert(x2.duration_ms == x1.duration_ms);
    assert(x2.total_tokens == Some(sum_tokens(seq![x1])));
    let t1: u64 = match x1.total_tokens {
        Some(t) => t,
        None => 0u64,
    };
    assert(seq![x1].drop_last() =~= Seq::<ResolvedModel>::empty());
    assert(sum_tokens(seq![x1].drop_last()) == 0);
    assert(seq![x1].last() == x1);
    assert(sum_tokens(seq![x1]) == t1);
    assert(x1.total_tokens == Some(sum_tokens(rs)));
    assert(x2.total_tokens == x1.total_tokens);
    assert(x2.logprob_bits == x1.logprob_bits);
    assert(x2 =~= x1);
    assert(spec_dedup(spec_dedup(rs)) =~= spec_dedup(rs));
}

/// A key taken from a member of `rs` has a nonempty group.
proof fn lemma_group_of_nonempty(rs: Seq<ResolvedModel>, k: (Seq<char>, Seq<char>, nat), i: int)
    requires
        0 <= i < rs.len(),
        rkey(rs[i]) == k,
    ensures
        group_of(rs, k).len() > 0,
    decreases rs.len(),
{
    if i == rs.len() - 1 {
        assert(rkey(rs.last()) == k);
    } else {
        assert(rs.drop_last()[i] == rs[i]);
        lemma_group_of_nonempty(rs.drop_last(), k, i);
    }
}

pub struct GitUtils {
    pub context_lines: ContextLines,
    pub in_rebase: bool,
    pub git_root: Option<String>,
    pub git_dir: Option<String>,
}

impl GitUtils {
    /// The process boundary hands in the repository root and git directory
    /// it discovered, if any; everything else here is pure.
    pub fn new(
        context_lines: ContextLines,
        in_rebase: bool,
        git_root: Option<String>,
        git_dir: Option<String>,
    ) -> (r: GitUtils)
        ensures
            r.context_lines == context_lines,
            r.in_rebase == in_rebase,
            r.git_root == git_root,
            r.git_dir == git_dir,
    {
        GitUtils { context_lines, in_rebase, git_root, git_dir }
    }

    /// Whether the merge conflict-style value read from the repository
    /// configuration asks for diff3-style blocks, which this engine needs.
    pub fn check_diff3(&self, conflict_style: &str) -> (r: bool)
        ensures
            r == (spec_trim(conflict_style@) == "diff3"@),
    {
        str_eq(str_trim(conflict_style), "diff3")
    }

    /// Create a marker with the specified character and width.
    pub fn create_marker(marker_char: char, size: usize) -> (r: String)
        ensures
            r@ == marker_seq(marker_char, size as nat),
    {
        let mut s = String::new();
        let mut i: usize = 0;
        while i < size
            invariant
                i <= size,
                s@ == marker_seq(marker_char, i as nat),
            decreases size - i,
        {
            push_char(&mut s, marker_char);
            assert(s@ =~= marker_seq(marker_char, (i + 1) as nat));
            i += 1;
        }
        s
    }

    /// Create a head marker with the specified width.
    pub fn create_head_marker(size: usize) -> (r: String)
        ensures
            r@ == marker_seq('<', size as nat),
    {
        Self::create_marker('<', size)
    }

    /// Create a base marker with the specified width.
    pub fn create_base_marker(size: usize) -> (r: String)
        ensures
            r@ == marker_seq('|', size as nat),
    {
        Self::create_marker('|', size)
    }

    /// Create a separator marker with the specified width.
    pub fn create_conflict_marker(size: usize) -> (r: String)
        ensures
            r@ == marker_seq('=', size as nat),
    {
        Self::create_marker('=', size)
    }

    /// Create an end marker with the specified width.
    pub fn create_end_marker(size: usize) -> (r: String)
        ensures
            r@ == marker_seq('>', size as nat),
    {
        Self::create_marker('>', size)
    }

    fn head_prefix_string(size: usize) -> (r: String)
        ensures
            r@ == head_prefix(size as nat),
    {
        let mut s = Self::create_head_marker(size);
        push_char(&mut s, ' ');
        s
    }

    fn base_prefix_string(size: usize) -> (r: String)
        ensures
            r@ == base_prefix(size as nat),
    {
        let mut s = Self::create_base_marker(size);
        push_char(&mut s, ' ');
        s
    }

    fn sep_line_string(size: usize) -> (r: String)
        ensures
            r@ == sep_line(size as nat),
    {
        let mut s = Self::create_conflict_marker(size);
        push_char(&mut s, '\n');
        s
    }

    fn annot_prefix_string(size: usize) -> (r: String)
        ensures
            r@ == annot_prefix(size as nat),
    {
        let mut s = Self::create_base_marker(size);
        s.append(" synthmerge: ");
        s
    }

    fn line_has_nested_marker(l: &str) -> (r: bool)
        ensures
            r == has_nested_marker(l@),
    {
        let n = l.unicode_len();
        if n < DEFAULT_MARKER_SIZE {
            return false;
        }
        let mut i: usize = 0;
        while i < DEFAULT_MARKER_SIZE
            invariant
                i <= DEFAULT_MARKER_SIZE,
                DEFAULT_MARKER_SIZE <= n,
                n == l@.len(),
                forall|k: int| 0 <= k < i ==> is_marker_char(l@[k]),
            decreases DEFAULT_MARKER_SIZE - i,
        {
            let c = l.get_char(i);
            if !(c == '<' || c == '>' || c == '=' || c == '|') {
                return false;
            }
            i += 1;
        }
        true
    }

    fn find_nested(lines: &Vec<String>) -> (r: Option<usize>)
        ensures
            match r {
                Some(i) => i < lines@.len() && has_nested_marker(lines@[i as int]@),
                None => !has_nested_in(views(lines@)),
            },
    {
        let n = lines.len();
        let mut i: usize = 0;
        while i < n
            invariant
                i <= n,
                n == lines@.len(),
                forall|k: int| 0 <= k < i ==> !has_nested_marker(#[trigger] views(lines@)[k]),
            decreases n - i,
        {
            if Self::line_has_nested_marker(lines[i].as_str()) {
                return Some(i);
            }
            i += 1;
        }
        None
    }

    /// Drop every line that belongs to a conflict block: marker lines, base
    /// and remote sections; keep local-section lines and plain lines. Fails
    /// when a marker of at least the default width survives the pass, which
    /// means a conflict is nested where plain context was expected.
    pub fn remove_conflict_markers(content_lines: &Vec<String>, marker_size: usize) -> (r: Result<
        Vec<String>,
        ParseError,
    >)
        ensures
            match r {
                Ok(out) => views(out@) == strip_markers(views(content_lines@), marker_size as nat)
                    && !has_nested_in(views(out@)),
                Err(e) => e == ParseError::NestedMarkers && has_nested_in(
                    strip_markers(views(content_lines@), marker_size as nat),
                ),
            },
    {
        let ghost all = views(content_lines@);
        let ghost w = marker_size as nat;
        let head_marker = Self::create_head_marker(marker_size);
        let base_marker = Self::create_base_marker(marker_size);
        let end_marker = Self::create_end_marker(marker_size);
        let n = content_lines.len();
        let mut result: Vec<String> = Vec::new();
        let mut skip_lines = false;
        let mut in_head = false;
        let mut i: usize = 0;
        proof {
            assert(all.skip(0) =~= all);
            assert(views(result@) =~= Seq::<Seq<char>>::empty());
            assert(Seq::<Seq<char>>::empty() + strip_markers_rec(all, w, false, false)
                =~= strip_markers_rec(all, w, false, false));
        }
        while i < n
            invariant
                i <= n,
                n == content_lines@.len(),
                all == views(content_lines@),
                w == marker_size as nat,
                head_marker@ == marker_seq('<', w),
                base_marker@ == marker_seq('|', w),
                end_marker@ == marker_seq('>', w),
                views(result@) + strip_markers_rec(all.skip(i as int), w, skip_lines, in_head)
                    == strip_markers(all, w),
            decreases n - i,
        {
            let ghost pre = views(result@);
            let ghost rem = all.skip(i as int);
            proof {
                assert(rem.first() == all[i as int]);
                assert(rem.drop_first() =~= all.skip(i + 1));
            }
            let line = &content_lines[i];
            if str_starts_with(line.as_str(), head_marker.as_str()) {
                in_head = true;
                skip_lines = true;
            } else if str_starts_with(line.as_str(), base_marker.as_str()) {
                in_head = false;
            } else if str_starts_with(line.as_str(), end_marker.as_str()) {
                skip_lines = false;
                in_head = false;
            } else if !skip_lines || in_head {
                result.push(line.clone());
                proof {
                    assert(views(result@) =~= pre + seq![all[i as int]]);
                    assert((pre + seq![all[i as int]]) + strip_markers_rec(
                        all.skip(i + 1),
                        w,
                        skip_lines,
                        in_head,
                    ) =~= pre + (seq![all[i as int]] + strip_markers_rec(
                        all.skip(i + 1),
                        w,
                        skip_lines,
                        in_head,
                    )));
                }
            }
            i += 1;
        }
        proof {
            assert(all.skip(n as int) =~= Seq::<Seq<char>>::empty());
            assert(strip_markers_rec(all.skip(n as int), w, skip_lines, in_head) == Seq::<
                Seq<char>,
            >::empty());
            assert(views(result@) + Seq::<Seq<char>>::empty() =~= views(result@));
            assert(views(result@) == strip_markers(all, w));
        }
        match Self::find_nested(&result) {
            Some(idx) => {
                proof {
                    assert(has_nested_marker(views(result@)[idx as int]));
                }
                Err(ParseError::NestedMarkers)
            },
            None => Ok(result),
        }
    }

    /// Parse one conflict block into structured data. `conflict_text` holds
    /// the block's lines, `content` the whole file, `start_line` the 1-based
    /// line number of the opening marker inside `content`.
    pub fn parse_conflict_text(
        &self,
        conflict_text: &str,
        content: &str,
        start_line: usize,
        file_path: &str,
        marker_size: usize,
    ) -> (r: Result<Conflict, ParseError>)
        requires
            1 <= start_line,
            start_line - 1 + line_split(conflict_text@).len() <= line_split(content@).len(),
        ensures
            ({
                let sp = spec_parse_conflict(
                    conflict_text@,
                    content@,
                    start_line as int,
                    file_path@,
                    marker_size as nat,
                    self.context_lines.code_context_lines as nat,
                );
                match r {
                    Ok(c) => sp == Ok::<ConflictModel, ParseError>(c@),
                    Err(e) => sp == Err::<ConflictModel, ParseError>(e),
                }
            }),
    {
        let ghost w = marker_size as nat;
        let ghost ls = line_split(conflict_text@);
        let ghost cls = line_split(content@);
        let lines = split_lines(conflict_text);
        let head_pre = Self::head_prefix_string(marker_size);
        let base_pre = Self::base_prefix_string(marker_size);
        let sep = Self::sep_line_string(marker_size);
        let annot_pre = Self::annot_prefix_string(marker_size);
        let end_marker = Self::create_end_marker(marker_size);

        let local_start = match find_line_with_prefix(&lines, head_pre.as_str(), 0) {
            None => {
                return Err(ParseError::MissingHeadMarker);
            },
            Some(i) => i,
        };
        let base_start = match find_line_with_prefix(&lines, base_pre.as_str(), 0) {
            None => {
                return Err(ParseError::MissingBaseMarker);
            },
            Some(i) => i,
        };
        let rs_idx = match find_line_eq(&lines, sep.as_str(), 0) {
            None => {
                return Err(ParseError::MissingSeparator);
            },
            Some(i) => i,
        };
        let remote_end = match find_line_with_prefix(&lines, end_marker.as_str(), 0) {
            None => {
                return Err(ParseError::MissingEndMarker);
            },
            Some(i) => i,
        };
        if remote_end <= rs_idx || rs_idx <= base_start || base_start <= local_start {
            return Err(ParseError::InvalidMarkerOrder);
        }
        let annot_start = match find_line_with_prefix(&lines, annot_pre.as_str(), 0) {
            None => rs_idx,
            Some(i) => i,
        };
        if annot_start <= base_start {
            return Err(ParseError::InvalidMarkerOrder);
        }
        proof {
            lemma_first_prefix_idx(ls, head_prefix(w), 0);
            lemma_first_prefix_idx(ls, base_prefix(w), 0);
            lemma_first_eq_idx(ls, sep_line(w), 0);
            lemma_first_prefix_idx(ls, annot_prefix(w), 0);
            lemma_first_prefix_idx(ls, end_prefix(w), 0);
        }

        let ccl: usize = self.context_lines.code_context_lines as usize;
        let content_lines = split_lines(content);
        let cls_len = content_lines.len();
        proof {
            assert(cls_len == cls.len());
            assert(lines@.len() == ls.len());
        }
        let head_end = start_line - 1;
        let head_slice = vec_subrange(&content_lines, 0, head_end);
        proof {
            assert(views(head_slice@) =~= cls.take(head_end as int));
        }
        let head_stripped = match Self::remove_conflict_markers(&head_slice, marker_size) {
            Err(e) => {
                return Err(e);
            },
            Ok(v) => v,
        };
        let tail_idx = head_end + lines.len();
        let tail_slice = vec_subrange(&content_lines, tail_idx, cls_len);
        proof {
            assert(views(tail_slice@) =~= cls.skip(tail_idx as int));
        }
        let tail_stripped = match Self::remove_conflict_markers(&tail_slice, marker_size) {
            Err(e) => {
                return Err(e);
            },
            Ok(v) => v,
        };

        let hs_len = head_stripped.len();
        let head_keep = if hs_len <= ccl {
            vec_subrange(&head_stripped, 0, hs_len)
        } else {
            vec_subrange(&head_stripped, hs_len - ccl, hs_len)
        };
        let head_context = join_all(&head_keep);
        let ts_len = tail_stripped.len();
        let keep_n = if ts_len <= ccl {
            ts_len
        } else {
            ccl
        };
        let tail_keep = vec_subrange(&tail_stripped, 0, keep_n);
        let tail_context = join_all(&tail_keep);
        let nr_head = if ccl <= head_end {
            ccl
        } else {
            head_end
        };
        let nr_tail = if ccl <= cls_len - tail_idx {
            ccl
        } else {
            cls_len - tail_idx
        };

        let local_vec = vec_subrange(&lines, local_start + 1, base_start);
        let local = join_all(&local_vec);
        let base_vec = vec_subrange(&lines, base_start + 1, annot_start);
        let base = join_all(&base_vec);
        let remote_vec = vec_subrange(&lines, rs_idx + 1, remote_end);
        let remote = join_all(&remote_vec);

        let conflict = Conflict {
            file_path: file_path.to_owned(),
            local,
            base,
            remote,
            head_context,
            tail_context,
            start_line,
            remote_start: rs_idx,
            nr_head_context_lines: nr_head,
            nr_tail_context_lines: nr_tail,
            marker_size,
        };
        proof {
            let sp = spec_parse_conflict(
                conflict_text@,
                content@,
                start_line as int,
                file_path@,
                w,
                self.context_lines.code_context_lines as nat,
            );
            let spec_hs = strip_markers(cls.take(head_end as int), w);
            let spec_ts = strip_markers(cls.skip(tail_idx as int), w);
            assert(views(head_stripped@) == spec_hs);
            assert(views(tail_stripped@) == spec_ts);
            if hs_len <= ccl {
                assert(views(head_keep@) =~= spec_hs);
            } else {
                assert(views(head_keep@) =~= spec_hs.skip(spec_hs.len() - ccl));
            }
            if ts_len <= ccl {
                assert(views(tail_keep@) =~= spec_ts);
            } else {
                assert(views(tail_keep@) =~= spec_ts.take(ccl as int));
            }
            match sp {
                Ok(m) => {
                    assert(conflict@ =~= m);
                },
                Err(_) => {
                    assert(false);
                },
            }
        }
        Ok(conflict)
    }

    /// Parse every conflict block found at or after line `pos`.
    fn parse_blocks(
        &self,
        lines: &Vec<String>,
        content: &str,
        file_path: &str,
        marker_size: usize,
        pos: usize,
    ) -> (r: Result<Vec<Conflict>, ParseError>)
        requires
            views(lines@) == line_split(content@),
        ensures
            ({
                let sp = spec_blocks_to_conflicts(
                    line_split(content@),
                    content@,
                    file_path@,
                    marker_size as nat,
                    self.context_lines.code_context_lines as nat,
                    spec_scan(line_split(content@), marker_size as nat, pos as int),
                );
                match r {
                    Ok(cs) => sp == Ok::<Seq<ConflictModel>, ParseError>(conflict_views(cs@)),
                    Err(e) => sp == Err::<Seq<ConflictModel>, ParseError>(e),
                }
            }),
        decreases lines@.len() - pos,
    {
        let ghost w = marker_size as nat;
        let ghost ls = line_split(content@);
        let ghost scan = spec_scan(ls, w, pos as int);
        let head_pre = Self::head_prefix_string(marker_size);
        let base_pre = Self::base_prefix_string(marker_size);
        let sep = Self::sep_line_string(marker_size);
        let end_marker = Self::create_end_marker(marker_size);
        let empty_ok: Vec<Conflict> = Vec::new();
        proof {
            assert(conflict_views(empty_ok@) =~= Seq::<ConflictModel>::empty());
        }
        let i = match find_line_with_prefix(lines, head_pre.as_str(), pos) {
            None => {
                return Ok(empty_ok);
            },
            Some(i) => i,
        };
        let nlines = lines.len();
        proof {
            lemma_first_prefix_idx(ls, head_prefix(w), pos as int);
            assert(i < nlines);
        }
        let j = match find_line_with_prefix(lines, base_pre.as_str(), i + 1) {
            None => {
                return Ok(empty_ok);
            },
            Some(j) => j,
        };
        proof {
            lemma_first_prefix_idx(ls, base_prefix(w), i + 1);
            assert(j < nlines);
        }
        let k = match find_line_eq(lines, sep.as_str(), j + 1) {
            None => {
                return Ok(empty_ok);
            },
            Some(k) => k,
        };
        proof {
            lemma_first_eq_idx(ls, sep_line(w), j + 1);
            assert(k < nlines);
        }
        let l = match find_line_with_prefix(lines, end_marker.as_str(), k + 1) {
            None => {
                return Ok(empty_ok);
            },
            Some(l) => l,
        };
        proof {
            lemma_first_prefix_idx(ls, end_prefix(w), k + 1);
            assert(l < nlines);
            lemma_find_block(ls, w, pos as int);
        }
        if !ends_with_nl(lines[l].as_str()) {
            return Ok(empty_ok);
        }
        assert(spec_find_block(ls, w, pos as int) == Some((i as int, l as int)));
        let block_vec = vec_subrange(lines, i, l + 1);
        let text = join_all(&block_vec);
        proof {
            assert(views(block_vec@) =~= ls.subrange(i as int, l + 1));
            lemma_line_split_props(content@);
            assert(lines_wf(ls.subrange(i as int, l + 1))) by {
                let sub = ls.subrange(i as int, l + 1);
                assert forall|q: int| 0 <= q < sub.len() implies is_line(#[trigger] sub[q]) && (q
                    < sub.len() - 1 ==> sub[q].last() == '\n') by {
                    assert(sub[q] == ls[i + q]);
                }
            }
            lemma_line_split_of_concat(ls.subrange(i as int, l + 1));
            assert(line_split(text@) == ls.subrange(i as int, l + 1));
        }
        proof {
            assert(scan == seq![(i as int, l as int)] + spec_scan(ls, w, l + 1));
            assert(scan.first() == (i as int, l as int));
            assert(scan.drop_first() =~= spec_scan(ls, w, l + 1));
        }
        let conflict = match self.parse_conflict_text(
            text.as_str(),
            content,
            i + 1,
            file_path,
            marker_size,
        ) {
            Err(e) => {
                return Err(e);
            },
            Ok(c) => c,
        };
        let rest = match self.parse_blocks(lines, content, file_path, marker_size, l + 1) {
            Err(e) => {
                return Err(e);
            },
            Ok(cs) => cs,
        };
        let mut out: Vec<Conflict> = Vec::new();
        out.push(conflict);
        let mut q: usize = 0;
        let rlen = rest.len();
        while q < rlen
            invariant
                q <= rlen,
                rlen == rest@.len(),
                out@.len() == 1 + q,
                out@[0]@ == conflict@,
                forall|x: int| 0 <= x < q ==> out@[x + 1]@ == rest@[x]@,
            decreases rlen - q,
        {
            let item = rest[q].clone();
            out.push(item);
            q += 1;
        }
        proof {
            assert(scan == seq![(i as int, l as int)] + spec_scan(ls, w, l + 1));
            assert(scan.first() == (i as int, l as int));
            assert(scan.drop_first() =~= spec_scan(ls, w, l + 1));
            assert(conflict_views(out@) =~= seq![conflict@] + conflict_views(rest@));
        }
        Ok(out)
    }

    /// Parse all conflicts of one file's content.
    pub fn parse_conflicts_in_content(
        &self,
        content: &str,
        file_path: &str,
        marker_size: usize,
    ) -> (r: Result<Vec<Conflict>, ParseError>)
        ensures
            ({
                let sp = spec_file_conflicts(
                    UnmergedFileModel {
                        path: file_path@,
                        content: content@,
                        marker_size: marker_size as nat,
                    },
                    self.context_lines.code_context_lines as nat,
                );
                match r {
                    Ok(cs) => sp == Ok::<Seq<ConflictModel>, ParseError>(conflict_views(cs@)),
                    Err(e) => sp == Err::<Seq<ConflictModel>, ParseError>(e),
                }
            }),
    {
        let lines = split_lines(content);
        self.parse_blocks(&lines, content, file_path, marker_size, 0)
    }

    fn chomp_str(l: &str) -> (r: &str)
        ensures
            r@ == chomp(l@),
    {
        let n = l.unicode_len();
        let m: usize = if n > 0 && l.get_char(n - 1) == '\n' {
            n - 1
        } else {
            n
        };
        let m2: usize = if m > 0 && l.get_char(m - 1) == '\r' {
            m - 1
        } else {
            m
        };
        let r = l.substring_char(0, m2);
        proof {
            let a = if l@.len() > 0 && l@.last() == '\n' {
                l@.drop_last()
            } else {
                l@
            };
            assert(a =~= l@.subrange(0, m as int));
            assert(chomp(l@) =~= l@.subrange(0, m2 as int));
        }
        r
    }

    /// The marker width that the attribute-query output announces for
    /// `file_path`, or the default width when no line announces one.
    pub fn get_marker_size_for_file(&self, check_attr_output: &str, file_path: &str) -> (r: usize)
        ensures
            ({
                let m = spec_marker_size(line_split(check_attr_output@), file_path@);
                match m {
                    Some(v) => r as nat == v,
                    None => r == DEFAULT_MARKER_SIZE,
                }
            }),
    {
        let ghost all = line_split(check_attr_output@);
        let lines = split_lines(check_attr_output);
        let mut pp = file_path.to_owned();
        push_char(&mut pp, ':');
        let pp_len = pp.unicode_len();
        let attr = "conflict-marker-size: ";
        let attr_len = attr.unicode_len();
        let n = lines.len();
        let mut i: usize = 0;
        proof {
            assert(all.skip(0) =~= all);
        }
        while i < n
            invariant
                i <= n,
                n == lines@.len(),
                all == line_split(check_attr_output@),
                views(lines@) == all,
                pp@ == file_path@.push(':'),
                pp_len == pp@.len(),
                attr@ == "conflict-marker-size: "@,
                attr_len == attr@.len(),
                spec_marker_size(all, file_path@) == spec_marker_size(
                    all.skip(i as int),
                    file_path@,
                ),
            decreases n - i,
        {
            let ghost rem = all.skip(i as int);
            proof {
                assert(rem.first() == all[i as int]);
                assert(rem.drop_first() =~= all.skip(i + 1));
            }
            let c = Self::chomp_str(lines[i].as_str());
            if str_starts_with(c, pp.as_str()) {
                let clen = c.unicode_len();
                let rest = c.substring_char(pp_len, clen);
                proof {
                    assert(rest@ =~= chomp(all[i as int]).skip(file_path@.len() as int + 1));
                }
                let t = str_trim(rest);
                if str_starts_with(t, attr) {
                    let tlen = t.unicode_len();
                    let num = t.substring_char(attr_len, tlen);
                    proof {
                        assert(num@ =~= spec_trim(chomp(all[i as int]).skip(file_path@.len() as int + 1))
                            .skip("conflict-marker-size: "@.len() as int));
                    }
                    match parse_usize(num) {
                        Some(v) => {
                            return v;
                        },
                        None => {},
                    }
                }
            }
            proof {
                assert(line_marker_size(chomp(all[i as int]), file_path@) is None);
            }
            i += 1;
        }
        proof {
            assert(all.skip(n as int) =~= Seq::<Seq<char>>::empty());
        }
        DEFAULT_MARKER_SIZE
    }

    /// Keep, from a commit-diff query's output, each file's header line and
    /// everything from its `---` line on, dropping the index lines between.
    pub fn extract_diff(&self, show_output: &str) -> (r: String)
        ensures
            r@ == concat_lines(filter_diff_rec(line_split(show_output@), true)),
    {
        let ghost all = line_split(show_output@);
        let lines = split_lines(show_output);
        let n = lines.len();
        let mut result: Vec<String> = Vec::new();
        let mut include_line = true;
        let mut i: usize = 0;
        proof {
            assert(all.skip(0) =~= all);
            assert(views(result@) =~= Seq::<Seq<char>>::empty());
            assert(Seq::<Seq<char>>::empty() + filter_diff_rec(all, true) =~= filter_diff_rec(
                all,
                true,
            ));
        }
        while i < n
            invariant
                i <= n,
                n == lines@.len(),
                all == line_split(show_output@),
                views(lines@) == all,
                views(result@) + filter_diff_rec(all.skip(i as int), include_line)
                    == filter_diff_rec(all, true),
            decreases n - i,
        {
            let ghost pre = views(result@);
            let ghost rem = all.skip(i as int);
            proof {
                assert(rem.first() == all[i as int]);
                assert(rem.drop_first() =~= all.skip(i + 1));
            }
            let line = &lines[i];
            let mut pushed = false;
            if str_starts_with(line.as_str(), "diff --git") {
                result.push(line.clone());
                include_line = false;
                pushed = true;
            } else if str_starts_with(line.as_str(), "---") {
                result.push(line.clone());
                include_line = true;
                pushed = true;
            } else if include_line {
                result.push(line.clone());
                pushed = true;
            }
            proof {
                if pushed {
                    assert(views(result@) =~= pre + seq![all[i as int]]);
                    assert((pre + seq![all[i as int]]) + filter_diff_rec(
                        all.skip(i + 1),
                        include_line,
                    ) =~= pre + (seq![all[i as int]] + filter_diff_rec(
                        all.skip(i + 1),
                        include_line,
                    )));
                }
            }
            i += 1;
        }
        proof {
            assert(all.skip(n as int) =~= Seq::<Seq<char>>::empty());
            assert(filter_diff_rec(all.skip(n as int), include_line) == Seq::<Seq<char>>::empty());
            assert(views(result@) + Seq::<Seq<char>>::empty() =~= views(result@));
        }
        join_all(&result)
    }

    fn split_label(name: &str) -> (r: (String, String))
        ensures
            r.0@ == label_key(name@),
            r.1@ == label_suffix(name@),
    {
        proof {
            lemma_last_char_idx(name@, '(');
        }
        match str_rfind_char(name, '(') {
            None => (name.to_owned(), String::new()),
            Some(p) => {
                let nlen = name.unicode_len();
                let after = name.substring_char(p + 1, nlen);
                proof {
                    assert(after@ =~= name@.skip(p + 1));
                    lemma_first_char_idx(after@, ')', 0);
                }
                match str_find_char(after, ')', 0) {
                    None => (name.to_owned(), String::new()),
                    Some(e) => {
                        let key = name.substring_char(0, p).to_owned();
                        let sfx = after.substring_char(0, e).to_owned();
                        proof {
                            assert(key@ =~= name@.take(p as int));
                            assert(sfx@ =~= name@.skip(p + 1).take(e as int));
                        }
                        (key, sfx)
                    },
                }
            },
        }
    }

    fn clone_string_vec(v: &Vec<String>) -> (r: Vec<String>)
        ensures
            views(r@) == views(v@),
    {
        let mut r: Vec<String> = Vec::new();
        let n = v.len();
        let mut i: usize = 0;
        while i < n
            invariant
                i <= n,
                n == v@.len(),
                r@.len() == i,
                forall|j: int| 0 <= j < i ==> r@[j]@ == v@[j]@,
            decreases n - i,
        {
            r.push(v[i].clone());
            i += 1;
        }
        proof {
            assert(views(r@) =~= views(v@));
        }
        r
    }

    fn add_label(groups: &mut Vec<(String, Vec<String>)>, key: String, sfx: String)
        ensures
            group_views(final(groups)@) == add_label_from(group_views(old(groups)@), key@, sfx@, 0),
    {
        let ghost gs0 = group_views(groups@);
        let n = groups.len();
        let mut j: usize = 0;
        while j < n
            invariant
                j <= n,
                n == groups@.len(),
                groups == old(groups),
                gs0 == group_views(groups@),
                add_label_from(gs0, key@, sfx@, 0) == add_label_from(gs0, key@, sfx@, j as int),
            decreases n - j,
        {
            if str_eq(groups[j].0.as_str(), key.as_str()) {
                proof {
                    assert(gs0[j as int].0 == key@);
                }
                if contains_string(&groups[j].1, sfx.as_str()) {
                    proof {
                        assert(gs0[j as int].1.contains(sfx@));
                        assert(add_label_from(gs0, key@, sfx@, j as int) == gs0);
                    }
                    return ;
                } else {
                    proof {
                        assert(!gs0[j as int].1.contains(sfx@));
                    }
                    let ghost keyv = key@;
                    let ghost sfxv = sfx@;
                    let mut inner = Self::clone_string_vec(&groups[j].1);
                    proof {
                        assert(views(inner@) == gs0[j as int].1);
                    }
                    inner.push(sfx);
                    proof {
                        assert(views(inner@) =~= gs0[j as int].1.push(sfxv));
                    }
                    let ghost innerv = views(inner@);
                    groups[j] = (key, inner);
                    proof {
                        assert(groups@ == old(groups)@.update(
                            j as int,
                            (groups@[j as int].0, groups@[j as int].1),
                        ));
                        assert(group_views(groups@) =~= gs0.update(j as int, (keyv, innerv)));
                        assert(add_label_from(gs0, keyv, sfxv, j as int) == gs0.update(
                            j as int,
                            (keyv, gs0[j as int].1.push(sfxv)),
                        ));
                    }
                    return ;
                }
            }
            j += 1;
        }
        let ghost keyv = key@;
        let ghost sfxv = sfx@;
        let mut one: Vec<String> = Vec::new();
        one.push(sfx);
        proof {
            assert(views(one@) =~= seq![sfxv]);
        }
        let ghost onev = views(one@);
        groups.push((key, one));
        proof {
            assert(group_views(groups@) =~= gs0.push((keyv, onev)));
        }
    }

    fn has_empty_suffix(sfxs: &Vec<String>) -> (r: bool)
        ensures
            r == contains_empty(views(sfxs@)),
    {
        let n = sfxs.len();
        let mut i: usize = 0;
        while i < n
            invariant
                i <= n,
                n == sfxs@.len(),
                forall|j: int| 0 <= j < i ==> (#[trigger] views(sfxs@)[j]).len() != 0,
            decreases n - i,
        {
            if sfxs[i].as_str().unicode_len() == 0 {
                proof {
                    assert(views(sfxs@)[i as int].len() == 0);
                }
                return true;
            }
            i += 1;
        }
        proof {
            if contains_empty(views(sfxs@)) {
                let j = choose|j: int|
                    0 <= j < views(sfxs@).len() && (#[trigger] views(sfxs@)[j]).len() == 0;
                assert(views(sfxs@)[j].len() != 0);
            }
        }
        false
    }

    fn join_bar(sfxs: &Vec<String>, i: usize) -> (r: String)
        ensures
            r@ == join_bar_from(views(sfxs@), i as int),
        decreases sfxs@.len() - i,
    {
        if i >= sfxs.len() {
            String::new()
        } else if i == sfxs.len() - 1 {
            sfxs[i].clone()
        } else {
            let mut s = sfxs[i].clone();
            s.append("|");
            let rest = Self::join_bar(sfxs, i + 1);
            s.append(rest.as_str());
            s
        }
    }

    fn render_groups(groups: &Vec<(String, Vec<String>)>, i: usize) -> (r: String)
        ensures
            r@ == render_groups_from(group_views(groups@), i as int),
        decreases groups@.len() - i,
    {
        if i >= groups.len() {
            String::new()
        } else {
            let mut s = groups[i].0.clone();
            if !Self::has_empty_suffix(&groups[i].1) {
                s.append("(");
                let joined = Self::join_bar(&groups[i].1, 0);
                s.append(joined.as_str());
                s.append(")");
            }
            proof {
                assert(s@ == render_group(group_views(groups@)[i as int]));
            }
            if i == groups.len() - 1 {
                s
            } else {
                s.append(", ");
                let rest = Self::render_groups(groups, i + 1);
                s.append(rest.as_str());
                s
            }
        }
    }

    /// Combine a set of producer labels into one attribution: labels of the
    /// form `Name (X)` sharing a key are merged into `Name (X|Y)`; a label
    /// without a parenthesized suffix makes its key stand alone; distinct
    /// keys are listed separated by commas, all in first-seen order.
    pub fn combine_model_names(models: &Vec<String>) -> (r: String)
        ensures
            r@ == spec_combine(views(models@)),
    {
        let ghost mv = views(models@);
        let mut groups: Vec<(String, Vec<String>)> = Vec::new();
        let n = models.len();
        let mut i: usize = 0;
        proof {
            assert(group_views(groups@) =~= Seq::<(Seq<char>, Seq<Seq<char>>)>::empty());
        }
        while i < n
            invariant
                i <= n,
                n == models@.len(),
                mv == views(models@),
                group_views(groups@) == group_labels_pre(mv, i as int),
            decreases n - i,
        {
            let pair = Self::split_label(models[i].as_str());
            Self::add_label(&mut groups, pair.0, pair.1);
            i += 1;
        }
        Self::render_groups(&groups, 0)
    }

    /// Merge candidates that target the same conflict position with
    /// byte-identical text into one entry each, in first-seen order: the
    /// labels are combined, the duration is the longest, the token costs
    /// are summed (unknown counted as zero), the confidence signal is
    /// dropped.
    pub fn deduplicate_conflicts(conflicts: &Vec<ResolvedConflict>) -> (r: Vec<ResolvedConflict>)
        ensures
            resolved_views(r@) == spec_dedup(resolved_views(conflicts@)),
    {
        let ghost rsv = resolved_views(conflicts@);
        let mut out: Vec<ResolvedConflict> = Vec::new();
        let n = conflicts.len();
        let mut i: usize = 0;
        proof {
            assert(resolved_views(out@) =~= Seq::<ResolvedModel>::empty());
        }
        while i < n
            invariant
                i <= n,
                n == conflicts@.len(),
                rsv == resolved_views(conflicts@),
                resolved_views(out@) == spec_dedup_pre(rsv, i as int),
            decreases n - i,
        {
            let ghost pre = resolved_views(out@);
            let mut dup = false;
            let mut j: usize = 0;
            while j < i
                invariant
                    j <= i,
                    i < n,
                    n == conflicts@.len(),
                    rsv == resolved_views(conflicts@),
                    dup ==> key_seen_before(rsv, i as int),
                    !dup ==> forall|q: int| 0 <= q < j ==> rkey(#[trigger] rsv[q]) != rkey(
                        rsv[i as int],
                    ),
                decreases i - j,
            {
                if !dup && str_eq(
                    conflicts[j].conflict.file_path.as_str(),
                    conflicts[i].conflict.file_path.as_str(),
                ) && str_eq(
                    conflicts[j].resolved_version.as_str(),
                    conflicts[i].resolved_version.as_str(),
                ) && conflicts[j].conflict.start_line == conflicts[i].conflict.start_line {
                    dup = true;
                    proof {
                        assert(rkey(rsv[j as int]) == rkey(rsv[i as int]));
                    }
                }
                j += 1;
            }
            if !dup {
                proof {
                    if key_seen_before(rsv, i as int) {
                        let q = choose|q: int|
                            0 <= q < i && rkey(#[trigger] rsv[q]) == rkey(rsv[i as int]);
                        assert(rkey(rsv[q]) != rkey(rsv[i as int]));
                    }
                }
                let merged = Self::merge_one_group(conflicts, i);
                out.push(merged);
                proof {
                    assert(resolved_views(out@) =~= pre.push(merge_group(rsv, rkey(rsv[i as int]))));
                }
            }
            i += 1;
        }
        out
    }

    fn merge_one_group(conflicts: &Vec<ResolvedConflict>, i: usize) -> (r: ResolvedConflict)
        requires
            i < conflicts@.len(),
        ensures
            r@ == merge_group(
                resolved_views(conflicts@),
                rkey(resolved_views(conflicts@)[i as int]),
            ),
    {
        let ghost rsv = resolved_views(conflicts@);
        let ghost k = rkey(rsv[i as int]);
        let n = conflicts.len();
        let mut group: Vec<ResolvedConflict> = Vec::new();
        let mut j: usize = 0;
        proof {
            assert(rsv.take(0) =~= Seq::<ResolvedModel>::empty());
            assert(resolved_views(group@) =~= group_of(rsv.take(0), k));
        }
        while j < n
            invariant
                j <= n,
                i < n,
                n == conflicts@.len(),
                rsv == resolved_views(conflicts@),
                k == rkey(rsv[i as int]),
                resolved_views(group@) == group_of(rsv.take(j as int), k),
            decreases n - j,
        {
            let ghost pre = resolved_views(group@);
            proof {
                assert(rsv.take(j + 1).drop_last() =~= rsv.take(j as int));
                assert(rsv.take(j + 1).last() == rsv[j as int]);
            }
            if str_eq(
                conflicts[j].conflict.file_path.as_str(),
                conflicts[i].conflict.file_path.as_str(),
            ) && str_eq(
                conflicts[j].resolved_version.as_str(),
                conflicts[i].resolved_version.as_str(),
            ) && conflicts[j].conflict.start_line == conflicts[i].conflict.start_line {
                proof {
                    assert(rkey(rsv[j as int]) == k);
                }
                group.push(conflicts[j].clone());
                proof {
                    assert(resolved_views(group@) =~= pre.push(rsv[j as int]));
                }
            } else {
                proof {
                    assert(rkey(rsv[j as int]) != k);
                }
            }
            j += 1;
        }
        proof {
            assert(rsv.take(n as int) =~= rsv);
        }
        let ghost g = group_of(rsv, k);
        let glen = group.len();
        let mut models: Vec<String> = Vec::new();
        let mut max_dur: u64 = 0;
        let mut tok_sum: u64 = 0;
        let mut q: usize = 0;
        proof {
            assert(g.take(0) =~= Seq::<ResolvedModel>::empty());
            assert(views(models@) =~= models_of(g.take(0)));
        }
        while q < glen
            invariant
                q <= glen,
                glen == group@.len(),
                resolved_views(group@) == g,
                views(models@) == models_of(g.take(q as int)),
                max_dur == max_duration(g.take(q as int)),
                tok_sum == sum_tokens(g.take(q as int)),
            decreases glen - q,
        {
            proof {
                assert(g.take(q + 1).drop_last() =~= g.take(q as int));
                assert(g.take(q + 1).last() == g[q as int]);
            }
            let ghost mpre = views(models@);
            models.push(group[q].model.clone());
            proof {
                assert(views(models@) =~= mpre.push(g[q as int].model));
                assert(models_of(g.take(q + 1)) =~= models_of(g.take(q as int)).push(
                    g[q as int].model,
                ));
            }
            if group[q].duration_ms > max_dur {
                max_dur = group[q].duration_ms;
            }
            let t: u64 = match group[q].total_tokens {
                Some(t) => t,
                None => 0,
            };
            tok_sum = if tok_sum <= u64::MAX - t {
                tok_sum + t
            } else {
                u64::MAX
            };
            q += 1;
        }
        proof {
            assert(g.take(glen as int) =~= g);
            assert(g.len() > 0) by {
                assert(rkey(rsv[i as int]) == k);
                lemma_group_of_nonempty(rsv, k, i as int);
            }
        }
        let model = Self::combine_model_names(&models);
        let first = &group[0];
        let r = ResolvedConflict {
            conflict: first.conflict.clone(),
            resolved_version: first.resolved_version.clone(),
            model,
            duration_ms: max_dur,
            total_tokens: Some(tok_sum),
            logprob_bits: None,
        };
        proof {
            assert(r@ =~= merge_group(rsv, k));
        }
        r
    }

    /// Splice one resolved conflict back into its file's content: an
    /// attribution line carrying the producer label and the resolved text
    /// are inserted at the separator's line, which must still be the
    /// separator or an attribution line of an earlier pass.
    pub fn apply_resolved_to_content(content: &str, resolved: &ResolvedConflict) -> (r: Result<
        String,
        WriteBackError,
    >)
        ensures
            ({
                let sp = spec_apply_one(content@, resolved@);
                match r {
                    Ok(s) => sp == Ok::<Seq<char>, WriteBackError>(s@),
                    Err(e) => sp == Err::<Seq<char>, WriteBackError>(e),
                }
            }),
    {
        let ghost cls = line_split(content@);
        let lines = split_lines(content);
        let sl = resolved.conflict.start_line;
        let rs = resolved.conflict.remote_start;
        let nlines = lines.len();
        proof {
            assert(nlines == cls.len());
        }
        if rs > usize::MAX - sl {
            proof {
                assert(sl + rs - 1 >= cls.len());
            }
            return Err(WriteBackError::LineOutOfRange);
        }
        let pos = sl + rs;
        if pos < 1 {
            return Err(WriteBackError::LineOutOfRange);
        }
        let idx = pos - 1;
        if idx >= nlines {
            return Err(WriteBackError::LineOutOfRange);
        }
        let w = resolved.conflict.marker_size;
        let sep = Self::sep_line_string(w);
        let annot = Self::annot_prefix_string(w);
        let cur_is_sep = str_eq(lines[idx].as_str(), sep.as_str());
        let cur_is_annot = str_starts_with(lines[idx].as_str(), annot.as_str());
        if !(cur_is_sep || cur_is_annot) {
            return Err(WriteBackError::UnexpectedMarkerLine);
        }
        let mut marker = Self::annot_prefix_string(w);
        marker.append(resolved.model.as_str());
        push_char(&mut marker, '\n');
        let res_lines = split_lines(resolved.resolved_version.as_str());
        let mut out_lines = vec_subrange(&lines, 0, idx);
        out_lines.push(marker);
        append_strings(&mut out_lines, &res_lines);
        let tail = vec_subrange(&lines, idx, nlines);
        append_strings(&mut out_lines, &tail);
        proof {
            let mk = (annot_prefix(w as nat) + resolved.model@).push('\n');
            assert(views(out_lines@) =~= cls.take(idx as int) + seq![mk] + line_split(
                resolved.resolved_version@,
            ) + cls.skip(idx as int));
        }
        Ok(join_all(&out_lines))
    }

    /// Whether the line is a `Word-by: ...` trailer line.
    fn line_is_trailer(l: &str) -> (r: bool)
        ensures
            r == is_trailer_line(l@),
    {
        let n = l.unicode_len();
        if n < 7 {
            proof {
                assert forall|k: int| !trailer_split_at(l@, k) by {}
            }
            return false;
        }
        let c0 = l.get_char(0) as u32;
        if !(65 <= c0 && c0 <= 90) {
            proof {
                assert forall|k: int| !trailer_split_at(l@, k) by {}
            }
            return false;
        }
        if l.get_char(n - 1) != '\n' {
            proof {
                assert forall|k: int| !trailer_split_at(l@, k) by {}
            }
            return false;
        }
        let mut k: usize = 1;
        loop
            invariant
                1 <= k,
                n == l@.len(),
                n >= 7,
                65 <= l@[0] as u32 <= 90,
                l@[n - 1] == '\n',
                forall|t: int| 1 <= t < k ==> !is_whitespace_char(#[trigger] l@[t]),
                forall|kk: int| 1 <= kk < k ==> !trailer_split_at(l@, kk),
                k <= n,
            decreases n - k,
        {
            if k > n - 6 {
                proof {
                    assert forall|kk: int| !trailer_split_at(l@, kk) by {
                        if 1 <= kk < k {
                        } else if kk < 1 {
                        } else {
                            assert(kk + 6 > l@.len());
                        }
                    }
                }
                return false;
            }
            let mut ok = l.get_char(k) == '-' && l.get_char(k + 1) == 'b' && l.get_char(k + 2)
                == 'y' && l.get_char(k + 3) == ':';
            if ok {
                ok = char_is_whitespace(l.get_char(k + 4));
            }
            if ok {
                let mut t: usize = k + 5;
                let mut clean = true;
                while t < n - 1
                    invariant
                        k + 5 <= t,
                        n == l@.len(),
                        t <= n - 1,
                        clean ==> forall|q: int| k + 5 <= q < t ==> #[trigger] l@[q] != '\n',
                        !clean ==> exists|q: int| k + 5 <= q < l@.len() - 1 && #[trigger] l@[q]
                            == '\n',
                    decreases n - t,
                {
                    if l.get_char(t) == '\n' {
                        clean = false;
                    }
                    t += 1;
                }
                if clean {
                    proof {
                        assert(trailer_split_at(l@, k as int));
                    }
                    return true;
                }
            }
            proof {
                assert(!trailer_split_at(l@, k as int));
            }
            if char_is_whitespace(l.get_char(k)) {
                proof {
                    assert forall|kk: int| !trailer_split_at(l@, kk) by {
                        if kk > k {
                            assert(is_whitespace_char(l@[k as int]));
                        }
                    }
                }
                return false;
            }
            k += 1;
        }
    }

    fn back_nonblank_exec(lines: &Vec<String>, p: usize) -> (r: usize)
        requires
            p <= lines@.len(),
        ensures
            r as int == back_nonblank(views(lines@), p as int),
            r <= p,
            p > 0 ==> r < p,
        decreases p,
    {
        if p == 0 {
            0
        } else {
            let q = p - 1;
            if str_trim(lines[q].as_str()).unicode_len() != 0 {
                q
            } else {
                Self::back_nonblank_exec(lines, q)
            }
        }
    }

    /// Annotate a merge message with the attribution trailer, unless it
    /// already carries it.
    pub fn update_merge_message(content: &str) -> (r: Option<String>)
        ensures
            ({
                let sp = spec_annotate(content@);
                match r {
                    Some(s) => sp == Some(s@),
                    None => sp is None,
                }
            }),
    {
        match str_find(content, "Assisted-by: synthmerge", 0) {
            Some(i) => {
                proof {
                    assert(matches_at(content@, assisted_by_line(), i as int));
                }
                return None;
            },
            None => {
                proof {
                    assert forall|i: int| !matches_at(content@, assisted_by_line(), i) by {
                        if matches_at(content@, assisted_by_line(), i) {
                            assert(i >= 0);
                        }
                    }
                }
            },
        }
        let ghost ls = line_split(content@);
        let lines = split_lines(content);
        let nlines = lines.len();
        if nlines == 0 {
            return Some("Assisted-by: synthmerge\n".to_owned());
        }
        proof {
            lemma_first_conflicts_idx(ls, 0);
        }
        let mut ip: usize = nlines;
        let mut i: usize = 0;
        let mut found = false;
        while i < nlines && !found
            invariant
                i <= nlines,
                nlines == ls.len(),
                ls == line_split(content@),
                views(lines@) == ls,
                found ==> i < nlines && first_conflicts_idx(ls, 0) == i && ip == i,
                !found ==> ip == nlines && forall|j: int| 0 <= j < i ==> spec_trim(
                    #[trigger] ls[j],
                ) != "# Conflicts:"@,
            decreases nlines - i + (if found {
                0int
            } else {
                1int
            }),
        {
            if str_eq(str_trim(lines[i].as_str()), "# Conflicts:") {
                ip = i;
                found = true;
                proof {
                    lemma_first_conflicts_idx(ls, 0);
                    let idx = first_conflicts_idx(ls, 0);
                    assert(spec_trim(ls[i as int]) == "# Conflicts:"@);
                    if idx < 0 {
                        assert(spec_trim(ls[i as int]) != "# Conflicts:"@);
                    }
                    if 0 <= idx < i {
                        assert(spec_trim(ls[idx]) != "# Conflicts:"@);
                    }
                    if idx > i {
                        assert(spec_trim(ls[i as int]) != "# Conflicts:"@);
                    }
                }
            } else {
                i += 1;
            }
        }
        proof {
            if !found {
                lemma_first_conflicts_idx(ls, 0);
                let idx = first_conflicts_idx(ls, 0);
                if idx >= 0 {
                    assert(spec_trim(ls[idx]) != "# Conflicts:"@);
                }
            }
        }
        let ghost ip0 = ip as int;
        ip = Self::back_nonblank_exec(&lines, ip);
        proof {
            assert(ip as int == back_nonblank(ls, ip0));
            assert(ip < nlines);
        }
        let mut has_trailer = false;
        let mut t: usize = 0;
        while t <= ip && t < nlines && !has_trailer
            invariant
                t <= nlines,
                ip < nlines || ip == nlines,
                nlines == ls.len(),
                views(lines@) == ls,
                has_trailer ==> exists|q: int|
                    0 <= q <= ip as int && q < ls.len() && is_trailer_line(#[trigger] ls[q]),
                !has_trailer ==> forall|q: int| 0 <= q < t ==> !is_trailer_line(#[trigger] ls[q]),
            decreases nlines - t + (if has_trailer {
                0int
            } else {
                1int
            }),
        {
            if Self::line_is_trailer(lines[t].as_str()) {
                has_trailer = true;
                proof {
                    assert(is_trailer_line(ls[t as int]));
                }
            } else {
                t += 1;
            }
        }
        proof {
            if !has_trailer {
                if exists|q: int|
                    0 <= q <= ip as int && q < ls.len() && is_trailer_line(#[trigger] ls[q]) {
                    let q = choose|q: int|
                        0 <= q <= ip as int && q < ls.len() && is_trailer_line(#[trigger] ls[q]);
                    assert(!is_trailer_line(ls[q]));
                }
            }
        }
        let line: String = if has_trailer {
            "Assisted-by: synthmerge\n".to_owned()
        } else {
            "\nAssisted-by: synthmerge\n".to_owned()
        };
        let mut out_lines = vec_subrange(&lines, 0, ip + 1);
        out_lines.push(line);
        let tail = vec_subrange(&lines, ip + 1, nlines);
        append_strings(&mut out_lines, &tail);
        proof {
            let has = exists|q: int|
                0 <= q <= back_nonblank(ls, ip0) && q < ls.len() && is_trailer_line(
                    #[trigger] ls[q],
                );
            let lv = if has {
                "Assisted-by: synthmerge\n"@
            } else {
                "\nAssisted-by: synthmerge\n"@
            };
            assert(views(out_lines@) =~= ls.take(ip + 1) + seq![lv] + ls.skip(ip + 1));
        }
        Some(join_all(&out_lines))
    }

    /// Find all conflicts in the given unmerged files, in file order. A
    /// malformed conflict block anywhere aborts with that file's error.
    pub fn find_conflicts(&self, files: &Vec<UnmergedFile>) -> (r: Result<
        Vec<Conflict>,
        ParseError,
    >)
        ensures
            ({
                let sp = spec_find_conflicts(
                    file_views(files@),
                    self.context_lines.code_context_lines as nat,
                );
                match r {
                    Ok(cs) => sp == Ok::<Seq<ConflictModel>, ParseError>(conflict_views(cs@)),
                    Err(e) => sp == Err::<Seq<ConflictModel>, ParseError>(e),
                }
            }),
    {
        let ghost ccl = self.context_lines.code_context_lines as nat;
        let ghost fvs = file_views(files@);
        let mut conflicts: Vec<Conflict> = Vec::new();
        let n = files.len();
        let mut i: usize = 0;
        proof {
            assert(fvs.skip(0) =~= fvs);
            assert(conflict_views(conflicts@) =~= Seq::<ConflictModel>::empty());
        }
        while i < n
            invariant
                i <= n,
                n == files@.len(),
                fvs == file_views(files@),
                ccl == self.context_lines.code_context_lines as nat,
                spec_find_conflicts(fvs, ccl) == match spec_find_conflicts(
                    fvs.skip(i as int),
                    ccl,
                ) {
                    Ok(rest) => Ok::<Seq<ConflictModel>, ParseError>(
                        conflict_views(conflicts@) + rest,
                    ),
                    Err(e) => Err::<Seq<ConflictModel>, ParseError>(e),
                },
            decreases n - i,
        {
            let ghost pre = conflict_views(conflicts@);
            let ghost remf = fvs.skip(i as int);
            proof {
                assert(remf.first() == fvs[i as int]);
                assert(remf.drop_first() =~= fvs.skip(i + 1));
            }
            let f = &files[i];
            let cs = match self.parse_conflicts_in_content(
                f.content.as_str(),
                f.path.as_str(),
                f.marker_size,
            ) {
                Err(e) => {
                    return Err(e);
                },
                Ok(cs) => cs,
            };
            let mut q: usize = 0;
            let clen = cs.len();
            while q < clen
                invariant
                    q <= clen,
                    clen == cs@.len(),
                    conflicts@.len() == pre.len() + q,
                    forall|x: int| 0 <= x < pre.len() ==> conflicts@[x]@ == pre[x],
                    forall|x: int| 0 <= x < q ==> conflicts@[pre.len() + x]@ == cs@[x]@,
                decreases clen - q,
            {
                let item = cs[q].clone();
                conflicts.push(item);
                q += 1;
            }
            proof {
                assert(conflict_views(conflicts@) =~= pre + conflict_views(cs@));
                let fm = UnmergedFileModel {
                    path: f.path@,
                    content: f.content@,
                    marker_size: f.marker_size as nat,
                };
                assert(fm =~= fvs[i as int]);
                assert(spec_file_conflicts(fvs[i as int], ccl) == Ok::<
                    Seq<ConflictModel>,
                    ParseError,
                >(conflict_views(cs@)));
                match spec_find_conflicts(fvs.skip(i + 1), ccl) {
                    Ok(rest2) => {
                        assert(pre + (conflict_views(cs@) + rest2) =~= (pre + conflict_views(cs@))
                            + rest2);
                    },
                    Err(_) => {},
                }
            }
            i += 1;
        }
        proof {
            assert(fvs.skip(n as int) =~= Seq::<UnmergedFileModel>::empty());
            assert(conflict_views(conflicts@) + Seq::<ConflictModel>::empty() =~= conflict_views(
                conflicts@,
            ));
        }
        Ok(conflicts)
    }
}

} // verus!
