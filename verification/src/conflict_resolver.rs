//! Conflict data model and the orchestration logic that turns endpoint
//! answers into validated, deduplicated candidate resolutions: building the
//! delimited protocol message, parsing answers back out of their delimiter
//! pairs, validating each candidate against the conflict's context, and
//! tallying the failures per producer label.

use vstd::prelude::*;
use imara_diff::{Algorithm, BasicLineDiffPrinter, Diff, InternedInput, UnifiedDiffConfig};
use crate::strutil::{
    matches_at, views, first_match_idx, lemma_first_match_idx, str_find_idx, str_starts_with,
    str_ends_with, ends_with_nl, push_char, usize_to_string, spec_digits, str_eq,
};
use crate::config::{EndpointConfig, EndpointTypeConfig, variant_idx_ok, spec_variant_name};
use crate::api_client::{ApiResponseEntry, ApiError, ApiResponse};

verus! {

/// One parsed conflict region of a working file, in diff3 style: the local
/// (ours), base (ancestor) and remote (theirs) bodies, the unmodified context
/// around the region, and enough position data to splice a resolution back.
#[derive(Debug)]
pub struct Conflict {
    pub file_path: String,
    pub local: String,
    pub base: String,
    pub remote: String,
    pub head_context: String,
    pub tail_context: String,
    /// 1-based line number of the opening marker line.
    pub start_line: usize,
    /// Offset, in lines relative to the first block line, of the separator.
    pub remote_start: usize,
    pub nr_head_context_lines: usize,
    pub nr_tail_context_lines: usize,
    pub marker_size: usize,
}

/// Mathematical model of a `Conflict`.
#[verifier::ext_equal]
pub struct ConflictModel {
    pub file_path: Seq<char>,
    pub local: Seq<char>,
    pub base: Seq<char>,
    pub remote: Seq<char>,
    pub head_context: Seq<char>,
    pub tail_context: Seq<char>,
    pub start_line: nat,
    pub remote_start: nat,
    pub nr_head_context_lines: nat,
    pub nr_tail_context_lines: nat,
    pub marker_size: nat,
}

impl View for Conflict {
    type V = ConflictModel;

    open spec fn view(&self) -> ConflictModel {
        ConflictModel {
            file_path: self.file_path@,
            local: self.local@,
            base: self.base@,
            remote: self.remote@,
            head_context: self.head_context@,
            tail_context: self.tail_context@,
            start_line: self.start_line as nat,
            remote_start: self.remote_start as nat,
            nr_head_context_lines: self.nr_head_context_lines as nat,
            nr_tail_context_lines: self.nr_tail_context_lines as nat,
            marker_size: self.marker_size as nat,
        }
    }
}

/// One candidate fix for a conflict, or the merged result of several
/// byte-identical candidates. The producing request's wall-clock time is
/// kept in milliseconds and the confidence signal as the raw bit pattern of
/// the endpoint's per-token minimum log-probability, so that the engine can
/// carry both through without doing floating-point arithmetic itself.
#[derive(Debug)]
pub struct ResolvedConflict {
    pub conflict: Conflict,
    /// Replacement text for the remote side, context stripped off; empty or
    /// newline-terminated.
    pub resolved_version: String,
    /// Human-readable producer label.
    pub model: String,
    pub duration_ms: u64,
    pub total_tokens: Option<u64>,
    pub logprob_bits: Option<u64>,
}

/// Mathematical model of a `ResolvedConflict`.
#[verifier::ext_equal]
pub struct ResolvedModel {
    pub conflict: ConflictModel,
    pub resolved_version: Seq<char>,
    pub model: Seq<char>,
    pub duration_ms: u64,
    pub total_tokens: Option<u64>,
    pub logprob_bits: Option<u64>,
}

impl View for ResolvedConflict {
    type V = ResolvedModel;

    open spec fn view(&self) -> ResolvedModel {
        ResolvedModel {
            conflict: self.conflict@,
            resolved_version: self.resolved_version@,
            model: self.model@,
            duration_ms: self.duration_ms,
            total_tokens: self.total_tokens,
            logprob_bits: self.logprob_bits,
        }
    }
}

impl Clone for Conflict {
    fn clone(&self) -> (r: Self)
        ensures
            r@ == self@,
    {
        Conflict {
            file_path: self.file_path.clone(),
            local: self.local.clone(),
            base: self.base.clone(),
            remote: self.remote.clone(),
            head_context: self.head_context.clone(),
            tail_context: self.tail_context.clone(),
            start_line: self.start_line,
            remote_start: self.remote_start,
            nr_head_context_lines: self.nr_head_context_lines,
            nr_tail_context_lines: self.nr_tail_context_lines,
            marker_size: self.marker_size,
        }
    }
}

impl Clone for ResolvedConflict {
    fn clone(&self) -> (r: Self)
        ensures
            r@ == self@,
    {
        ResolvedConflict {
            conflict: self.conflict.clone(),
            resolved_version: self.resolved_version.clone(),
            model: self.model.clone(),
            duration_ms: self.duration_ms,
            total_tokens: self.total_tokens,
            logprob_bits: self.logprob_bits,
        }
    }
}

/// Per-model tally of discarded candidates, an association list with unique
/// keys in first-seen order.
pub struct ResolverErrors {
    pub errors: Vec<(String, usize)>,
}

/// The views of an error tally.
pub open spec fn err_views(es: Seq<(String, usize)>) -> Seq<(Seq<char>, usize)> {
    es.map_values(|p: (String, usize)| (p.0@, p.1))
}

/// The views of a list of resolved conflicts.
pub open spec fn resolved_views(v: Seq<ResolvedConflict>) -> Seq<ResolvedModel> {
    v.map_values(|r: ResolvedConflict| r@)
}

/// The tally with the count under `key` one higher (saturating), the key
/// appended with count one when absent; order and other entries unchanged.
pub open spec fn spec_bump(es: Seq<(Seq<char>, usize)>, key: Seq<char>) -> Seq<(Seq<char>, usize)>
    decreases es.len(),
{
    if es.len() == 0 {
        seq![(key, 1usize)]
    } else if es.first().0 == key {
        seq![
            (
                es.first().0,
                if es.first().1 < usize::MAX {
                    (es.first().1 + 1) as usize
                } else {
                    es.first().1
                },
            ),
        ] + es.drop_first()
    } else {
        seq![es.first()] + spec_bump(es.drop_first(), key)
    }
}

/// Why a candidate answer was discarded.
#[derive(Debug, Clone, Copy, PartialEq, Eq, Structural)]
pub enum ValidationError {
    /// The candidate does not begin with the conflict's head context.
    HeadContextMismatch,
    /// The candidate does not end with a newline and the tail context.
    TailContextMismatch,
    /// Head and tail context overlap inside the candidate.
    ContextOverlap,
    /// The stripped content is neither empty nor newline-terminated.
    NotNewlineTerminated,
}

/// Why no candidate could be cut out of a raw response.
#[derive(Debug, Clone, Copy, PartialEq, Eq, Structural)]
pub enum ResponseError {
    /// An opening delimiter with no closing delimiter after it.
    MissingEndDelimiter,
    /// No delimiter-wrapped answer at all.
    NoCodeBlocks,
}

// ---------------------------------------------------------------------------
// Candidate validation
// ---------------------------------------------------------------------------

/// Validation of one candidate text against the conflict's context: it must
/// begin with the head context, end with a newline followed by the tail
/// context, and the content between the two contexts must be empty or
/// newline-terminated; that content is the resolved version.
pub open spec fn spec_validate(cand: Seq<char>, head: Seq<char>, tail: Seq<char>) -> Result<
    Seq<char>,
    ValidationError,
> {
    if !matches_at(cand, head, 0) {
        Err(ValidationError::HeadContextMismatch)
    } else if !matches_at(cand, seq!['\n'] + tail, cand.len() - (tail.len() + 1)) {
        Err(ValidationError::TailContextMismatch)
    } else if head.len() + tail.len() > cand.len() {
        Err(ValidationError::ContextOverlap)
    } else {
        let stripped = cand.subrange(head.len() as int, cand.len() - tail.len());
        if stripped.len() == 0 || stripped.last() == '\n' {
            Ok(stripped)
        } else {
            Err(ValidationError::NotNewlineTerminated)
        }
    }
}

/// Validate one candidate and cut the resolved version out of it.
pub fn validate_candidate(candidate: &str, head_context: &str, tail_context: &str) -> (r: Result<
    String,
    ValidationError,
>)
    ensures
        ({
            let sp = spec_validate(candidate@, head_context@, tail_context@);
            match r {
                Ok(s) => sp == Ok::<Seq<char>, ValidationError>(s@),
                Err(e) => sp == Err::<Seq<char>, ValidationError>(e),
            }
        }),
{
    if !str_starts_with(candidate, head_context) {
        return Err(ValidationError::HeadContextMismatch);
    }
    let mut leading_tail = String::new();
    push_char(&mut leading_tail, '\n');
    leading_tail.append(tail_context);
    proof {
        assert(leading_tail@ =~= seq!['\n'] + tail_context@);
    }
    if !str_ends_with(candidate, leading_tail.as_str()) {
        return Err(ValidationError::TailContextMismatch);
    }
    let cand_len = candidate.unicode_len();
    let head_len = head_context.unicode_len();
    let tail_len = tail_context.unicode_len();
    if head_len > cand_len - tail_len {
        return Err(ValidationError::ContextOverlap);
    }
    let stripped = candidate.substring_char(head_len, cand_len - tail_len);
    if stripped.unicode_len() == 0 || ends_with_nl(stripped) {
        Ok(stripped.to_owned())
    } else {
        Err(ValidationError::NotNewlineTerminated)
    }
}

/// Joining head context, a resolved version and tail context back into one
/// candidate and validating it strips back to exactly the resolved version,
/// whenever the resolved version is empty or newline-terminated and some
/// newline-terminated text precedes the tail context.
pub proof fn lemma_validate_round_trip(head: Seq<char>, resolved: Seq<char>, tail: Seq<char>)
    requires
        resolved.len() == 0 || resolved.last() == '\n',
        resolved.len() > 0 || (head.len() > 0 && head.last() == '\n'),
    ensures
        spec_validate(head + resolved + tail, head, tail) == Ok::<Seq<char>, ValidationError>(
            resolved,
        ),
{
    let cand = head + resolved + tail;
    assert(cand.subrange(0, head.len() as int) =~= head);
    assert(matches_at(cand, head, 0));
    assert(cand.subrange(cand.len() - (tail.len() + 1), cand.len() as int) =~= seq!['\n'] + tail);
    assert(matches_at(cand, seq!['\n'] + tail, cand.len() - (tail.len() + 1)));
    assert(cand.subrange(head.len() as int, cand.len() - tail.len()) =~= resolved);
}

// ---------------------------------------------------------------------------
// Cutting candidate texts out of a raw response
// ---------------------------------------------------------------------------

/// All delimiter-wrapped answers of a raw response from `from` on, in
/// order, and whether the scan ended on an opening delimiter that has no
/// closing delimiter after it.
pub open spec fn spec_scan_blocks(resp: Seq<char>, from: int) -> (Seq<Seq<char>>, bool)
    decreases resp.len() - from,
    when 0 <= from
    via spec_scan_blocks_dec
{
    let sm = "<|patched_code|>\n"@;
    let em = "<|/patched_code|>"@;
    let s = first_match_idx(resp, sm, from);
    if s < 0 {
        (Seq::empty(), false)
    } else {
        let cstart = s + sm.len();
        let e = first_match_idx(resp, em, cstart as int);
        if e < 0 {
            (Seq::empty(), true)
        } else {
            let rest = spec_scan_blocks(resp, e + em.len());
            (seq![resp.subrange(cstart as int, e)] + rest.0, rest.1)
        }
    }
}

#[via_fn]
proof fn spec_scan_blocks_dec(resp: Seq<char>, from: int) {
    reveal_strlit("<|patched_code|>\n");
    reveal_strlit("<|/patched_code|>");
    let sm = "<|patched_code|>\n"@;
    let em = "<|/patched_code|>"@;
    lemma_first_match_idx(resp, sm, from);
    let s = first_match_idx(resp, sm, from);
    if s >= 0 {
        lemma_first_match_idx(resp, em, s + sm.len() as int);
    }
}

// ---------------------------------------------------------------------------
// Producer labels
// ---------------------------------------------------------------------------

/// The label under which one candidate is attributed: the endpoint's name,
/// with the variant name, the beam number (when not the first beam) and the
/// answer number within one response (when not the first) in parentheses.
pub open spec fn spec_model_name_multi(
    eps: Seq<EndpointConfig>,
    e: int,
    v: int,
    beam: int,
    multi: int,
) -> Seq<char> {
    let base = eps[e].name@;
    let vn = spec_variant_name(eps[e], v);
    let open1 = vn is Some;
    let s1 = match vn {
        Some(n) => base + " ("@ + n,
        None => base,
    };
    let open2 = open1 || beam > 0;
    let s2 = if beam > 0 {
        (if open1 {
            s1
        } else {
            s1 + " ("@
        }) + "#"@ + spec_digits(beam as nat)
    } else {
        s1
    };
    let open3 = open2 || multi > 0;
    let s3 = if multi > 0 {
        (if open2 {
            s2
        } else {
            s2 + " ("@
        }) + "$"@ + spec_digits(multi as nat)
    } else {
        s2
    };
    if open3 {
        s3 + ")"@
    } else {
        s3
    }
}

/// The saturating increment used by the error tally.
pub open spec fn bumped_count(c: usize) -> usize {
    if c < usize::MAX {
        (c + 1) as usize
    } else {
        c
    }
}

proof fn lemma_spec_bump_found(es: Seq<(Seq<char>, usize)>, key: Seq<char>, i: int)
    requires
        0 <= i < es.len(),
        es[i].0 == key,
        forall|j: int| 0 <= j < i ==> (#[trigger] es[j]).0 != key,
    ensures
        spec_bump(es, key) =~= es.update(i, (key, bumped_count(es[i].1))),
    decreases es.len(),
{
    if i == 0 {
        assert(es.first().0 == key);
        assert(seq![(key, bumped_count(es[0].1))] + es.drop_first() =~= es.update(
            0,
            (key, bumped_count(es[0].1)),
        ));
    } else {
        assert(es.first().0 != key);
        assert(forall|j: int|
            0 <= j < i - 1 ==> (#[trigger] es.drop_first()[j]) == es[j + 1]);
        lemma_spec_bump_found(es.drop_first(), key, i - 1);
        assert(seq![es.first()] + es.drop_first().update(i - 1, (key, bumped_count(es[i].1)))
            =~= es.update(i, (key, bumped_count(es[i].1))));
    }
}

proof fn lemma_spec_bump_absent(es: Seq<(Seq<char>, usize)>, key: Seq<char>)
    requires
        forall|j: int| 0 <= j < es.len() ==> (#[trigger] es[j]).0 != key,
    ensures
        spec_bump(es, key) =~= es.push((key, 1usize)),
    decreases es.len(),
{
    if es.len() == 0 {
    } else {
        assert(es.first().0 != key);
        assert(forall|j: int|
            0 <= j < es.len() - 1 ==> (#[trigger] es.drop_first()[j]) == es[j + 1]);
        lemma_spec_bump_absent(es.drop_first(), key);
        assert(seq![es.first()] + es.drop_first().push((key, 1usize)) =~= es.push((key, 1usize)));
    }
}

/// Count one more discarded candidate under `model`, keeping first-seen
/// order of the labels.
pub fn bump_error(errors: &mut ResolverErrors, model: String)
    ensures
        err_views(final(errors).errors@) == spec_bump(err_views(old(errors).errors@), model@),
{
    let ghost es0 = err_views(errors.errors@);
    let n = errors.errors.len();
    let mut i: usize = 0;
    while i < n
        invariant
            i <= n,
            n == errors.errors@.len(),
            errors == old(errors),
            es0 == err_views(errors.errors@),
            forall|j: int| 0 <= j < i ==> (#[trigger] es0[j]).0 != model@,
        decreases n - i,
    {
        if str_eq(errors.errors[i].0.as_str(), model.as_str()) {
            let c = errors.errors[i].1;
            let newc: usize = if c < usize::MAX {
                c + 1
            } else {
                c
            };
            let key = errors.errors[i].0.clone();
            errors.errors[i] = (key, newc);
            proof {
                assert(es0[i as int].0 == model@);
                lemma_spec_bump_found(es0, model@, i as int);
                assert(err_views(errors.errors@) =~= es0.update(
                    i as int,
                    (model@, bumped_count(es0[i as int].1)),
                ));
            }
            return;
        }
        i += 1;
    }
    proof {
        lemma_spec_bump_absent(es0, model@);
    }
    errors.errors.push((model, 1));
    proof {
        assert(err_views(errors.errors@) =~= es0.push((model@, 1usize)));
    }
}

/// The set of (endpoint, stripped text) pairs already emitted.
pub open spec fn seen_set(sv: Seq<(usize, String)>) -> Set<(int, Seq<char>)>
    decreases sv.len(),
{
    if sv.len() == 0 {
        Set::empty()
    } else {
        seen_set(sv.drop_last()).insert(((sv.last().0 as int), sv.last().1@))
    }
}

proof fn lemma_seen_set(sv: Seq<(usize, String)>)
    ensures
        forall|p: (int, Seq<char>)|
            #[trigger] seen_set(sv).contains(p) <==> exists|i: int|
                0 <= i < sv.len() && p == (((#[trigger] sv[i]).0 as int), sv[i].1@),
    decreases sv.len(),
{
    if sv.len() == 0 {
    } else {
        lemma_seen_set(sv.drop_last());
        assert forall|p: (int, Seq<char>)| #[trigger]
            seen_set(sv).contains(p) implies exists|i: int|
            0 <= i < sv.len() && p == (((#[trigger] sv[i]).0 as int), sv[i].1@) by {
            if p == (((sv[sv.len() - 1]).0 as int), sv[sv.len() - 1].1@) {
                assert(0 <= sv.len() - 1 < sv.len());
            } else {
                assert(seen_set(sv.drop_last()).contains(p));
                let i = choose|i: int|
                    0 <= i < sv.drop_last().len() && p == (((sv.drop_last()[i]).0 as int),
                    sv.drop_last()[i].1@);
                assert(sv.drop_last()[i] == sv[i]);
            }
        }
        assert forall|p: (int, Seq<char>)|
            (exists|i: int|
                0 <= i < sv.len() && p == (((#[trigger] sv[i]).0 as int), sv[i].1@)) implies #[trigger]
            seen_set(sv).contains(p) by {
            let i = choose|i: int| 0 <= i < sv.len() && p == (((sv[i]).0 as int), sv[i].1@);
            if i == sv.len() - 1 {
            } else {
                assert(sv.drop_last()[i] == sv[i]);
                assert(seen_set(sv.drop_last()).contains(p));
            }
        }
    }
}

fn seen_contains(seen: &Vec<(usize, String)>, endpoint: usize, s: &str) -> (r: bool)
    ensures
        r == seen_set(seen@).contains((endpoint as int, s@)),
{
    proof {
        lemma_seen_set(seen@);
    }
    let n = seen.len();
    let mut i: usize = 0;
    while i < n
        invariant
            i <= n,
            n == seen@.len(),
            forall|j: int|
                0 <= j < i ==> ((#[trigger] seen@[j]).0 as int, seen@[j].1@) != (
                    endpoint as int,
                    s@,
                ),
        decreases n - i,
    {
        if seen[i].0 == endpoint && str_eq(seen[i].1.as_str(), s) {
            proof {
                lemma_seen_set(seen@);
                assert((seen@[i as int].0 as int, seen@[i as int].1@) == (endpoint as int, s@));
            }
            return true;
        }
        i += 1;
    }
    proof {
        lemma_seen_set(seen@);
        if seen_set(seen@).contains((endpoint as int, s@)) {
            let j = choose|j: int|
                0 <= j < seen@.len() && (endpoint as int, s@) == (((seen@[j]).0 as int),
                seen@[j].1@);
            assert(((seen@[j]).0 as int, seen@[j].1@) != (endpoint as int, s@));
        }
    }
    false
}

/// The orchestrator's working state while it walks the collected results:
/// the candidates kept so far, the per-label error tally, and which
/// (endpoint, text) pairs were already emitted.
#[verifier::ext_equal]
pub struct ProcState {
    pub resolved: Seq<ResolvedModel>,
    pub errors: Seq<(Seq<char>, usize)>,
    pub seen: Set<(int, Seq<char>)>,
}

/// Process the delimiter-wrapped answers of one response entry, from answer
/// number `m` on: validate each against the conflict's context, tally a
/// failure under the candidate's label, drop duplicates of already-emitted
/// text from the same endpoint, and keep the rest in order.
pub open spec fn spec_proc_multis(
    st: ProcState,
    strs: Seq<Seq<char>>,
    c: ConflictModel,
    eps: Seq<EndpointConfig>,
    e: int,
    v: int,
    b: int,
    dur: u64,
    toks: Option<u64>,
    lp: Option<u64>,
    m: int,
) -> ProcState
    decreases strs.len() - m,
{
    if m < 0 || m >= strs.len() {
        st
    } else {
        let label = spec_model_name_multi(eps, e, v, b, m);
        let st2 = match spec_validate(strs[m], c.head_context, c.tail_context) {
            Err(_) => ProcState {
                resolved: st.resolved,
                errors: spec_bump(st.errors, label),
                seen: st.seen,
            },
            Ok(stripped) => {
                if st.seen.contains((e, stripped)) {
                    st
                } else {
                    ProcState {
                        resolved: st.resolved.push(
                            ResolvedModel {
                                conflict: c,
                                resolved_version: stripped,
                                model: label,
                                duration_ms: dur,
                                total_tokens: toks,
                                logprob_bits: lp,
                            },
                        ),
                        errors: st.errors,
                        seen: st.seen.insert((e, stripped)),
                    }
                }
            },
        };
        spec_proc_multis(st2, strs, c, eps, e, v, b, dur, toks, lp, m + 1)
    }
}

/// Process the beams of one variant's result from beam `b` on: a failed
/// beam, or one whose response holds no delimiter-wrapped answer, counts one
/// error under the label without beam number; the answers of the others are
/// processed in order.
pub open spec fn spec_proc_beams(
    st: ProcState,
    var: Seq<Result<ApiResponseEntry, ApiError>>,
    c: ConflictModel,
    eps: Seq<EndpointConfig>,
    e: int,
    v: int,
    b: int,
) -> ProcState
    decreases var.len() - b,
{
    if b < 0 || b >= var.len() {
        st
    } else {
        let st2 = match var[b] {
            Err(_) => ProcState {
                resolved: st.resolved,
                errors: spec_bump(st.errors, spec_model_name_multi(eps, e, v, 0, 0)),
                seen: st.seen,
            },
            Ok(entry) => {
                let blocks = spec_scan_blocks(entry.response@, 0).0;
                if blocks.len() == 0 {
                    ProcState {
                        resolved: st.resolved,
                        errors: spec_bump(st.errors, spec_model_name_multi(eps, e, v, 0, 0)),
                        seen: st.seen,
                    }
                } else {
                    spec_proc_multis(
                        st,
                        blocks,
                        c,
                        eps,
                        e,
                        v,
                        b,
                        entry.duration_ms,
                        entry.total_tokens,
                        entry.logprob_bits,
                        0,
                    )
                }
            },
        };
        spec_proc_beams(st2, var, c, eps, e, v, b + 1)
    }
}

/// Process one endpoint's response, variant by variant, from `v` on.
pub open spec fn spec_proc_variants(
    st: ProcState,
    resp: Seq<Vec<Result<ApiResponseEntry, ApiError>>>,
    c: ConflictModel,
    eps: Seq<EndpointConfig>,
    e: int,
    v: int,
) -> ProcState
    decreases resp.len() - v,
{
    if v < 0 || v >= resp.len() {
        st
    } else {
        spec_proc_variants(spec_proc_beams(st, resp[v]@, c, eps, e, v, 0), resp, c, eps, e, v + 1)
    }
}

/// Process all collected results in order, from result `i` on; an endpoint
/// whose whole query failed is skipped without a tally.
pub open spec fn spec_proc_results(
    st: ProcState,
    results: Seq<(Result<ApiResponse, ApiError>, usize)>,
    c: ConflictModel,
    eps: Seq<EndpointConfig>,
    i: int,
) -> ProcState
    decreases results.len() - i,
{
    if i < 0 || i >= results.len() {
        st
    } else {
        let st2 = match results[i].0 {
            Err(_) => st,
            Ok(rr) => spec_proc_variants(st, rr@, c, eps, results[i].1 as int, 0),
        };
        spec_proc_results(st2, results, c, eps, i + 1)
    }
}

/// Every candidate kept so far has an empty or newline-terminated
/// resolved version.
pub open spec fn resolved_nl_invariant(rs: Seq<ResolvedModel>) -> bool {
    forall|i: int|
        0 <= i < rs.len() ==> ((#[trigger] rs[i]).resolved_version.len() == 0
            || rs[i].resolved_version.last() == '\n')
}

proof fn lemma_multis_nl_invariant(
    st: ProcState,
    strs: Seq<Seq<char>>,
    c: ConflictModel,
    eps: Seq<EndpointConfig>,
    e: int,
    v: int,
    b: int,
    dur: u64,
    toks: Option<u64>,
    lp: Option<u64>,
    m: int,
)
    requires
        resolved_nl_invariant(st.resolved),
    ensures
        resolved_nl_invariant(
            spec_proc_multis(st, strs, c, eps, e, v, b, dur, toks, lp, m).resolved,
        ),
    decreases strs.len() - m,
{
    if m < 0 || m >= strs.len() {
    } else {
        let label = spec_model_name_multi(eps, e, v, b, m);
        match spec_validate(strs[m], c.head_context, c.tail_context) {
            Err(_) => {
                lemma_multis_nl_invariant(
                    ProcState { resolved: st.resolved, errors: spec_bump(st.errors, label), seen: st.seen },
                    strs, c, eps, e, v, b, dur, toks, lp, m + 1,
                );
            },
            Ok(stripped) => {
                if st.seen.contains((e, stripped)) {
                    lemma_multis_nl_invariant(st, strs, c, eps, e, v, b, dur, toks, lp, m + 1);
                } else {
                    let st2 = ProcState {
                        resolved: st.resolved.push(
                            ResolvedModel {
                                conflict: c,
                                resolved_version: stripped,
                                model: label,
                                duration_ms: dur,
                                total_tokens: toks,
                                logprob_bits: lp,
                            },
                        ),
                        errors: st.errors,
                        seen: st.seen.insert((e, stripped)),
                    };
                    assert(stripped.len() == 0 || stripped.last() == '\n');
                    assert(resolved_nl_invariant(st2.resolved)) by {
                        assert forall|i: int| 0 <= i < st2.resolved.len() implies ((
                        #[trigger] st2.resolved[i]).resolved_version.len() == 0
                            || st2.resolved[i].resolved_version.last() == '\n') by {
                            if i < st.resolved.len() {
                                assert(st2.resolved[i] == st.resolved[i]);
                            }
                        }
                    }
                    lemma_multis_nl_invariant(st2, strs, c, eps, e, v, b, dur, toks, lp, m + 1);
                }
            },
        }
    }
}

proof fn lemma_beams_nl_invariant(
    st: ProcState,
    var: Seq<Result<ApiResponseEntry, ApiError>>,
    c: ConflictModel,
    eps: Seq<EndpointConfig>,
    e: int,
    v: int,
    b: int,
)
    requires
        resolved_nl_invariant(st.resolved),
    ensures
        resolved_nl_invariant(spec_proc_beams(st, var, c, eps, e, v, b).resolved),
    decreases var.len() - b,
{
    if b < 0 || b >= var.len() {
    } else {
        let st2 = match var[b] {
            Err(_) => ProcState {
                resolved: st.resolved,
                errors: spec_bump(st.errors, spec_model_name_multi(eps, e, v, 0, 0)),
                seen: st.seen,
            },
            Ok(entry) => {
                let blocks = spec_scan_blocks(entry.response@, 0).0;
                if blocks.len() == 0 {
                    ProcState {
                        resolved: st.resolved,
                        errors: spec_bump(st.errors, spec_model_name_multi(eps, e, v, 0, 0)),
                        seen: st.seen,
                    }
                } else {
                    lemma_multis_nl_invariant(
                        st, blocks, c, eps, e, v, b,
                        entry.duration_ms, entry.total_tokens, entry.logprob_bits, 0,
                    );
                    spec_proc_multis(
                        st, blocks, c, eps, e, v, b,
                        entry.duration_ms, entry.total_tokens, entry.logprob_bits, 0,
                    )
                }
            },
        };
        lemma_beams_nl_invariant(st2, var, c, eps, e, v, b + 1);
    }
}

proof fn lemma_variants_nl_invariant(
    st: ProcState,
    resp: Seq<Vec<Result<ApiResponseEntry, ApiError>>>,
    c: ConflictModel,
    eps: Seq<EndpointConfig>,
    e: int,
    v: int,
)
    requires
        resolved_nl_invariant(st.resolved),
    ensures
        resolved_nl_invariant(spec_proc_variants(st, resp, c, eps, e, v).resolved),
    decreases resp.len() - v,
{
    if v < 0 || v >= resp.len() {
    } else {
        lemma_beams_nl_invariant(st, resp[v]@, c, eps, e, v, 0);
        lemma_variants_nl_invariant(
            spec_proc_beams(st, resp[v]@, c, eps, e, v, 0),
            resp, c, eps, e, v + 1,
        );
    }
}

/// Every candidate the orchestrator keeps has an empty or
/// newline-terminated resolved version: validation admits nothing else.
pub proof fn lemma_process_results_nl_invariant(
    st: ProcState,
    results: Seq<(Result<ApiResponse, ApiError>, usize)>,
    c: ConflictModel,
    eps: Seq<EndpointConfig>,
    i: int,
)
    requires
        resolved_nl_invariant(st.resolved),
    ensures
        resolved_nl_invariant(spec_proc_results(st, results, c, eps, i).resolved),
    decreases results.len() - i,
{
    if i < 0 || i >= results.len() {
    } else {
        let st2 = match results[i].0 {
            Err(_) => st,
            Ok(rr) => {
                lemma_variants_nl_invariant(st, rr@, c, eps, results[i].1 as int, 0);
                spec_proc_variants(st, rr@, c, eps, results[i].1 as int, 0)
            },
        };
        lemma_process_results_nl_invariant(st2, results, c, eps, i + 1);
    }
}

/// Result lists the orchestrator accepts: every endpoint index is in range
/// and every variant index of a successful response is one the endpoint's
/// configuration can label.
pub open spec fn results_wf(
    results: Seq<(Result<ApiResponse, ApiError>, usize)>,
    eps: Seq<EndpointConfig>,
) -> bool {
    forall|i: int|
        0 <= i < results.len() ==> (#[trigger] results[i]).1 < eps.len() && match results[i].0 {
            Ok(rr) => forall|v: int|
                0 <= v < rr@.len() ==> #[trigger] variant_idx_ok(eps[results[i].1 as int], v),
            Err(_) => true,
        }
}

// ---------------------------------------------------------------------------
// Protocol text
// ---------------------------------------------------------------------------

/// The fixed one-shot training example embedded in every prompt.
pub open spec fn spec_training() -> Seq<char> {
    "Learn from the following training example:\n\n<|patch|>\n@@ -1,7 +1,7 @@\n \n const struct feature default_feat;\n \n-static inline const struct feature *get_extra_something(struct object *obj)\n+static inline const struct feature *get_special_something(struct device *dev)\n {\n \treturn &default_feat;\n }\n<|/patch|>\n\n<|code|>\n\nstruct feat feat;\n\nstatic inline struct feat *get_extra_something(double option, struct device *obj, int param)\n {\t\n\treturn &feat;\n}\n<|/code|>\n\n<|patched_code|>\n\nstruct feat feat;\n\nstatic inline struct feat *get_special_something(double option, struct device *dev, int param)\n {\t\n\treturn &feat;\n}\n<|/patched_code|>"@
}

/// The instruction text for a conflict whose context is `h` head lines and
/// `t` tail lines.
pub open spec fn spec_prompt(h: nat, t: nat) -> Seq<char> {
    "Apply the PATCH between <|patch|><|/patch|> to the CODE between <|code|><|/code|>.\n\nFINALLY write the final PATCHED CODE between <|patched_code|><|/patched_code|> instead of markdown fences.\n\nRewrite the "@
        + spec_digits(h) + " line"@ + (if h != 1 {
        "s"@
    } else {
        Seq::<char>::empty()
    }) + " after <|code|> and the "@ + spec_digits(t) + " line"@ + (if t != 1 {
        "s"@
    } else {
        Seq::<char>::empty()
    }) + " before <|/code|> exactly the same, including all empty lines."@
}

/// The framing that introduces a repository diff as extra context.
pub open spec fn spec_framed_diff(s: Seq<char>) -> Seq<char> {
    "The PATCH originates from the DIFF between <|diff|><|/diff|>.\n\n<|diff|>\n"@ + s
        + "<|/diff|>"@
}

/// The delimited message holding the patch and the code.
pub open spec fn spec_message(patch: Seq<char>, code: Seq<char>) -> Seq<char> {
    "<|patch|>\n"@ + patch + "<|/patch|>\n\n<|code|>\n"@ + code + "<|/code|>"@
}

/// Name for the unified diff that the histogram line-diff of the outside
/// diff library renders for two texts at a context width.
pub uninterp spec fn histogram_diff_of(base: Seq<char>, remote: Seq<char>, context_len: nat) -> Seq<
    char,
>;

/// Whether `pat` occurs somewhere in `s`.
pub open spec fn contains_sub(s: Seq<char>, pat: Seq<char>) -> bool {
    exists|i: int| matches_at(s, pat, i)
}

/// The coordination layer: builds the protocol message for each conflict
/// and turns the collected answers into validated candidate resolutions.
pub struct ConflictResolver {
    pub context_lines: crate::git_utils::ContextLines,
    pub git_diff: Option<String>,
    pub training: String,
    pub bench: bool,
}

impl ConflictResolver {
    /// The process boundary extracts the repository diff, when one applies,
    /// and hands it in; the resolver frames it for the protocol message.
    pub fn new(
        context_lines: crate::git_utils::ContextLines,
        git_diff: Option<String>,
        bench: bool,
    ) -> (r: ConflictResolver)
        ensures
            r.context_lines == context_lines,
            r.bench == bench,
            r.training@ == spec_training(),
            match git_diff {
                Some(g) => r.git_diff matches Some(fg) && fg@ == spec_framed_diff(g@),
                None => r.git_diff is None,
            },
    {
        ConflictResolver {
            context_lines,
            git_diff: Self::frame_git_diff(git_diff),
            training: Self::create_training(),
            bench,
        }
    }

    /// Wrap a repository diff in the protocol's diff delimiters.
    pub fn frame_git_diff(git_diff: Option<String>) -> (r: Option<String>)
        ensures
            match git_diff {
                Some(g) => r matches Some(fg) && fg@ == spec_framed_diff(g@),
                None => r is None,
            },
    {
        match git_diff {
            Some(g) => {
                let mut s: String = String::from_str(
                    "The PATCH originates from the DIFF between <|diff|><|/diff|>.\n\n<|diff|>\n",
                );
                s.append(g.as_str());
                s.append("<|/diff|>");
                Some(s)
            },
            None => None,
        }
    }

    /// The fixed one-shot training example.
    pub fn create_training() -> (r: String)
        ensures
            r@ == spec_training(),
    {
        "Learn from the following training example:\n\n<|patch|>\n@@ -1,7 +1,7 @@\n \n const struct feature default_feat;\n \n-static inline const struct feature *get_extra_something(struct object *obj)\n+static inline const struct feature *get_special_something(struct device *dev)\n {\n \treturn &default_feat;\n }\n<|/patch|>\n\n<|code|>\n\nstruct feat feat;\n\nstatic inline struct feat *get_extra_something(double option, struct device *obj, int param)\n {\t\n\treturn &feat;\n}\n<|/code|>\n\n<|patched_code|>\n\nstruct feat feat;\n\nstatic inline struct feat *get_special_something(double option, struct device *dev, int param)\n {\t\n\treturn &feat;\n}\n<|/patched_code|>".to_owned()
    }

    /// The instruction text for one conflict, naming how many context lines
    /// the answer must echo back unchanged.
    pub fn create_prompt(&self, conflict: &Conflict) -> (r: String)
        ensures
            r@ == spec_prompt(
                conflict.nr_head_context_lines as nat,
                conflict.nr_tail_context_lines as nat,
            ),
    {
        let mut s: String = String::from_str(
            "Apply the PATCH between <|patch|><|/patch|> to the CODE between <|code|><|/code|>.\n\nFINALLY write the final PATCHED CODE between <|patched_code|><|/patched_code|> instead of markdown fences.\n\nRewrite the ",
        );
        let h = usize_to_string(conflict.nr_head_context_lines);
        s.append(h.as_str());
        s.append(" line");
        if conflict.nr_head_context_lines != 1 {
            s.append("s");
        }
        s.append(" after <|code|> and the ");
        let t = usize_to_string(conflict.nr_tail_context_lines);
        s.append(t.as_str());
        s.append(" line");
        if conflict.nr_tail_context_lines != 1 {
            s.append("s");
        }
        s.append(" before <|/code|> exactly the same, including all empty lines.");
        proof {
            assert(s@ =~= spec_prompt(
                conflict.nr_head_context_lines as nat,
                conflict.nr_tail_context_lines as nat,
            ));
        }
        s
    }

    /// The delimited message holding the patch and the code.
    pub fn create_message(&self, patch: &String, code: &String) -> (r: String)
        ensures
            r@ == spec_message(patch@, code@),
    {
        let mut s: String = String::from_str("<|patch|>\n");
        s.append(patch.as_str());
        s.append("<|/patch|>\n\n<|code|>\n");
        s.append(code.as_str());
        s.append("<|/code|>");
        proof {
            assert(s@ =~= spec_message(patch@, code@));
        }
        s
    }

    /// Relies on imara_diff: Diff::compute with the histogram algorithm and
    /// the line-tokenized unified-diff printer render a diff that is a
    /// function of the two inputs and the context width alone; for equal
    /// inputs there are no hunks, so the rendering is empty.
    #[verifier::external_body]
    pub fn create_diff(base: &str, remote: &str, patch_context_lines: u32) -> (r: String)
        ensures
            r@ == histogram_diff_of(base@, remote@, patch_context_lines as nat),
            base@ == remote@ ==> r@.len() == 0,
    {
        let input = InternedInput::new(base, remote);
        let mut diff = Diff::compute(Algorithm::Histogram, &input);
        diff.postprocess_lines(&input);
        let mut config = UnifiedDiffConfig::default();
        config.context_len(patch_context_lines);
        diff.unified_diff(&BasicLineDiffPrinter(&input.interner), config, &input).to_string()
    }

    /// The PATCH shown to a provider: the unified diff between the base and
    /// remote bodies, each wrapped in the conflict's own context.
    pub fn create_patch(&self, conflict: &Conflict) -> (r: String)
        ensures
            r@ == histogram_diff_of(
                conflict.head_context@ + conflict.base@ + conflict.tail_context@,
                conflict.head_context@ + conflict.remote@ + conflict.tail_context@,
                self.context_lines.patch_context_lines as nat,
            ),
    {
        let mut base = conflict.head_context.clone();
        base.append(conflict.base.as_str());
        base.append(conflict.tail_context.as_str());
        let mut remote = conflict.head_context.clone();
        remote.append(conflict.remote.as_str());
        remote.append(conflict.tail_context.as_str());
        Self::create_diff(base.as_str(), remote.as_str(), self.context_lines.patch_context_lines)
    }

    /// The CODE shown to a provider: the local body wrapped in the
    /// conflict's context.
    pub fn create_code(&self, conflict: &Conflict) -> (r: String)
        ensures
            r@ == conflict.head_context@ + conflict.local@ + conflict.tail_context@,
    {
        let mut s = conflict.head_context.clone();
        s.append(conflict.local.as_str());
        s.append(conflict.tail_context.as_str());
        s
    }

    /// The framed repository diff, but only when it mentions the
    /// conflict's file path.
    pub fn create_git_diff(&self, conflict: &Conflict) -> (r: Option<String>)
        ensures
            match self.git_diff {
                Some(g) => (r matches Some(out) ==> out@ == g@ && contains_sub(
                    g@,
                    conflict.file_path@,
                )) && (r is None ==> !contains_sub(g@, conflict.file_path@)),
                None => r is None,
            },
    {
        match &self.git_diff {
            Some(g) => {
                match crate::strutil::str_find(g.as_str(), conflict.file_path.as_str(), 0) {
                    Some(i) => {
                        proof {
                            assert(matches_at(g@, conflict.file_path@, i as int));
                        }
                        Some(g.clone())
                    },
                    None => {
                        proof {
                            assert forall|i: int| !matches_at(g@, conflict.file_path@, i) by {
                                if matches_at(g@, conflict.file_path@, i) {
                                    assert(i >= 0);
                                }
                            }
                        }
                        None
                    },
                }
            },
            None => None,
        }
    }

    /// The variant label configured for this endpoint and variant index,
    /// when there is one.
    pub fn get_variant_name(
        &self,
        endpoints: &Vec<EndpointConfig>,
        endpoint: usize,
        variant: usize,
    ) -> (r: Option<String>)
        requires
            endpoint < endpoints@.len(),
            variant_idx_ok(endpoints@[endpoint as int], variant as int),
        ensures
            ({
                let sp = spec_variant_name(endpoints@[endpoint as int], variant as int);
                match r {
                    Some(s) => sp == Some(s@),
                    None => sp is None,
                }
            }),
    {
        match &endpoints[endpoint].config {
            EndpointTypeConfig::OpenAI { variants, .. } => match variants {
                Some(vs) => {
                    if variant < vs.len() {
                        match &vs[variant].name {
                            Some(n) => Some(n.clone()),
                            None => None,
                        }
                    } else {
                        None
                    }
                },
                None => None,
            },
            EndpointTypeConfig::Anthropic { variants } => match variants {
                Some(vs) => {
                    if variant < vs.len() {
                        match &vs[variant].name {
                            Some(n) => Some(n.clone()),
                            None => None,
                        }
                    } else {
                        None
                    }
                },
                None => None,
            },
            EndpointTypeConfig::Patchpal => None,
        }
    }

    /// The full producer label for one candidate.
    pub fn get_model_name_multi(
        &self,
        endpoints: &Vec<EndpointConfig>,
        endpoint: usize,
        variant: usize,
        beam: usize,
        multi: usize,
    ) -> (r: String)
        requires
            endpoint < endpoints@.len(),
            variant_idx_ok(endpoints@[endpoint as int], variant as int),
        ensures
            r@ == spec_model_name_multi(
                endpoints@,
                endpoint as int,
                variant as int,
                beam as int,
                multi as int,
            ),
    {
        let mut name = endpoints[endpoint].name.clone();
        let mut open = false;
        match self.get_variant_name(endpoints, endpoint, variant) {
            Some(vn) => {
                open = true;
                name.append(" (");
                name.append(vn.as_str());
            },
            None => {},
        }
        if beam > 0 {
            if !open {
                open = true;
                name.append(" (");
            }
            name.append("#");
            let d = usize_to_string(beam);
            name.append(d.as_str());
        }
        if multi > 0 {
            if !open {
                open = true;
                name.append(" (");
            }
            name.append("$");
            let d = usize_to_string(multi);
            name.append(d.as_str());
        }
        if open {
            name.append(")");
        }
        proof {
            assert(name@ =~= spec_model_name_multi(
                endpoints@,
                endpoint as int,
                variant as int,
                beam as int,
                multi as int,
            ));
        }
        name
    }

    /// The producer label without beam or answer number.
    pub fn get_model_name(
        &self,
        endpoints: &Vec<EndpointConfig>,
        endpoint: usize,
        variant: usize,
    ) -> (r: String)
        requires
            endpoint < endpoints@.len(),
            variant_idx_ok(endpoints@[endpoint as int], variant as int),
        ensures
            r@ == spec_model_name_multi(endpoints@, endpoint as int, variant as int, 0, 0),
    {
        self.get_model_name_multi(endpoints, endpoint, variant, 0, 0)
    }

    /// Cut every delimiter-wrapped answer out of a raw response. An opening
    /// delimiter without a closing one ends the scan; it is an error only
    /// when no complete answer was found before it.
    pub fn parse_response(&self, response: &String) -> (r: Result<Vec<String>, ResponseError>)
        ensures
            ({
                let sb = spec_scan_blocks(response@, 0);
                match r {
                    Ok(v) => sb.0.len() > 0 && views(v@) == sb.0,
                    Err(e) => sb.0.len() == 0 && (e == ResponseError::MissingEndDelimiter <==> sb.1)
                        && (e == ResponseError::NoCodeBlocks <==> !sb.1),
                }
            }),
    {
        let start_marker = "<|patched_code|>\n";
        let end_marker = "<|/patched_code|>";
        let s_ref = response.as_str();
        let n = s_ref.unicode_len();
        let sm_len = start_marker.unicode_len();
        let em_len = end_marker.unicode_len();
        proof {
            reveal_strlit("<|patched_code|>\n");
            reveal_strlit("<|/patched_code|>");
        }
        let mut results: Vec<String> = Vec::new();
        let mut cur: usize = 0;
        proof {
            assert(views(results@) =~= Seq::<Seq<char>>::empty());
            assert(Seq::<Seq<char>>::empty() + spec_scan_blocks(response@, 0).0 =~= spec_scan_blocks(
                response@,
                0,
            ).0);
        }
        loop
            invariant
                cur <= n,
                n == response@.len(),
                s_ref@ == response@,
                sm_len == start_marker@.len(),
                em_len == end_marker@.len(),
                start_marker@ == "<|patched_code|>\n"@,
                end_marker@ == "<|/patched_code|>"@,
                sm_len > 0,
                em_len > 0,
                spec_scan_blocks(response@, 0).0 == views(results@) + spec_scan_blocks(
                    response@,
                    cur as int,
                ).0,
                spec_scan_blocks(response@, 0).1 == spec_scan_blocks(response@, cur as int).1,
            decreases n - cur,
        {
            let ghost scan_cur = spec_scan_blocks(response@, cur as int);
            match str_find_idx(s_ref, start_marker, cur) {
                None => {
                    proof {
                        assert(scan_cur.0 =~= Seq::<Seq<char>>::empty());
                        assert(views(results@) + Seq::<Seq<char>>::empty() =~= views(results@));
                    }
                    if results.len() == 0 {
                        return Err(ResponseError::NoCodeBlocks);
                    } else {
                        return Ok(results);
                    }
                },
                Some(s) => {
                    proof {
                        lemma_first_match_idx(response@, start_marker@, cur as int);
                    }
                    let cstart = s + sm_len;
                    match str_find_idx(s_ref, end_marker, cstart) {
                        None => {
                            proof {
                                assert(scan_cur.0 =~= Seq::<Seq<char>>::empty());
                                assert(views(results@) + Seq::<Seq<char>>::empty() =~= views(
                                    results@,
                                ));
                            }
                            if results.len() == 0 {
                                return Err(ResponseError::MissingEndDelimiter);
                            } else {
                                return Ok(results);
                            }
                        },
                        Some(e) => {
                            proof {
                                lemma_first_match_idx(response@, end_marker@, cstart as int);
                            }
                            let ghost pre = views(results@);
                            let content = s_ref.substring_char(cstart, e).to_owned();
                            results.push(content);
                            proof {
                                assert(views(results@) =~= pre + seq![
                                    response@.subrange(cstart as int, e as int),
                                ]);
                                assert((pre + seq![response@.subrange(cstart as int, e as int)])
                                    + spec_scan_blocks(response@, e + em_len).0 =~= pre + (seq![
                                    response@.subrange(cstart as int, e as int),
                                ] + spec_scan_blocks(response@, e + em_len).0));
                            }
                            cur = e + em_len;
                        },
                    }
                },
            }
        }
    }

    fn proc_multis(
        &self,
        resolved: &mut Vec<ResolvedConflict>,
        errors: &mut ResolverErrors,
        seen: &mut Vec<(usize, String)>,
        strs: &Vec<String>,
        conflict: &Conflict,
        endpoints: &Vec<EndpointConfig>,
        endpoint: usize,
        variant: usize,
        beam: usize,
        dur: u64,
        toks: Option<u64>,
        lp: Option<u64>,
        m: usize,
    )
        requires
            endpoint < endpoints@.len(),
            variant_idx_ok(endpoints@[endpoint as int], variant as int),
        ensures
            ({
                let st0 = ProcState {
                    resolved: resolved_views(old(resolved)@),
                    errors: err_views(old(errors).errors@),
                    seen: seen_set(old(seen)@),
                };
                let stf = spec_proc_multis(
                    st0,
                    views(strs@),
                    conflict@,
                    endpoints@,
                    endpoint as int,
                    variant as int,
                    beam as int,
                    dur,
                    toks,
                    lp,
                    m as int,
                );
                resolved_views(final(resolved)@) == stf.resolved && err_views(
                    final(errors).errors@,
                ) == stf.errors && seen_set(final(seen)@) == stf.seen
            }),
        decreases strs@.len() - m,
    {
        if m >= strs.len() {
            return ;
        }
        let ghost st0 = ProcState {
            resolved: resolved_views(resolved@),
            errors: err_views(errors.errors@),
            seen: seen_set(seen@),
        };
        let label = self.get_model_name_multi(endpoints, endpoint, variant, beam, m);
        match validate_candidate(
            strs[m].as_str(),
            conflict.head_context.as_str(),
            conflict.tail_context.as_str(),
        ) {
            Err(_) => {
                bump_error(errors, label);
            },
            Ok(stripped) => {
                if seen_contains(seen, endpoint, stripped.as_str()) {
                } else {
                    let ghost seen0 = seen@;
                    seen.push((endpoint, stripped.clone()));
                    proof {
                        assert(seen@.drop_last() =~= seen0);
                        assert(seen_set(seen@) == seen_set(seen0).insert(
                            (endpoint as int, stripped@),
                        ));
                    }
                    let ghost res0 = resolved_views(resolved@);
                    let rc = ResolvedConflict {
                        conflict: conflict.clone(),
                        resolved_version: stripped,
                        model: label,
                        duration_ms: dur,
                        total_tokens: toks,
                        logprob_bits: lp,
                    };
                    resolved.push(rc);
                    proof {
                        assert(resolved_views(resolved@) =~= res0.push(
                            ResolvedModel {
                                conflict: conflict@,
                                resolved_version: spec_validate(
                                    views(strs@)[m as int],
                                    conflict@.head_context,
                                    conflict@.tail_context,
                                )->Ok_0,
                                model: spec_model_name_multi(
                                    endpoints@,
                                    endpoint as int,
                                    variant as int,
                                    beam as int,
                                    m as int,
                                ),
                                duration_ms: dur,
                                total_tokens: toks,
                                logprob_bits: lp,
                            },
                        ));
                    }
                }
            },
        }
        proof {
            let st1 = ProcState {
                resolved: resolved_views(resolved@),
                errors: err_views(errors.errors@),
                seen: seen_set(seen@),
            };
            let st2 = ({
                let label = spec_model_name_multi(
                    endpoints@,
                    endpoint as int,
                    variant as int,
                    beam as int,
                    m as int,
                );
                match spec_validate(
                    views(strs@)[m as int],
                    conflict@.head_context,
                    conflict@.tail_context,
                ) {
                    Err(_) => ProcState {
                        resolved: st0.resolved,
                        errors: spec_bump(st0.errors, label),
                        seen: st0.seen,
                    },
                    Ok(stripped) => {
                        if st0.seen.contains((endpoint as int, stripped)) {
                            st0
                        } else {
                            ProcState {
                                resolved: st0.resolved.push(
                                    ResolvedModel {
                                        conflict: conflict@,
                                        resolved_version: stripped,
                                        model: label,
                                        duration_ms: dur,
                                        total_tokens: toks,
                                        logprob_bits: lp,
                                    },
                                ),
                                errors: st0.errors,
                                seen: st0.seen.insert((endpoint as int, stripped)),
                            }
                        }
                    },
                }
            });
            assert(st1 =~= st2);
        }
        self.proc_multis(
            resolved,
            errors,
            seen,
            strs,
            conflict,
            endpoints,
            endpoint,
            variant,
            beam,
            dur,
            toks,
            lp,
            m + 1,
        );
    }

    fn proc_beams(
        &self,
        resolved: &mut Vec<ResolvedConflict>,
        errors: &mut ResolverErrors,
        seen: &mut Vec<(usize, String)>,
        var: &Vec<Result<ApiResponseEntry, ApiError>>,
        conflict: &Conflict,
        endpoints: &Vec<EndpointConfig>,
        endpoint: usize,
        variant: usize,
        beam: usize,
    )
        requires
            endpoint < endpoints@.len(),
            variant_idx_ok(endpoints@[endpoint as int], variant as int),
        ensures
            ({
                let st0 = ProcState {
                    resolved: resolved_views(old(resolved)@),
                    errors: err_views(old(errors).errors@),
                    seen: seen_set(old(seen)@),
                };
                let stf = spec_proc_beams(
                    st0,
                    var@,
                    conflict@,
                    endpoints@,
                    endpoint as int,
                    variant as int,
                    beam as int,
                );
                resolved_views(final(resolved)@) == stf.resolved && err_views(
                    final(errors).errors@,
                ) == stf.errors && seen_set(final(seen)@) == stf.seen
            }),
        decreases var@.len() - beam,
    {
        if beam >= var.len() {
            return ;
        }
        match &var[beam] {
            Err(_) => {
                let label = self.get_model_name(endpoints, endpoint, variant);
                bump_error(errors, label);
            },
            Ok(entry) => {
                match self.parse_response(&entry.response) {
                    Err(_) => {
                        let label = self.get_model_name(endpoints, endpoint, variant);
                        bump_error(errors, label);
                    },
                    Ok(strs) => {
                        self.proc_multis(
                            resolved,
                            errors,
                            seen,
                            &strs,
                            conflict,
                            endpoints,
                            endpoint,
                            variant,
                            beam,
                            entry.duration_ms,
                            entry.total_tokens,
                            entry.logprob_bits,
                            0,
                        );
                    },
                }
            },
        }
        self.proc_beams(
            resolved,
            errors,
            seen,
            var,
            conflict,
            endpoints,
            endpoint,
            variant,
            beam + 1,
        );
    }

    fn proc_variants(
        &self,
        resolved: &mut Vec<ResolvedConflict>,
        errors: &mut ResolverErrors,
        seen: &mut Vec<(usize, String)>,
        resp: &Vec<Vec<Result<ApiResponseEntry, ApiError>>>,
        conflict: &Conflict,
        endpoints: &Vec<EndpointConfig>,
        endpoint: usize,
        variant: usize,
    )
        requires
            endpoint < endpoints@.len(),
            forall|v: int|
                0 <= v < resp@.len() ==> #[trigger] variant_idx_ok(
                    endpoints@[endpoint as int],
                    v,
                ),
        ensures
            ({
                let st0 = ProcState {
                    resolved: resolved_views(old(resolved)@),
                    errors: err_views(old(errors).errors@),
                    seen: seen_set(old(seen)@),
                };
                let stf = spec_proc_variants(
                    st0,
                    resp@,
                    conflict@,
                    endpoints@,
                    endpoint as int,
                    variant as int,
                );
                resolved_views(final(resolved)@) == stf.resolved && err_views(
                    final(errors).errors@,
                ) == stf.errors && seen_set(final(seen)@) == stf.seen
            }),
        decreases resp@.len() - variant,
    {
        if variant >= resp.len() {
            return ;
        }
        self.proc_beams(resolved, errors, seen, &resp[variant], conflict, endpoints, endpoint,
            variant, 0);
        self.proc_variants(resolved, errors, seen, resp, conflict, endpoints, endpoint,
            variant + 1);
    }

    fn proc_results_from(
        &self,
        resolved: &mut Vec<ResolvedConflict>,
        errors: &mut ResolverErrors,
        seen: &mut Vec<(usize, String)>,
        results: &Vec<(Result<ApiResponse, ApiError>, usize)>,
        conflict: &Conflict,
        endpoints: &Vec<EndpointConfig>,
        i: usize,
    )
        requires
            results_wf(results@, endpoints@),
        ensures
            ({
                let st0 = ProcState {
                    resolved: resolved_views(old(resolved)@),
                    errors: err_views(old(errors).errors@),
                    seen: seen_set(old(seen)@),
                };
                let stf = spec_proc_results(st0, results@, conflict@, endpoints@, i as int);
                resolved_views(final(resolved)@) == stf.resolved && err_views(
                    final(errors).errors@,
                ) == stf.errors && seen_set(final(seen)@) == stf.seen
            }),
        decreases results@.len() - i,
    {
        if i >= results.len() {
            return ;
        }
        let pair = &results[i];
        match &pair.0 {
            Err(_) => {},
            Ok(rr) => {
                self.proc_variants(resolved, errors, seen, rr, conflict, endpoints, pair.1, 0);
            },
        }
        self.proc_results_from(resolved, errors, seen, results, conflict, endpoints, i + 1);
    }

    /// Validate, label, deduplicate and tally every candidate of the
    /// collected results, appending the surviving candidates to
    /// `resolved_conflicts` and the per-label failure counts to
    /// `resolver_errors`.
    pub fn process_results(
        &self,
        resolved_conflicts: &mut Vec<ResolvedConflict>,
        resolver_errors: &mut ResolverErrors,
        results: &Vec<(Result<ApiResponse, ApiError>, usize)>,
        conflict: &Conflict,
        endpoints: &Vec<EndpointConfig>,
    )
        requires
            results_wf(results@, endpoints@),
        ensures
            ({
                let st0 = ProcState {
                    resolved: resolved_views(old(resolved_conflicts)@),
                    errors: err_views(old(resolver_errors).errors@),
                    seen: Set::empty(),
                };
                let stf = spec_proc_results(st0, results@, conflict@, endpoints@, 0);
                resolved_views(final(resolved_conflicts)@) == stf.resolved && err_views(
                    final(resolver_errors).errors@,
                ) == stf.errors
            }),
    {
        let mut seen: Vec<(usize, String)> = Vec::new();
        proof {
            assert(seen_set(seen@) =~= Set::<(int, Seq<char>)>::empty());
        }
        self.proc_results_from(
            resolved_conflicts,
            resolver_errors,
            &mut seen,
            results,
            conflict,
            endpoints,
            0,
        );
    }
}

} // verus!
