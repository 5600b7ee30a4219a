//! End-to-end checks of conflict parsing, candidate validation,
//! deduplication and write-back.

use synthmerge::conflict_resolver::{
    validate_candidate, ConflictResolver, ResolvedConflict, ResolverErrors,
};
use synthmerge::git_utils::{ContextLines, GitUtils, ParseError};
use synthmerge::git_utils::UnmergedFile;
use synthmerge::api_client::ApiResponseEntry;
use synthmerge::config::{EndpointConfig, EndpointTypeConfig};
use synthmerge::conflict_resolver::ValidationError;
use synthmerge::git_utils::WriteBackError;

fn ctx() -> ContextLines {
    ContextLines { code_context_lines: 3, diff_context_lines: 3, patch_context_lines: 3 }
}

fn gu() -> GitUtils {
    GitUtils::new(ctx(), false, None, None)
}

const ONE_CONFLICT: &str = "<<<<<<< HEAD\na\n|||||||  base\nb\n=======\nc\n>>>>>>> branch\n";

#[test]
fn parse_single_conflict() {
    let conflicts = gu().parse_conflicts_in_content(ONE_CONFLICT, "file.txt", 7).unwrap();
    assert_eq!(conflicts.len(), 1);
    let c = &conflicts[0];
    assert_eq!(c.file_path, "file.txt");
    assert_eq!(c.local, "a\n");
    assert_eq!(c.base, "b\n");
    assert_eq!(c.remote, "c\n");
    assert_eq!(c.head_context, "");
    assert_eq!(c.tail_context, "");
    assert_eq!(c.start_line, 1);
    assert_eq!(c.remote_start, 4);
    assert_eq!(c.nr_head_context_lines, 0);
    assert_eq!(c.nr_tail_context_lines, 0);
    assert_eq!(c.marker_size, 7);
}

#[test]
fn parse_conflict_with_context() {
    let content = "one\ntwo\nthree\nfour\n<<<<<<< HEAD\nl\n||||||| base\nb\n=======\nr\n>>>>>>> other\nfive\nsix\n";
    let conflicts = gu().parse_conflicts_in_content(content, "f", 7).unwrap();
    assert_eq!(conflicts.len(), 1);
    let c = &conflicts[0];
    assert_eq!(c.start_line, 5);
    assert_eq!(c.head_context, "two\nthree\nfour\n");
    assert_eq!(c.tail_context, "five\nsix\n");
    assert_eq!(c.nr_head_context_lines, 3);
    assert_eq!(c.nr_tail_context_lines, 2);
}

#[test]
fn parse_marker_width_five() {
    let content = "<<<<< HEAD\nl\n||||| base\nb\n=====\nr\n>>>>> other\n";
    let conflicts = gu().parse_conflicts_in_content(content, "f", 5).unwrap();
    assert_eq!(conflicts.len(), 1);
    assert_eq!(conflicts[0].local, "l\n");
    assert_eq!(conflicts[0].remote, "r\n");
    assert_eq!(conflicts[0].marker_size, 5);
}

#[test]
fn parse_two_conflicts() {
    let two = format!("{}between\n{}", ONE_CONFLICT, ONE_CONFLICT);
    let conflicts = gu().parse_conflicts_in_content(&two, "f", 7).unwrap();
    assert_eq!(conflicts.len(), 2);
    assert_eq!(conflicts[0].start_line, 1);
    assert_eq!(conflicts[1].start_line, 9);
}

#[test]
fn parse_rejects_nested_marker_in_context() {
    // A stray separator of default width right before the conflict, inside
    // the context window, survives the open/base/end stripping pass and
    // must fail the parse.
    let content = "ok\n=======\n<<<<<<< HEAD\nl\n||||||| base\nb\n=======\nr\n>>>>>>> other\n";
    let r = gu().parse_conflicts_in_content(content, "f", 7);
    assert_eq!(r.unwrap_err(), ParseError::NestedMarkers);
}

#[test]
fn parse_skips_file_without_conflicts() {
    let conflicts = gu().parse_conflicts_in_content("plain\ntext\n", "f", 7).unwrap();
    assert!(conflicts.is_empty());
}

#[test]
fn find_conflicts_across_files() {
    let files = vec![
        UnmergedFile { path: "a".to_string(), content: "x\n".to_string(), marker_size: 7 },
        UnmergedFile { path: "b".to_string(), content: ONE_CONFLICT.to_string(), marker_size: 7 },
    ];
    let conflicts = gu().find_conflicts(&files).unwrap();
    assert_eq!(conflicts.len(), 1);
    assert_eq!(conflicts[0].file_path, "b");
}

#[test]
fn marker_size_from_attribute_output() {
    let g = gu();
    let out = "dir/file.c: conflict-marker-size: 12\n";
    assert_eq!(g.get_marker_size_for_file(out, "dir/file.c"), 12);
    let unset = "dir/file.c: conflict-marker-size: unspecified\n";
    assert_eq!(g.get_marker_size_for_file(unset, "dir/file.c"), 7);
    assert_eq!(g.get_marker_size_for_file("", "dir/file.c"), 7);
}

#[test]
fn check_diff3_value() {
    let g = gu();
    assert!(g.check_diff3("diff3\n"));
    assert!(g.check_diff3("  diff3  "));
    assert!(!g.check_diff3("merge\n"));
}

#[test]
fn extract_diff_drops_index_lines() {
    let g = gu();
    let show = "diff --git a/x b/x\nindex 1234..5678 100644\n--- a/x\n+++ b/x\n@@ -1 +1 @@\n-a\n+b\n";
    let filtered = g.extract_diff(show);
    assert_eq!(filtered, "diff --git a/x b/x\n--- a/x\n+++ b/x\n@@ -1 +1 @@\n-a\n+b\n");
}

// Scenario: one conflict, two endpoints; one answers correctly, one without
// delimiters. One candidate survives and one error is tallied.
#[test]
fn scenario_one_conflict_two_endpoints() {
    let conflicts = gu().parse_conflicts_in_content(ONE_CONFLICT, "file.txt", 7).unwrap();
    let c = &conflicts[0];
    let mk_ep = |name: &str| EndpointConfig {
        name: name.to_string(),
        url: "http://localhost".to_string(),
        timeout: 600,
        retries: 3,
        delay: 10,
        max_delay: 30,
        wait: 0,
        root_certificate_pem: None,
        api_key_file: None,
        context: None,
        json: None,
        config: EndpointTypeConfig::OpenAI { variants: None, no_chat: false },
    };
    let endpoints = vec![mk_ep("Good"), mk_ep("Bad")];
    let good = ApiResponseEntry {
        response: "<|patched_code|>\nac\n<|/patched_code|>".to_string(),
        logprob_bits: None,
        total_tokens: Some(5),
        duration_ms: 100,
    };
    let bad = ApiResponseEntry {
        response: "no delimiters at all".to_string(),
        logprob_bits: None,
        total_tokens: None,
        duration_ms: 50,
    };
    let results = vec![(Ok(vec![vec![Ok(good)]]), 0usize), (Ok(vec![vec![Ok(bad)]]), 1usize)];
    let resolver = ConflictResolver::new(ctx(), None, false);
    let mut resolved: Vec<ResolvedConflict> = Vec::new();
    let mut errors = ResolverErrors { errors: Vec::new() };
    resolver.process_results(&mut resolved, &mut errors, &results, c, &endpoints);
    assert_eq!(resolved.len(), 1);
    assert_eq!(resolved[0].resolved_version, "ac\n");
    assert_eq!(resolved[0].model, "Good");
    assert_eq!(resolved[0].total_tokens, Some(5));
    assert_eq!(resolved[0].duration_ms, 100);
    assert_eq!(errors.errors.len(), 1);
    assert_eq!(errors.errors[0].0, "Bad");
    assert_eq!(errors.errors[0].1, 1);
}

// Scenario: a candidate whose content is not newline-terminated after
// stripping context is discarded and never reaches write-back.
#[test]
fn scenario_unterminated_candidate_discarded() {
    let conflicts = gu().parse_conflicts_in_content(ONE_CONFLICT, "file.txt", 7).unwrap();
    let c = &conflicts[0];
    let endpoints = vec![EndpointConfig {
        name: "E".to_string(),
        url: "u".to_string(),
        timeout: 600,
        retries: 3,
        delay: 10,
        max_delay: 30,
        wait: 0,
        root_certificate_pem: None,
        api_key_file: None,
        context: None,
        json: None,
        config: EndpointTypeConfig::OpenAI { variants: None, no_chat: false },
    }];
    // tail context is empty, so the candidate must end with a newline;
    // this one does not.
    let entry = ApiResponseEntry {
        response: "<|patched_code|>\nac<|/patched_code|>".to_string(),
        logprob_bits: None,
        total_tokens: None,
        duration_ms: 10,
    };
    let results = vec![(Ok(vec![vec![Ok(entry)]]), 0usize)];
    let resolver = ConflictResolver::new(ctx(), None, false);
    let mut resolved: Vec<ResolvedConflict> = Vec::new();
    let mut errors = ResolverErrors { errors: Vec::new() };
    resolver.process_results(&mut resolved, &mut errors, &results, c, &endpoints);
    assert!(resolved.is_empty());
    assert_eq!(errors.errors.len(), 1);
    assert_eq!(errors.errors[0].0, "E");
}

#[test]
fn validate_candidate_round_trip() {
    // head + resolved + tail strips back to exactly resolved.
    let head = "h1\nh2\n";
    let tail = "t1\n";
    let resolved = "body\nmore\n";
    let cand = format!("{}{}{}", head, resolved, tail);
    assert_eq!(validate_candidate(&cand, head, tail).unwrap(), resolved);
}

#[test]
fn validate_candidate_errors() {
    assert_eq!(
        validate_candidate("wrong\nx\nt\n", "h\n", "t\n").unwrap_err(),
        ValidationError::HeadContextMismatch
    );
    assert_eq!(
        validate_candidate("h\nx\nwrong\n", "h\n", "t\n").unwrap_err(),
        ValidationError::TailContextMismatch
    );
    // candidate not newline-terminated with empty tail context
    assert_eq!(
        validate_candidate("h\nabc", "h\n", "").unwrap_err(),
        ValidationError::TailContextMismatch
    );
}

#[test]
fn duplicate_candidates_within_one_endpoint_are_dropped_silently() {
    let conflicts = gu().parse_conflicts_in_content(ONE_CONFLICT, "file.txt", 7).unwrap();
    let c = &conflicts[0];
    let endpoints = vec![EndpointConfig {
        name: "E".to_string(),
        url: "u".to_string(),
        timeout: 600,
        retries: 3,
        delay: 10,
        max_delay: 30,
        wait: 0,
        root_certificate_pem: None,
        api_key_file: None,
        context: None,
        json: None,
        config: EndpointTypeConfig::OpenAI { variants: None, no_chat: false },
    }];
    let entry = ApiResponseEntry {
        response: "<|patched_code|>\nsame\n<|/patched_code|><|patched_code|>\nsame\n<|/patched_code|>"
            .to_string(),
        logprob_bits: None,
        total_tokens: None,
        duration_ms: 10,
    };
    let results = vec![(Ok(vec![vec![Ok(entry)]]), 0usize)];
    let resolver = ConflictResolver::new(ctx(), None, false);
    let mut resolved: Vec<ResolvedConflict> = Vec::new();
    let mut errors = ResolverErrors { errors: Vec::new() };
    resolver.process_results(&mut resolved, &mut errors, &results, c, &endpoints);
    assert_eq!(resolved.len(), 1);
    assert!(errors.errors.is_empty());
}

fn resolved_with(model: &str, text: &str, dur: u64, toks: Option<u64>) -> ResolvedConflict {
    let conflicts = gu().parse_conflicts_in_content(ONE_CONFLICT, "file.txt", 7).unwrap();
    ResolvedConflict {
        conflict: conflicts[0].clone(),
        resolved_version: text.to_string(),
        model: model.to_string(),
        duration_ms: dur,
        total_tokens: toks,
        logprob_bits: None,
    }
}

// Scenario: two endpoints with byte-identical answers are merged into one
// entry attributed to both.
#[test]
fn scenario_merged_attribution_written_back() {
    let r1 = resolved_with("X (fast)", "r\n", 5, Some(2));
    let r2 = resolved_with("X (slow)", "r\n", 9, Some(3));
    let merged = GitUtils::deduplicate_conflicts(&vec![r1, r2]);
    assert_eq!(merged.len(), 1);
    assert_eq!(merged[0].model, "X (fast|slow)");
    assert_eq!(merged[0].duration_ms, 9);
    assert_eq!(merged[0].total_tokens, Some(5));
    let new_content = GitUtils::apply_resolved_to_content(ONE_CONFLICT, &merged[0]).unwrap();
    assert_eq!(
        new_content,
        "<<<<<<< HEAD\na\n|||||||  base\nb\n||||||| synthmerge: X (fast|slow)\nr\n=======\nc\n>>>>>>> branch\n"
    );
}

#[test]
fn deduplication_is_idempotent_on_merged_entries() {
    let r1 = resolved_with("X (fast)", "r\n", 5, Some(2));
    let r2 = resolved_with("X (slow)", "r\n", 9, None);
    let r3 = resolved_with("Solo", "other\n", 4, Some(1));
    let once = GitUtils::deduplicate_conflicts(&vec![r1, r2, r3]);
    let twice = GitUtils::deduplicate_conflicts(&once);
    assert_eq!(once.len(), twice.len());
    for (a, b) in once.iter().zip(twice.iter()) {
        assert_eq!(a.model, b.model);
        assert_eq!(a.resolved_version, b.resolved_version);
        assert_eq!(a.duration_ms, b.duration_ms);
        assert_eq!(a.total_tokens, b.total_tokens);
    }
}

#[test]
fn distinct_texts_stay_separate() {
    let r1 = resolved_with("A", "x\n", 1, None);
    let r2 = resolved_with("B", "y\n", 2, None);
    let merged = GitUtils::deduplicate_conflicts(&vec![r1, r2]);
    assert_eq!(merged.len(), 2);
    assert_eq!(merged[0].model, "A");
    assert_eq!(merged[1].model, "B");
}

#[test]
fn combine_model_names_cases() {
    let models = |xs: &[&str]| xs.iter().map(|s| s.to_string()).collect::<Vec<_>>();
    assert_eq!(GitUtils::combine_model_names(&models(&["X"])), "X");
    assert_eq!(
        GitUtils::combine_model_names(&models(&["X (a)", "X (b)", "Y"])),
        "X (a|b), Y"
    );
    // a label without a parenthesized suffix makes its key stand alone
    assert_eq!(GitUtils::combine_model_names(&models(&["X (a)", "X "])), "X ");
    assert_eq!(
        GitUtils::combine_model_names(&models(&["M (1)", "N (2)"])),
        "M (1), N (2)"
    );
}

#[test]
fn write_back_rejects_moved_marker() {
    let mut r = resolved_with("X", "r\n", 1, None);
    r.conflict.remote_start = 1;  // points at a plain content line now
    assert_eq!(
        GitUtils::apply_resolved_to_content(ONE_CONFLICT, &r).unwrap_err(),
        WriteBackError::UnexpectedMarkerLine
    );
    r.conflict.remote_start = 100;
    assert_eq!(
        GitUtils::apply_resolved_to_content(ONE_CONFLICT, &r).unwrap_err(),
        WriteBackError::LineOutOfRange
    );
}

#[test]
fn second_pass_reuses_attribution_line() {
    let r1 = resolved_with("A", "r\n", 1, None);
    let once = GitUtils::apply_resolved_to_content(ONE_CONFLICT, &r1).unwrap();
    // after one pass the line at the splice position is an attribution
    // line; a second pass must still be accepted there
    let mut r2 = resolved_with("B", "s\n", 1, None);
    r2.conflict.remote_start = 4;
    let twice = GitUtils::apply_resolved_to_content(&once, &r2).unwrap();
    assert!(twice.contains("||||||| synthmerge: B\ns\n||||||| synthmerge: A\nr\n=======\n"));
}

#[test]
fn merge_message_annotation() {
    let msg = "Subject\n\nBody text\n";
    let updated = GitUtils::update_merge_message(msg).unwrap();
    assert_eq!(updated, "Subject\n\nBody text\n\nAssisted-by: synthmerge\n");
    // a second run must not duplicate the trailer
    assert!(GitUtils::update_merge_message(&updated).is_none());
}

#[test]
fn merge_message_joins_trailer_run() {
    let msg = "Subject\n\nSigned-off-by: Someone <s@example.org>\n";
    let updated = GitUtils::update_merge_message(msg).unwrap();
    assert_eq!(
        updated,
        "Subject\n\nSigned-off-by: Someone <s@example.org>\nAssisted-by: synthmerge\n"
    );
}

#[test]
fn merge_message_respects_conflicts_block() {
    let msg = "Subject\n\nBody\n\n# Conflicts:\n#\tfile\n";
    let updated = GitUtils::update_merge_message(msg).unwrap();
    assert_eq!(
        updated,
        "Subject\n\nBody\n\nAssisted-by: synthmerge\n\n# Conflicts:\n#\tfile\n"
    );
}

#[test]
fn markers_are_built_to_width() {
    assert_eq!(GitUtils::create_head_marker(7), "<<<<<<<");
    assert_eq!(GitUtils::create_base_marker(5), "|||||");
    assert_eq!(GitUtils::create_conflict_marker(3), "===");
    assert_eq!(GitUtils::create_end_marker(4), ">>>>");
    assert_eq!(GitUtils::create_marker('=', 0), "");
}

#[test]
fn remove_conflict_markers_keeps_local_side() {
    let lines: Vec<String> = [
        "before\n",
        "<<<<<<< HEAD\n",
        "local\n",
        "||||||| base\n",
        "base\n",
        "=======\n",
        "remote\n",
        ">>>>>>> other\n",
        "after\n",
    ]
    .iter()
    .map(|s| s.to_string())
    .collect();
    let out = GitUtils::remove_conflict_markers(&lines, 7).unwrap();
    let joined: Vec<&str> = out.iter().map(|s| s.as_str()).collect();
    assert_eq!(joined, vec!["before\n", "local\n", "after\n"]);
}

#[test]
fn merge_message_empty_content() {
    assert_eq!(
        GitUtils::update_merge_message("").unwrap(),
        "Assisted-by: synthmerge\n"
    );
}

#[test]
fn same_text_in_different_files_stays_separate() {
    let mut r1 = resolved_with("A", "r\n", 1, None);
    let mut r2 = resolved_with("B", "r\n", 2, None);
    r1.conflict.file_path = "one".to_string();
    r2.conflict.file_path = "two".to_string();
    let merged = GitUtils::deduplicate_conflicts(&vec![r1, r2]);
    assert_eq!(merged.len(), 2);
}

#[test]
fn beam_failures_are_tallied_under_beam_labels() {
    let conflicts = gu().parse_conflicts_in_content(ONE_CONFLICT, "file.txt", 7).unwrap();
    let c = &conflicts[0];
    let endpoints = vec![EndpointConfig {
        name: "Y".to_string(),
        url: "u".to_string(),
        timeout: 600,
        retries: 3,
        delay: 10,
        max_delay: 30,
        wait: 0,
        root_certificate_pem: None,
        api_key_file: None,
        context: None,
        json: None,
        config: EndpointTypeConfig::Patchpal,
    }];
    let good = ApiResponseEntry {
        response: "<|patched_code|>\nok\n<|/patched_code|>".to_string(),
        logprob_bits: Some(7),
        total_tokens: None,
        duration_ms: 3,
    };
    // second beam: delimiters present, but the content is not
    // newline-terminated, so validation discards it
    let bad = ApiResponseEntry {
        response: "<|patched_code|>\nbad<|/patched_code|>".to_string(),
        logprob_bits: None,
        total_tokens: None,
        duration_ms: 4,
    };
    let results = vec![(Ok(vec![vec![Ok(good), Ok(bad)]]), 0usize)];
    let resolver = ConflictResolver::new(ctx(), None, false);
    let mut resolved: Vec<ResolvedConflict> = Vec::new();
    let mut errors = ResolverErrors { errors: Vec::new() };
    resolver.process_results(&mut resolved, &mut errors, &results, c, &endpoints);
    assert_eq!(resolved.len(), 1);
    assert_eq!(resolved[0].model, "Y");
    assert_eq!(resolved[0].logprob_bits, Some(7));
    assert_eq!(errors.errors.len(), 1);
    assert_eq!(errors.errors[0].0, "Y (#1)");
}
