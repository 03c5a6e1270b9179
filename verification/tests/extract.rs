//! What notes say.

use raft::extract::{
    canonicalize, extract, extract_loops, fence_line, is_word_char, lang_for_ext, languages,
    strip_fences, strip_frontmatter, NameSet,
};

fn names(list: &[&str]) -> NameSet {
    let mut set = NameSet::new();
    for name in list {
        set = set.with(name);
    }
    set
}

// Names

#[test]
fn canonicalize_lowercases_and_trims_edge_punctuation() {
    assert_eq!(canonicalize("Jolteon"), "jolteon");
    assert_eq!(canonicalize("jolteon,"), "jolteon");
    assert_eq!(canonicalize("  (Replaybook)  "), "replaybook");
    assert_eq!(canonicalize("\"quoted\""), "quoted");
}

#[test]
fn canonical_names_stay_as_they_are() {
    for name in ["Jolteon,", "\u{c4}RGER!", "\u{39f}\u{394}\u{39f}\u{3a3}", "(\u{130}stanbul)", "..."] {
        let once = canonicalize(name);
        assert_eq!(canonicalize(&once), once);
    }
}

#[test]
fn canonicalize_keeps_interior_punctuation() {
    assert_eq!(canonicalize("node.js"), "node.js");
    assert_eq!(canonicalize("a/b"), "a/b");
}

#[test]
fn canonicalize_empty_when_all_punctuation() {
    assert_eq!(canonicalize("..."), "");
    assert_eq!(canonicalize("   "), "");
}

#[test]
fn canonicalize_lowercases_beyond_ascii() {
    assert_eq!(canonicalize("ÄPFEL!"), "äpfel");
    assert_eq!(canonicalize("[x]{y}"), "x]{y");
}

#[test]
fn edges_round_a_name_do_not_count() {
    let plain = canonicalize("Raft");
    for written in ["(Raft)", "Raft...", " 'Raft' ", "[[Raft]]", "{Raft};"] {
        assert_eq!(canonicalize(written), plain);
    }
}

#[test]
fn a_name_set_holds_each_name_once() {
    let set = names(&["raft", "zola", "raft"]);
    assert_eq!(set.len(), 2);
    assert!(set.contains("zola"));
    assert!(!set.contains("Zola"));
    assert_eq!(set.at(0), "raft");
}

// Fences

#[test]
fn strip_fences_removes_fenced_blocks_and_fence_lines() {
    let body = "before\n```\ncode line\n```\nafter\n";
    let stripped = strip_fences(body);
    assert!(stripped.contains("before"));
    assert!(stripped.contains("after"));
    assert!(!stripped.contains("code line"));
    assert!(!stripped.contains("```"));
}

#[test]
fn strip_fences_handles_language_hint_fences() {
    let body = "text\n```rust\nlet x = 1;\n```\nmore\n";
    let stripped = strip_fences(body);
    assert!(!stripped.contains("let x = 1"));
    assert!(stripped.contains("more"));
}

#[test]
fn strip_fences_unterminated_fence_swallows_rest() {
    let body = "keep\n```\ndropped\nalso dropped\n";
    let stripped = strip_fences(body);
    assert!(stripped.contains("keep"));
    assert!(!stripped.contains("dropped"));
}

#[test]
fn strip_fences_ends_every_line() {
    assert_eq!(strip_fences("a\r\nb"), "a\nb\n");
    assert_eq!(strip_fences(""), "");
    assert!(fence_line("   ```rust"));
    assert!(!fence_line("text ```"));
}

#[test]
fn fenced_text_never_counts() {
    let one = "a\n```\n- [ ] x [[X]]\n```\n- [ ] b\n";
    let two = "a\n```\nnothing\n```\n- [ ] b\n";
    assert_eq!(strip_fences(one), strip_fences(two));
    let texts = |body: &str| {
        extract_loops(body)
            .iter()
            .map(|l| (l.text.clone(), l.line))
            .collect::<Vec<_>>()
    };
    assert_eq!(texts(one), texts(two));
    assert_eq!(texts(one), vec![("b".to_string(), 4)]);
}

// Wiki links

#[test]
fn extract_pulls_wiki_links() {
    let e = extract("see [[On-call training]] and [[Replaybook]]", &names(&[]));
    assert_eq!(e.wiki_links, vec!["On-call training", "Replaybook"]);
}

#[test]
fn extract_wiki_link_strips_anchor_and_alias() {
    let e = extract("[[Note#heading]] [[Target|shown as this]]", &names(&[]));
    assert_eq!(e.wiki_links, vec!["Note", "Target"]);
}

#[test]
fn extract_ignores_wiki_links_inside_fences() {
    let e = extract("real [[Kept]]\n```\n[[Dropped]]\n```\n", &names(&[]));
    assert_eq!(e.wiki_links, vec!["Kept"]);
}

#[test]
fn blank_wiki_links_are_dropped() {
    let e = extract("[[ ]] and [[ Trimmed ]]", &names(&[]));
    assert_eq!(e.wiki_links, vec!["Trimmed"]);
}

#[test]
fn wiki_links_match_by_their_brackets() {
    let links = |body: &str| extract(body, &names(&[])).wiki_links;
    assert_eq!(links("[[a]b]] [[c|d]e]] [[]] [[|x]] [[open"), Vec::<String>::new());
    assert_eq!(links("[[a#b|c]] [[d]]]] tail [[e"), vec!["a", "d"]);
    assert_eq!(links("[[[x]]"), vec!["[x"]);
    assert_eq!(links("[[one\ntwo]]"), vec!["one\ntwo"]);
    assert_eq!(links("[[caf\u{e9}|x]][[y]]"), vec!["caf\u{e9}", "y"]);
}

// Spans

#[test]
fn code_spans_match_by_their_length() {
    let spans = |body: &str| extract(body, &names(&[])).code_spans;
    assert_eq!(spans("`a` `bc` `d\ne` `fg"), vec!["bc"]);
    let long = "x".repeat(80);
    assert_eq!(spans(&format!("`{long}`")), vec![long.clone()]);
    assert!(spans(&format!("`{long}x`")).is_empty());
    assert_eq!(spans("`ab` cd `ef`"), vec!["ab", "ef"]);
    assert_eq!(spans("`a`bc`"), vec!["bc"]);
}

#[test]
fn extract_pulls_short_code_spans() {
    let e = extract("run `cargo` in `raft`", &names(&[]));
    assert!(e.code_spans.contains(&"cargo".to_string()));
    assert!(e.code_spans.contains(&"raft".to_string()));
}

#[test]
fn extract_keeps_spaced_span_under_40_chars() {
    let e = extract("do `cargo build` now", &names(&[]));
    assert!(e.code_spans.contains(&"cargo build".to_string()));
}

#[test]
fn extract_drops_long_spaced_span() {
    let long = "a very long backticked phrase that exceeds forty chars";
    let e = extract(&format!("`{long}`"), &names(&[]));
    assert!(!e.code_spans.iter().any(|s| s == long));
}

// Project mentions

#[test]
fn extract_matches_project_name_as_whole_word() {
    let e = extract("working on replaybook today", &names(&["replaybook"]));
    assert_eq!(e.project_mentions.get("replaybook"), Some(&1));
}

#[test]
fn extract_counts_repeated_mentions() {
    let e = extract("replaybook and replaybook again", &names(&["replaybook"]));
    assert_eq!(e.project_mentions.get("replaybook"), Some(&2));
}

#[test]
fn extract_respects_word_boundaries() {
    let e = extract("a scarf and arfle", &names(&["arf"]));
    assert!(!e.project_mentions.contains_key("arf"));
}

#[test]
fn extract_short_name_only_counts_when_backticked() {
    let plain = extract("i will go home", &names(&["go"]));
    assert!(!plain.project_mentions.contains_key("go"));

    let backticked = extract("the `go` toolchain", &names(&["go"]));
    assert_eq!(backticked.project_mentions.get("go"), Some(&1));
}

#[test]
fn extract_ignores_project_mentions_in_fences() {
    let e = extract(
        "prose\n```\nreplaybook in code\n```\n",
        &names(&["replaybook"]),
    );
    assert!(!e.project_mentions.contains_key("replaybook"));
}

#[test]
fn mentions_match_in_any_case() {
    let e = extract("RAFT and Raft, not rafts", &names(&["raft"]));
    assert_eq!(e.project_mentions.get("raft"), Some(&2));
    assert!(is_word_char('_') && is_word_char('-') && !is_word_char('.'));
}

// Loops

#[test]
fn loops_unchecked_boxes_anywhere() {
    let body = "# Random\n- [ ] fix the thing\n- [x] already done\n";
    let loops = extract_loops(body);
    assert_eq!(loops.len(), 1);
    assert_eq!(loops[0].text, "fix the thing");
}

#[test]
fn loops_plain_bullets_are_never_loops() {
    let body = "# Notes\n- just a note\n## Next steps\n- ship it\n## TODO\n- also not\n";
    assert!(extract_loops(body).is_empty());
}

#[test]
fn loops_checkbox_carries_its_section() {
    let body = "## Next steps\n- [ ] ship it\n";
    let loops = extract_loops(body);
    assert_eq!(loops.len(), 1);
    assert_eq!(loops[0].section.as_deref(), Some("Next steps"));
}

#[test]
fn loops_fold_indented_continuation_lines() {
    let body = "## Next\n- [ ] do a thing\n  with more detail\n";
    let loops = extract_loops(body);
    assert_eq!(loops.len(), 1);
    assert_eq!(loops[0].text, "do a thing with more detail");
}

#[test]
fn loops_skip_fenced_content() {
    let body = "## Next\n```\n- [ ] not a real loop\n```\n- [ ] real loop\n";
    let loops = extract_loops(body);
    let texts: Vec<&str> = loops.iter().map(|l| l.text.as_str()).collect();
    assert_eq!(texts, vec!["real loop"]);
}

#[test]
fn loops_completion_is_the_checkbox_not_prose_markers() {
    let body = "## Next\n- [x] shipped it\n- [ ] real one\n";
    let loops = extract_loops(body);
    let texts: Vec<&str> = loops.iter().map(|l| l.text.as_str()).collect();
    assert_eq!(texts, vec!["real one"]);
}

#[test]
fn loops_know_their_line() {
    let loops = extract_loops("intro\n\n- [ ] one\n- [ ] two\n");
    let lines: Vec<usize> = loops.iter().map(|l| l.line).collect();
    assert_eq!(lines, vec![2, 3]);
    assert!(loops[0].section.is_none());
}

// Frontmatter

#[test]
fn strip_frontmatter_removes_closed_block() {
    let body = "---\ntitle: x\npublish: false\n---\nreal prose\n";
    assert_eq!(strip_frontmatter(body), "real prose\n");
}

#[test]
fn strip_frontmatter_leaves_unterminated_and_absent_alone() {
    assert_eq!(strip_frontmatter("no frontmatter\n"), "no frontmatter\n");
    let unterminated = "---\ntitle: x\nbody\n";
    assert_eq!(strip_frontmatter(unterminated), unterminated);
    let mid = "prose\n---\nmore\n";
    assert_eq!(strip_frontmatter(mid), mid);
}

#[test]
fn extract_ignores_frontmatter_content() {
    let body = "---\ntags: [replaybook]\npublish: false\n---\nprose only\n";
    let e = extract(body, &names(&["replaybook"]));
    assert!(e.project_mentions.is_empty());
}

#[test]
fn strip_frontmatter_takes_windows_line_ends() {
    assert_eq!(strip_frontmatter("---\r\na: b\r\n---\r\nrest"), "rest");
}

// Languages

#[test]
fn languages_own_their_extensions() {
    let table: Vec<&str> = languages().iter().map(|l| l.name).collect();
    assert_eq!(table, vec!["ruby", "python", "javascript"]);
    assert_eq!(lang_for_ext("rb").unwrap().name, "ruby");
    assert_eq!(lang_for_ext("tsx").unwrap().name, "javascript");
    assert!(lang_for_ext("md").is_none());
}

#[test]
fn loops_do_not_fold_indented_bullets() {
    let loops = extract_loops("- [ ] ship it\n  - sub item\n");
    assert_eq!(loops.len(), 1);
    assert_eq!(loops[0].text, "ship it");
    assert_eq!(loops[0].section, None);
    assert_eq!(loops[0].line, 0);
    let loops = extract_loops("- [ ] a\n  more\n  * sub\n  behind\n- [ ] b\n  -not a bullet\n");
    let texts: Vec<&str> = loops.iter().map(|l| l.text.as_str()).collect();
    assert_eq!(texts, vec!["a more", "b -not a bullet"]);
}

#[test]
fn canonical_names_are_stable() {
    for name in ["  (Replaybook)! ", "RAFT", "a/b,", "", "..."] {
        let once = canonicalize(name);
        assert_eq!(canonicalize(&once), once);
        assert_eq!(canonicalize(&name.to_ascii_uppercase()), once);
    }
}

#[test]
fn stripping_leaves_no_fence_and_goes_block_by_block() {
    let a = "one\n```\ncode\n```\n";
    let b = "two\n  ```rust\ncode\n";
    let both = format!("{a}{b}");
    assert_eq!(strip_fences(&both), strip_fences(a) + &strip_fences(b));
    let left = strip_fences(&both);
    assert_eq!(left, "one\ntwo\n");
    assert!(left.lines().all(|l| !fence_line(l)));
    assert_eq!(strip_fences(&left), left);
    assert_eq!(strip_fences("plain\n\ntext\n"), "plain\n\ntext\n");
}

#[test]
fn frontmatter_and_fenced_blocks_never_count() {
    let known = names(&["raft"]);
    let said = |body: &str| format!("{:?}", {
        let e = extract(body, &known);
        (e.wiki_links, e.code_spans, e.project_mentions.entries)
    });
    let rest = "see [[A]] and raft\n```\nx\n```\n`span`\n";
    let first = said(&format!("---\ntags: [raft]\n---\n{rest}"));
    assert_eq!(first, said(&format!("---\n---\n{rest}")));
    assert_eq!(strip_frontmatter(&format!("---\nk: v\n---\n{rest}")), rest);
    let longer = "see [[A]] and raft\n```\nraft\n[[B]]\n`c`\n```\n`span`\n";
    assert_eq!(said(rest), said(longer));
}
