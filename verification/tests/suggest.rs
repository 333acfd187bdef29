use tdb_search::batch::Batch;
use tdb_search::distance::Distance;
use tdb_search::schema::{StoreError, SuggestQuery};
use tdb_search::suggest::{
    after_failed_scan, after_scan, build_suggest_result, extract_completions,
    find_match_and_next_words, find_match_in, locate_match, lowered_widths, scan_limit,
    substring_hits, SuggestStep,
};

#[test]
fn test_find_match_basic() {
    let content = "The electrical engineering department";
    let (start, end, words) = find_match_and_next_words(content, "elect");
    assert_eq!(start, Some(4));
    assert_eq!(end, Some(14)); // "electrical" (10 chars) ends at byte 14
    assert_eq!(words, vec!["engineering", "department"]);
}

#[test]
fn test_find_match_no_match() {
    let content = "The mechanical engineering department";
    let (start, end, words) = find_match_and_next_words(content, "elect");
    assert_eq!(start, None);
    assert_eq!(end, None);
    assert!(words.is_empty());
}

#[test]
fn test_find_match_with_punctuation() {
    let content = "Electrical, engineering and computer science.";
    let (start, end, words) = find_match_and_next_words(content, "elect");
    assert_eq!(start, Some(0));
    assert_eq!(end, Some(10)); // "Electrical" (10 chars) ends at byte 10
    assert_eq!(words, vec!["engineering", "and", "computer", "science"]);
}

#[test]
fn test_find_match_at_end_of_content() {
    let content = "The department of elect";
    let (start, end, words) = find_match_and_next_words(content, "elect");
    assert_eq!(start, Some(18));
    assert_eq!(end, Some(23)); // "elect" is the full word at end
    assert!(words.is_empty());
}

#[test]
fn test_find_match_case_insensitive() {
    let content = "ELECTRICAL components are here";
    let (start, end, words) = find_match_and_next_words(content, "elect");
    assert_eq!(start, Some(0));
    assert_eq!(end, Some(10)); // "ELECTRICAL" (10 chars) ends at byte 10
    assert_eq!(words, vec!["components", "are", "here"]);
}

#[test]
fn test_find_match_max_five_words() {
    let content = "elect one two three four five six seven";
    let (start, end, words) = find_match_and_next_words(content, "elect");
    assert_eq!(start, Some(0));
    assert_eq!(end, Some(5)); // "elect" is the full word
    assert_eq!(words.len(), 5);
    assert_eq!(words, vec!["one", "two", "three", "four", "five"]);
}

#[test]
fn test_extract_completions_basic() {
    let snippets = vec!["The electrical engineering department"];
    let completions = extract_completions("elect", snippets);
    assert!(!completions.is_empty());
    // The most frequent completion should contain "electrical" at minimum.
    assert!(completions[0].to_lowercase().contains("electrical"));
}

#[test]
fn test_extract_completions_multi_word() {
    let snippets = vec!["The electrical engineering department is here"];
    let completions = extract_completions("elect", snippets);
    assert!(completions.iter().any(|c| c.to_lowercase() == "electrical"));
    assert!(completions.iter().any(|c| c.to_lowercase() == "electrical engineering"));
    assert!(completions.iter().any(|c| c.to_lowercase() == "electrical engineering department"));
}

#[test]
fn test_extract_completions_frequency_ranking() {
    // "electrical engineering" appears twice, "electrical components" once.
    let snippets = vec![
        "The electrical engineering department",
        "electrical engineering is great",
        "electrical components are cheap",
    ];
    let completions = extract_completions("elect", snippets);
    let eng_idx = completions.iter().position(|c| c.to_lowercase() == "electrical engineering");
    let comp_idx = completions.iter().position(|c| c.to_lowercase() == "electrical components");
    assert!(eng_idx.is_some());
    assert!(comp_idx.is_some());
    assert!(eng_idx.unwrap() < comp_idx.unwrap());
}

#[test]
fn test_extract_completions_no_match() {
    let snippets = vec!["The mechanical engineering department"];
    let completions = extract_completions("elect", snippets);
    assert!(completions.is_empty());
}

#[test]
fn test_extract_completions_multiple_occurrences() {
    let snippets = vec!["electrical power and electrical systems"];
    let completions = extract_completions("elect", snippets);
    // "electrical" should appear with count=2 (two occurrences in one snippet).
    assert!(completions.iter().any(|c| c.to_lowercase() == "electrical"));
    // "electrical power" and "electrical systems" should both be present.
    assert!(completions.iter().any(|c| c.to_lowercase().contains("power")));
    assert!(completions.iter().any(|c| c.to_lowercase().contains("systems")));
}

#[test]
fn lowering_applies_beyond_ascii() {
    let (start, end, words) = find_match_and_next_words("Ein ÄRGER mehr", "ärger");
    assert_eq!(start, Some(4));
    assert_eq!(end, Some(10));
    assert_eq!(words, vec!["mehr"]);
}

#[test]
fn offsets_are_those_of_the_content() {
    // Lowering `İ` makes it longer, so everything behind it moves in the lowered text.
    assert_eq!(find_match_and_next_words("\u{130} elect", "elect"), (Some(3), Some(8), Vec::new()));
    assert_eq!(
        find_match_and_next_words("\u{130} elect xyz", "elect"),
        (Some(3), Some(8), vec!["xyz".to_owned()])
    );
    assert_eq!(find_match_and_next_words("\u{130}xß", "x"), (Some(2), Some(5), Vec::new()));
    // Lowering the Kelvin sign makes it shorter.
    assert_eq!(find_match_and_next_words("5 \u{212a}elvin", "kelvin"), (Some(2), Some(10), Vec::new()));
    // A match inside the lowered form of a character covers that character.
    assert_eq!(find_match_and_next_words("a\u{130}", "i"), (Some(1), Some(3), Vec::new()));
    assert_eq!(find_match_and_next_words("ΟΔΥΣΣΕΥΣ", "οδυσσευς"), (Some(0), Some(16), Vec::new()));
}

#[test]
fn completions_are_cut_from_the_content() {
    let completions = extract_completions("elect", vec!["\u{130} electrical power"]);
    assert_eq!(completions, vec!["electrical power".to_owned(), "electrical".to_owned()]);
}

#[test]
fn a_match_is_traced_through_the_lowered_text() {
    // Three characters whose lowered forms take three, one and five bytes.
    let widths: Vec<usize> = vec![3, 1, 5];
    assert_eq!(locate_match(&widths, 3, 1), (1, 2));
    assert_eq!(locate_match(&widths, 1, 3), (0, 2));
    assert_eq!(locate_match(&widths, 4, 5), (2, 3));
    assert_eq!(lowered_widths("\u{130}x"), vec![3, 1]);
    assert_eq!(
        find_match_in("\u{130} elect", "i\u{307} elect", &vec![3, 1, 1, 1, 1, 1, 1], "elect"),
        (Some(3), Some(8), Vec::new())
    );
}

#[test]
fn no_snippets_have_no_completions() {
    assert!(extract_completions("", Vec::new()).is_empty());
}

#[test]
fn completions_are_distinct() {
    let completions = extract_completions("elect", vec!["electrical power", "Electrical power"]);
    let mut lowered: Vec<String> = completions.iter().map(|c| c.to_lowercase()).collect();
    let n = lowered.len();
    lowered.sort();
    lowered.dedup();
    assert_eq!(lowered.len(), n);
}

fn text_batch(rows: Vec<(&str, &str)>) -> Batch {
    let n = rows.len();
    Batch {
        rows: n,
        doc_id: Some(rows.iter().map(|r| r.0.to_owned()).collect()),
        doc_type: Some(vec!["Doc".to_owned(); n]),
        chunk_index: Some(vec![0; n]),
        chunk_count: Some(vec![1; n]),
        chunk_token_start: Some(vec![0; n]),
        doc_token_len: Some(vec![10; n]),
        content: Some(rows.iter().map(|r| r.1.to_owned()).collect()),
        distance: None,
        score_distance: Some(vec![Distance::from_bits(0.5f32.to_bits()); n]),
        embedding: None,
        clustering_embedding: None,
    }
}

fn query_for(text: &str, count: usize) -> SuggestQuery {
    SuggestQuery {
        query_text: text.to_owned(),
        count,
        doc_type_filter: Vec::new(),
        doc_id_filter: Vec::new(),
    }
}

#[test]
fn substring_scan_finds_text_in_any_case() {
    let batches = vec![text_batch(vec![("a", "Electrical power"), ("b", "steam"), ("c", "re-elect")])];
    let hits = substring_hits(&batches, "ELECT");
    let ids: Vec<&str> = hits.iter().map(|h| h.doc_id.as_str()).collect();
    assert_eq!(ids, vec!["a", "c"]);
}

#[test]
fn a_suggestion_lists_documents_and_completions() {
    let batches = vec![text_batch(vec![("a", "electrical power"), ("b", "electrical systems")])];
    let query = query_for("elect", 1);
    let hits = substring_hits(&batches, "elect");
    let result = build_suggest_result(&hits, &query);
    assert_eq!(result.total_approx, 2);
    assert_eq!(result.hits.len(), 1);
    assert_eq!(result.hits[0].match_start, Some(0));
    assert_eq!(result.hits[0].match_end, Some(10));
    assert!(result.completions.contains(&"electrical".to_owned()));
}

#[test]
fn a_text_scan_that_finds_nothing_falls_back() {
    let query = query_for("elect", 5);
    assert!(matches!(after_scan(&vec![text_batch(Vec::new())], &query), SuggestStep::Fallback));
    assert!(matches!(after_failed_scan("stage: ", "no INVERTED index"), SuggestStep::Fallback));
    let failed = after_failed_scan("stage: ", "disk full");
    assert!(matches!(failed, SuggestStep::Fail(StoreError::Internal(m)) if m == "stage: disk full"));
}

#[test]
fn the_scan_limit_is_bounded() {
    assert_eq!(scan_limit(0), 5);
    assert_eq!(scan_limit(10), 55);
    assert_eq!(scan_limit(39), 200);
    assert_eq!(scan_limit(1000), 200);
}
