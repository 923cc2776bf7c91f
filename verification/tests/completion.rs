use rs_complete::CompletionTree;
use rs_complete::WordSeparator;

#[test]
fn test_completion() {
    let mut tree = CompletionTree::default();
    tree.insert("wording");
    let completions = tree.complete("wo").unwrap_or(vec![]);
    let mut iter = completions.iter();
    assert_eq!(iter.next(), Some(&"wording".to_string()));
}

#[test]
fn test_multi_completion() {
    let mut tree = CompletionTree::default();
    tree.insert("wording");
    tree.insert("wollybugger");
    tree.insert("workerbee");
    tree.insert("worldleader");
    tree.insert("batman");
    tree.insert("robin");
    let completions = tree.complete("wo").unwrap();
    assert!(completions.contains(&"workerbee".to_string()));
    assert!(completions.contains(&"wollybugger".to_string()));
    assert!(completions.contains(&"wording".to_string()));
    assert!(completions.contains(&"worldleader".to_string()));
    assert!(!completions.contains(&"batman".to_string()));
    assert!(!completions.contains(&"robin".to_string()));
}

#[test]
fn test_multi_insert() {
    let mut tree = CompletionTree::default();
    tree.insert("wollybugger workerbee worldleader batman robin wording");
    assert_eq!(tree.word_count(), 6);
    let completions = tree.complete("wo").unwrap();
    assert!(completions.contains(&"workerbee".to_string()));
    assert!(completions.contains(&"wollybugger".to_string()));
    assert!(completions.contains(&"wording".to_string()));
    assert!(completions.contains(&"worldleader".to_string()));
    assert!(!completions.contains(&"batman".to_string()));
    assert!(!completions.contains(&"robin".to_string()));
}

#[test]
fn test_multi_insert_custom_sep_1() {
    let mut tree = CompletionTree::default();
    tree.separator(WordSeparator::Separator("&"));
    tree.insert("wollybugger&workerbee&worldleader&batman&robin&wording");
    assert_eq!(tree.word_count(), 6);
    let completions = tree.complete("wo").unwrap();
    assert!(completions.contains(&"workerbee".to_string()));
    assert!(completions.contains(&"wollybugger".to_string()));
    assert!(completions.contains(&"wording".to_string()));
    assert!(completions.contains(&"worldleader".to_string()));
    assert!(!completions.contains(&"batman".to_string()));
    assert!(!completions.contains(&"robin".to_string()));
}

#[test]
fn test_multi_insert_custom_sep_2() {
    let mut tree = CompletionTree::default();
    tree.separator(WordSeparator::Separator("slaad"));
    tree.insert("wollybuggerslaadworkerbeeslaadworldleaderslaadbatmanslaadrobinslaadwording");
    assert_eq!(tree.word_count(), 6);
    let completions = tree.complete("wo").unwrap();
    assert!(completions.contains(&"workerbee".to_string()));
    assert!(completions.contains(&"wollybugger".to_string()));
    assert!(completions.contains(&"wording".to_string()));
    assert!(completions.contains(&"worldleader".to_string()));
    assert!(!completions.contains(&"batman".to_string()));
    assert!(!completions.contains(&"robin".to_string()));
}

#[test]
fn test_substring_matches() {
    let mut tree = CompletionTree::default();
    tree.insert("dumpster dumpsterfire");
    let completions = tree.complete("dum").unwrap();
    assert!(completions.contains(&"dumpster".to_string()));
    assert!(completions.contains(&"dumpsterfire".to_string()));
}

#[test]
fn test_dont_include_specials() {
    let mut tree = CompletionTree::default();
    tree.insert("dumpster\x1b[34m dumpsterfire{}");
    let completions = tree.complete("dum").unwrap();
    assert!(completions.contains(&"dumpster".to_string()));
    assert!(completions.contains(&"dumpsterfire".to_string()));
}

#[test]
fn test_without_inclusions() {
    let mut tree = CompletionTree::default();
    tree.insert("/dumpster /dumpsterfire");
    assert!(tree.complete("/dum").is_none());
}

#[test]
fn test_with_inclusions() {
    let mut tree = CompletionTree::with_inclusions(&['/', '_']);
    tree.insert("/dumpster /dumpster_fire");
    let completions = tree.complete("/dum").unwrap();
    assert!(completions.contains(&"/dumpster".to_string()));
    assert!(completions.contains(&"/dumpster_fire".to_string()));
}

#[test]
fn test_complete_empty_line() {
    let mut tree = CompletionTree::default();
    assert_eq!(tree.complete(""), None);
    tree.insert("test testersson testington");
    assert_eq!(tree.complete("barf"), None);
    assert_eq!(tree.complete(""), None);
}

#[test]
fn test_clear() {
    let mut completions = CompletionTree::default();
    completions.insert("batman robin batmobile batcave robber");
    assert_eq!(completions.word_count(), 5);
    assert_eq!(completions.size(), 24);
    completions.clear();
    assert_eq!(completions.size(), 1);
    assert_eq!(completions.word_count(), 0);
}

#[test]
fn test_word_count() {
    let mut completions = CompletionTree::default();
    completions.insert("batman robin batmobile batcave robber");
    assert_eq!(completions.word_count(), 5);
}

#[test]
fn test_size() {
    let mut completions = CompletionTree::default();
    assert_eq!(completions.size(), 1);
    completions.insert("batman robin batmobile batcave robber");
    assert_eq!(completions.size(), 24);
}

#[test]
fn test_min_word_len() {
    let mut completions = CompletionTree::default();
    completions.set_min_word_len(4);
    completions.insert("one two three four five");
    assert_eq!(completions.min_word_len(), 4);
    assert_eq!(completions.word_count(), 3);

    let mut completions = CompletionTree::default();
    completions.set_min_word_len(1);
    completions.insert("one two three four five");
    assert_eq!(completions.min_word_len(), 1);
    assert_eq!(completions.word_count(), 5);
}

#[test]
fn test_sorted_ascending() {
    let mut tree = CompletionTree::default();
    tree.insert("batman robin batmobile batcave robber");
    assert_eq!(
        tree.complete("bat"),
        Some(vec![
            "batcave".to_string(),
            "batman".to_string(),
            "batmobile".to_string()
        ])
    );
}

#[test]
fn test_leading_words_preserved() {
    let mut tree = CompletionTree::default();
    tree.insert("batman robin batmobile batcave robber");
    assert_eq!(
        tree.complete("to the bat"),
        Some(vec![
            "to the batcave".to_string(),
            "to the batman".to_string(),
            "to the batmobile".to_string()
        ])
    );
}

#[test]
fn test_truncated_word_is_terminal() {
    let mut tree = CompletionTree::default();
    tree.insert("dumpster\x1b[34m");
    assert_eq!(tree.complete("dum"), Some(vec!["dumpster".to_string()]));
    assert_eq!(tree.word_count(), 1);
}

#[test]
fn test_exact_word_completes_to_itself() {
    let mut tree = CompletionTree::default();
    tree.insert("robin");
    assert_eq!(tree.complete("robin"), Some(vec!["robin".to_string()]));
}

#[test]
fn test_shared_prefix_counts() {
    let mut tree = CompletionTree::default();
    tree.insert("batman batman batmobile");
    assert_eq!(tree.word_count(), 2);
    assert_eq!(tree.size(), 12);
}

#[test]
fn test_min_word_len_change_not_retroactive() {
    let mut tree = CompletionTree::default();
    tree.set_min_word_len(3);
    tree.insert("bat robin");
    tree.set_min_word_len(10);
    assert_eq!(tree.word_count(), 2);
    assert_eq!(tree.complete("ba"), Some(vec!["bat".to_string()]));
    tree.insert("batmobile");
    assert_eq!(tree.word_count(), 2);
    tree.set_min_word_len(2);
    assert_eq!(tree.complete("ro"), Some(vec!["robin".to_string()]));
}

#[test]
fn test_short_tokens_never_completable() {
    let mut tree = CompletionTree::default();
    tree.insert("bat cave");
    assert_eq!(tree.word_count(), 0);
    assert_eq!(tree.complete("ba"), None);
    assert_eq!(tree.complete("ca"), None);
}

#[test]
fn test_all_whitespace_line_lists_everything() {
    let mut tree = CompletionTree::default();
    tree.insert("robin");
    assert_eq!(tree.complete("  "), Some(vec!["  robin".to_string()]));
}

#[test]
fn test_empty_separator_splits_everywhere() {
    let mut tree = CompletionTree::default();
    tree.separator(WordSeparator::Separator(""));
    tree.set_min_word_len(1);
    tree.insert("abc");
    assert_eq!(tree.word_count(), 3);
    assert_eq!(tree.complete("b"), Some(vec!["b".to_string()]));
}

#[test]
fn test_adjacent_separators_yield_no_empty_words() {
    let mut tree = CompletionTree::default();
    tree.separator(WordSeparator::Separator("&"));
    tree.insert("batman&&robin");
    assert_eq!(tree.word_count(), 2);
    let completions = tree.complete("r").unwrap();
    assert_eq!(completions, vec!["robin".to_string()]);
}

#[test]
fn test_clear_keeps_settings() {
    let mut tree = CompletionTree::with_inclusions(&['/']);
    tree.set_min_word_len(2);
    tree.separator(WordSeparator::Separator("&"));
    tree.insert("/ab&cd");
    assert_eq!(tree.word_count(), 2);
    tree.clear();
    assert_eq!(tree.word_count(), 0);
    assert_eq!(tree.min_word_len(), 2);
    tree.insert("/ab&cd");
    assert_eq!(tree.word_count(), 2);
    let completions = tree.complete("/a").unwrap();
    assert_eq!(completions, vec!["/ab".to_string()]);
}

#[test]
fn test_trailing_whitespace_completes_last_word() {
    let mut tree = CompletionTree::default();
    tree.insert("batcave");
    assert_eq!(tree.complete("bat "), Some(vec!["bat cave".to_string()]));
}

#[test]
fn test_unicode_words() {
    let mut tree = CompletionTree::default();
    tree.set_min_word_len(4);
    tree.insert("über übrig");
    let completions = tree.complete("üb").unwrap();
    assert_eq!(
        completions,
        vec!["über".to_string(), "übrig".to_string()]
    );
}
