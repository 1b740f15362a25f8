use rsync_core::filter::{FilterEngine, FilterPattern, PatternType};

#[test]
fn test_empty_engine() {
    let engine = FilterEngine::new();
    assert!(engine.should_include("any/file.txt"));
}

#[test]
fn test_exclude_pattern() {
    let mut engine = FilterEngine::new();
    engine.add_exclude("*.txt").unwrap();

    assert!(!engine.should_include("file.txt"));
    assert!(!engine.should_include("dir/file.txt"));
    assert!(engine.should_include("file.dat"));
}

#[test]
fn test_include_pattern() {
    let mut engine = FilterEngine::new();

    engine.add_include("*.txt").unwrap();
    engine.add_exclude("*").unwrap();

    assert!(engine.should_include("file.txt"));

    assert!(!engine.should_include("file.dat"));
}

#[test]
fn test_pattern_order() {
    let mut engine = FilterEngine::new();

    engine.add_exclude("*.txt").unwrap();
    engine.add_include("important.txt").unwrap();

    assert!(!engine.should_include("important.txt"));
    assert!(!engine.should_include("file.txt"));
}

#[test]
fn test_reverse_pattern_order() {
    let mut engine = FilterEngine::new();

    engine.add_include("important.txt").unwrap();
    engine.add_exclude("*.txt").unwrap();

    assert!(engine.should_include("important.txt"));

    assert!(!engine.should_include("other.txt"));
}

#[test]
fn test_directory_exclusion() {
    let mut engine = FilterEngine::new();
    engine.add_exclude(".git/").unwrap();
    engine.add_exclude("node_modules/").unwrap();

    assert!(!engine.should_include(".git"));
    assert!(!engine.should_include(".git/config"));
    assert!(!engine.should_include("node_modules"));
    assert!(!engine.should_include("node_modules/package/index.js"));
    assert!(engine.should_include("src/main.rs"));
}

#[test]
fn test_wildcard_pattern() {
    let pattern = FilterPattern::new("*.txt", PatternType::Exclude).unwrap();

    assert!(pattern.matches("file.txt"));
    assert!(pattern.matches("dir/file.txt"));
    assert!(pattern.matches("a/b/c/file.txt"));
    assert!(!pattern.matches("file.dat"));
}

#[test]
fn test_directory_pattern() {
    let pattern = FilterPattern::new("temp/", PatternType::Exclude).unwrap();

    assert!(pattern.matches("temp"));
    assert!(pattern.matches("temp/file.txt"));
    assert!(pattern.matches("temp/sub/file.txt"));
}

#[test]
fn test_absolute_pattern() {
    let pattern = FilterPattern::new("/file.txt", PatternType::Exclude).unwrap();

    assert!(pattern.matches("file.txt"));
    assert!(!pattern.matches("dir/file.txt"));
}

#[test]
fn test_specific_directory_pattern() {
    let pattern = FilterPattern::new("dir/*.txt", PatternType::Exclude).unwrap();

    assert!(pattern.matches("dir/file.txt"));
    assert!(pattern.matches("a/b/dir/file.txt"));
    assert!(!pattern.matches("file.txt"));
    assert!(!pattern.matches("dir/sub/file.txt"));
}

#[test]
fn test_doc_pattern() {
    let pattern = FilterPattern::new("*.doc", PatternType::Exclude).unwrap();

    assert!(pattern.matches("document.doc"));
    assert!(pattern.matches("dir/document.doc"));
    assert!(!pattern.matches("document.txt"));
}

#[test]
fn test_question_mark_single_character() {
    let pattern = FilterPattern::new("file?.log", PatternType::Exclude).unwrap();
    assert!(pattern.matches("file1.log"));
    assert!(!pattern.matches("file12.log"));
    assert!(!pattern.matches("file/.log"));
}

#[test]
fn test_double_star_crosses_segments() {
    let pattern = FilterPattern::new("/a/**/z.txt", PatternType::Exclude).unwrap();
    assert!(pattern.matches("a/b/c/z.txt"));
    assert!(!pattern.matches("b/a/z.err"));
}

#[test]
fn test_pattern_lines_skip_comments() {
    let mut engine = FilterEngine::new();
    let lines = vec![
        "# Comment line".to_string(),
        "".to_string(),
        "*.txt".to_string(),
        "*.log".to_string(),
        "# Another comment".to_string(),
        "temp/".to_string(),
    ];
    engine.add_pattern_lines(&lines, PatternType::Exclude).unwrap();

    assert_eq!(engine.pattern_count(), 3);

    assert!(!engine.should_include("file.txt"));
    assert!(!engine.should_include("file.log"));
    assert!(!engine.should_include("temp/file.dat"));
    assert!(engine.should_include("file.dat"));
}

#[test]
fn test_filter_default_keeps() {
    let mut engine = FilterEngine::new();
    engine.add_exclude("*.o").unwrap();
    assert!(engine.should_include("main.rs"));
}
