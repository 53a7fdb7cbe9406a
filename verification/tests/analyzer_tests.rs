use drivedriver::analyzer::{
    analyze_file, calculate_importance_score, determine_file_category, get_mime_type,
    is_analyzable, is_executable_mode, should_analyze_with_ai, split_base_name, split_extension,
};
use drivedriver::catalog::Category;
use drivedriver::text::{chars_to_string, string_to_chars};

const DAY: i64 = 86400;
const NOW: i64 = 1_700_000_000;

#[test]
fn document_modified_two_days_ago_scores_fifty_five() {
    let s = calculate_importance_score(Category::Document, NOW - 2 * DAY, NOW);
    assert_eq!(s, 55);
}

#[test]
fn other_modified_two_hundred_days_ago_scores_zero() {
    let s = calculate_importance_score(Category::Other, NOW - 200 * DAY, NOW);
    assert_eq!(s, 0);
}

#[test]
fn score_depends_only_on_category_and_days() {
    let a = calculate_importance_score(Category::Document, NOW - 2 * DAY, NOW);
    let b = calculate_importance_score(Category::Document, NOW + 5 * DAY - 2 * DAY, NOW + 5 * DAY);
    assert_eq!(a, b);
}

#[test]
fn score_bands() {
    assert_eq!(calculate_importance_score(Category::Other, NOW - 6 * DAY, NOW), 30);
    assert_eq!(calculate_importance_score(Category::Other, NOW - 29 * DAY, NOW), 20);
    assert_eq!(calculate_importance_score(Category::Other, NOW - 89 * DAY, NOW), 10);
    assert_eq!(calculate_importance_score(Category::Other, NOW - 90 * DAY, NOW), 0);
    assert_eq!(calculate_importance_score(Category::Spreadsheet, NOW, NOW), 50);
    assert_eq!(calculate_importance_score(Category::Audio, NOW, NOW), 40);
    assert_eq!(calculate_importance_score(Category::Application, NOW, NOW), 35);
}

#[test]
fn future_modification_counts_as_recent() {
    // a file stamped in the future has a negative day distance, within the
    // most recent band
    let s = calculate_importance_score(Category::Other, NOW + 10 * DAY, NOW);
    assert_eq!(s, 30);
}

#[test]
fn score_never_leaves_range() {
    let categories = [
        Category::Image,
        Category::Video,
        Category::Audio,
        Category::Document,
        Category::Spreadsheet,
        Category::Presentation,
        Category::Application,
        Category::Archive,
        Category::Other,
    ];
    for c in categories.iter() {
        for days in [-5i64, 0, 6, 7, 29, 30, 89, 90, 10000].iter() {
            let s = calculate_importance_score(*c, NOW - days * DAY, NOW);
            assert!(s <= 100);
        }
    }
}

#[test]
fn categories_from_extensions() {
    let cat = |e: &str| determine_file_category(&Some(e.to_owned()), false);
    assert_eq!(cat("jpg"), Category::Image);
    assert_eq!(cat("heic"), Category::Image);
    assert_eq!(cat("mkv"), Category::Video);
    assert_eq!(cat("flac"), Category::Audio);
    assert_eq!(cat("pdf"), Category::Document);
    assert_eq!(cat("csv"), Category::Spreadsheet);
    assert_eq!(cat("odp"), Category::Presentation);
    assert_eq!(cat("deb"), Category::Application);
    assert_eq!(cat("7z"), Category::Archive);
    assert_eq!(cat("xyz"), Category::Other);
}

#[test]
fn extensionless_files_follow_executable_probe() {
    assert_eq!(determine_file_category(&None, true), Category::Application);
    assert_eq!(determine_file_category(&None, false), Category::Other);
}

#[test]
fn mime_table() {
    let mime = |e: &str| get_mime_type(&Some(e.to_owned()));
    assert_eq!(mime("jpg"), "image/jpeg");
    assert_eq!(mime("jpeg"), "image/jpeg");
    assert_eq!(mime("png"), "image/png");
    assert_eq!(mime("pdf"), "application/pdf");
    assert_eq!(mime("txt"), "text/plain");
    assert_eq!(mime("rs"), "application/octet-stream");
    assert_eq!(get_mime_type(&None), "application/octet-stream");
}

#[test]
fn base_name_and_extension() {
    let base = |p: &str| chars_to_string(&split_base_name(&string_to_chars(p)));
    assert_eq!(base("/home/user/report.pdf"), "report.pdf");
    assert_eq!(base("report.pdf"), "report.pdf");
    assert_eq!(base("/a/b/c"), "c");
    let ext = |n: &str| split_extension(&string_to_chars(n)).map(|e| chars_to_string(&e));
    assert_eq!(ext("report.pdf"), Some("pdf".to_owned()));
    assert_eq!(ext("archive.tar.gz"), Some("gz".to_owned()));
    assert_eq!(ext(".bashrc"), None);
    assert_eq!(ext("README"), None);
    assert_eq!(ext("note."), Some("".to_owned()));
}

#[test]
fn analyze_file_builds_the_record() {
    let m = analyze_file("/data/Photos/Trip.JPG", 2048, NOW - 40 * DAY, NOW - 2 * DAY, false, NOW);
    assert_eq!(m.path, "/data/Photos/Trip.JPG");
    assert_eq!(m.file_name, "Trip.JPG");
    assert_eq!(m.extension, "jpg");
    assert_eq!(m.size, 2048);
    assert_eq!(m.created, NOW - 40 * DAY);
    assert_eq!(m.modified, NOW - 2 * DAY);
    assert_eq!(m.category, Category::Image);
    assert_eq!(m.mime_type, "image/jpeg");
    assert_eq!(m.importance_score, 45);
    assert_eq!(m.last_accessed, m.modified);
    assert!(!m.is_duplicate);
    assert!(m.duplicate_of.is_none());
    assert!(m.ai_analysis.is_none());
}

#[test]
fn analyze_extensionless_executable() {
    let m = analyze_file("/usr/bin/tool", 100, NOW, NOW, true, NOW);
    assert_eq!(m.file_name, "tool");
    assert_eq!(m.extension, "");
    assert_eq!(m.category, Category::Application);
    assert_eq!(m.mime_type, "application/octet-stream");
    assert_eq!(m.importance_score, 35);
}

#[test]
fn executable_mode_bits() {
    assert!(is_executable_mode(0o755));
    assert!(is_executable_mode(0o100));
    assert!(is_executable_mode(0o001));
    assert!(!is_executable_mode(0o644));
    assert!(!is_executable_mode(0o600));
}

#[test]
fn analyzable_gate() {
    assert!(is_analyzable(1_000_000, &Some("txt".to_owned())));
    assert!(!is_analyzable(1_000_001, &Some("txt".to_owned())));
    assert!(is_analyzable(10, &Some("toml".to_owned())));
    assert!(!is_analyzable(10, &Some("jpg".to_owned())));
    assert!(!is_analyzable(10, &None));
}

#[test]
fn ai_gate_needs_both_switch_and_kind() {
    assert!(should_analyze_with_ai(true, 10, &Some("md".to_owned())));
    assert!(!should_analyze_with_ai(false, 10, &Some("md".to_owned())));
    assert!(!should_analyze_with_ai(true, 10, &Some("bin".to_owned())));
}
