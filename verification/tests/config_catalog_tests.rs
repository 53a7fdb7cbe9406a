use drivedriver::catalog::{Catalog, Category};
use drivedriver::config::Config;
use drivedriver::text::{str_eq, to_ascii_lowercase};

#[test]
fn default_config_is_conservative() {
    let c = Config::load_or_create(false);
    assert!(!c.use_ai_analysis);
    assert_eq!(c.ollama_model, "default-model");
    assert_eq!(c.ollama_url, "http://localhost:11434");
    assert!(c.excluded_paths.is_empty());
}

#[test]
fn present_settings_enable_analysis() {
    let c = Config::load_or_create(true);
    assert!(c.use_ai_analysis);
    assert!(c.excluded_paths.is_empty());
}

#[test]
fn exclusion_is_exact_membership() {
    let mut c = Config::load_or_create(false);
    c.excluded_paths.push("/tmp".to_owned());
    c.excluded_paths.push("/var/cache".to_owned());
    assert!(c.is_path_excluded("/tmp"));
    assert!(c.is_path_excluded("/var/cache"));
    assert!(!c.is_path_excluded("/tmp/file"));
    assert!(!c.is_path_excluded("/var"));
    assert!(!c.is_path_excluded(""));
}

fn rec(path: &str, size: u64) -> drivedriver::catalog::FileMetadata {
    drivedriver::analyzer::analyze_file(path, size, 0, 0, false, 0)
}

#[test]
fn catalog_insert_and_get() {
    let mut cat = Catalog::new();
    assert_eq!(cat.len(), 0);
    cat.insert(rec("/a", 1));
    cat.insert(rec("/b", 2));
    assert_eq!(cat.len(), 2);
    assert_eq!(cat.get("/a").unwrap().size, 1);
    assert_eq!(cat.get("/b").unwrap().size, 2);
    assert!(cat.get("/c").is_none());
}

#[test]
fn catalog_insert_supersedes_by_path() {
    let mut cat = Catalog::new();
    cat.insert(rec("/a", 1));
    cat.insert(rec("/a", 7));
    assert_eq!(cat.len(), 1);
    assert_eq!(cat.get("/a").unwrap().size, 7);
}

#[test]
fn record_copy_is_field_for_field() {
    let m = rec("/a/b.pdf", 9);
    let c = m.duplicate();
    assert_eq!(c, m);
    assert_eq!(c.category, Category::Document);
}

#[test]
fn ascii_lowercase_leaves_other_characters() {
    assert_eq!(to_ascii_lowercase("MiXeD123_Ä"), "mixed123_Ä");
    assert_eq!(to_ascii_lowercase(""), "");
}

#[test]
fn string_equality_is_by_characters() {
    assert!(str_eq("abc", "abc"));
    assert!(!str_eq("abc", "abd"));
    assert!(!str_eq("abc", "ab"));
    assert!(str_eq("", ""));
}
