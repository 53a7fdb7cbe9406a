use drivedriver::analyzer::analyze_file;
use drivedriver::catalog::{AiAnalysis, Catalog, Category, FileMetadata};
use drivedriver::codec::{parse_chunk_exec, serialize_chunk};
use drivedriver::config::Config;
use drivedriver::scanner::{scan_drive, FileEntry};
use drivedriver::storage::{
    duplicate_candidate_pairs, find_duplicate_files, load_file_metadata, save_scan_result,
    save_stats,
};
use drivedriver::text::string_to_chars;

const DAY: i64 = 86400;
const NOW: i64 = 1_700_000_000;

fn record(path: &str, size: u64) -> FileMetadata {
    analyze_file(path, size, NOW - 10 * DAY, NOW - DAY, false, NOW)
}

fn fancy_record() -> FileMetadata {
    FileMetadata {
        path: "/tmp/we\"ird\\name\n.txt".to_owned(),
        file_name: "we\"ird\\name\n.txt".to_owned(),
        extension: "txt".to_owned(),
        size: u64::MAX,
        created: -100,
        modified: i64::MIN,
        category: Category::Document,
        mime_type: "text/plain".to_owned(),
        importance_score: 100,
        last_accessed: i64::MAX,
        is_duplicate: true,
        duplicate_of: Some("/tmp/other".to_owned()),
        ai_analysis: Some(AiAnalysis {
            file_purpose: "notes".to_owned(),
            importance_level: "low".to_owned(),
            potential_category: "text".to_owned(),
            deletion_recommendation: false,
            confidence_centi: 75,
        }),
    }
}

#[test]
fn chunk_round_trip_plain() {
    let recs = vec![record("/a/x.txt", 10), record("/a/y.jpg", 20)];
    let text = serialize_chunk(&recs);
    let back = parse_chunk_exec(&string_to_chars(&text)).expect("chunk must parse");
    assert_eq!(back, recs);
}

#[test]
fn chunk_round_trip_escapes_and_extremes() {
    let recs = vec![fancy_record()];
    let text = serialize_chunk(&recs);
    let back = parse_chunk_exec(&string_to_chars(&text)).expect("chunk must parse");
    assert_eq!(back, recs);
}

#[test]
fn empty_chunk_round_trip() {
    let recs: Vec<FileMetadata> = Vec::new();
    let text = serialize_chunk(&recs);
    assert_eq!(text, "{}");
    let back = parse_chunk_exec(&string_to_chars(&text)).expect("chunk must parse");
    assert!(back.is_empty());
}

#[test]
fn chunk_output_is_valid_json() {
    let recs = vec![record("/a/x.txt", 10), fancy_record()];
    let text = serialize_chunk(&recs);
    let v: serde_json::Value = serde_json::from_str(&text).expect("serde must accept the chunk");
    let obj = v.as_object().expect("chunk is an object");
    assert_eq!(obj.len(), 2);
    let rec = obj.get("/a/x.txt").expect("keyed by path");
    assert_eq!(rec.get("size").unwrap().as_u64(), Some(10));
    assert_eq!(rec.get("category").unwrap().as_str(), Some("document"));
    assert_eq!(rec.get("modified").unwrap().as_i64(), Some(NOW - DAY));
}

#[test]
fn pretty_printed_chunk_is_accepted() {
    let text = "{\n  \"/a/x.txt\": {\n    \"path\": \"/a/x.txt\",\n    \"file_name\": \"x.txt\",\n    \"extension\": \"txt\",\n    \"size\": 10,\n    \"created\": 5,\n    \"modified\": 6,\n    \"category\": \"document\",\n    \"mime_type\": \"text/plain\",\n    \"importance_score\": 55,\n    \"last_accessed\": 6,\n    \"is_duplicate\": false,\n    \"duplicate_of\": null,\n    \"ai_analysis\": null\n  }\n}\n";
    let back = parse_chunk_exec(&string_to_chars(text)).expect("pretty chunk must parse");
    assert_eq!(back.len(), 1);
    assert_eq!(back[0].path, "/a/x.txt");
    assert_eq!(back[0].size, 10);
    assert_eq!(back[0].importance_score, 55);
}

#[test]
fn single_digit_confidence_is_accepted() {
    // a float printer may write one decimal digit; it reads as tenths
    let text = "{\"/a\": {\"path\":\"/a\",\"file_name\":\"a\",\"extension\":\"\",\"size\":1,\"created\":0,\"modified\":0,\"category\":\"other\",\"mime_type\":\"x\",\"importance_score\":0,\"last_accessed\":0,\"is_duplicate\":false,\"duplicate_of\":null,\"ai_analysis\":{\"file_purpose\":\"p\",\"importance_level\":\"l\",\"potential_category\":\"c\",\"deletion_recommendation\":true,\"confidence_score\":0.7}}}";
    let cat = load_file_metadata(&vec![text.to_owned()]).expect("chunk must load");
    let ai = cat.get("/a").unwrap().ai_analysis.as_ref().expect("enrichment kept");
    assert_eq!(ai.confidence_centi, 70);
    assert!(ai.deletion_recommendation);
}

#[test]
fn noisy_confidence_digits_are_truncated() {
    let text = "{\"/a\": {\"path\":\"/a\",\"file_name\":\"a\",\"extension\":\"\",\"size\":1,\"created\":0,\"modified\":0,\"category\":\"other\",\"mime_type\":\"x\",\"importance_score\":0,\"last_accessed\":0,\"is_duplicate\":false,\"duplicate_of\":null,\"ai_analysis\":{\"file_purpose\":\"p\",\"importance_level\":\"l\",\"potential_category\":\"c\",\"deletion_recommendation\":false,\"confidence_score\":0.30000001}}}";
    let cat = load_file_metadata(&vec![text.to_owned()]).expect("chunk must load");
    let ai = cat.get("/a").unwrap().ai_analysis.as_ref().expect("enrichment kept");
    assert_eq!(ai.confidence_centi, 30);
}

#[test]
fn load_merges_chunks_last_wins() {
    let first = serialize_chunk(&vec![record("/a/x.txt", 10), record("/a/y.txt", 20)]);
    let second = serialize_chunk(&vec![record("/a/y.txt", 99), record("/a/z.txt", 30)]);
    let cat = load_file_metadata(&vec![first, second]).expect("load must succeed");
    assert_eq!(cat.len(), 3);
    assert_eq!(cat.get("/a/y.txt").unwrap().size, 99);
    assert_eq!(cat.get("/a/x.txt").unwrap().size, 10);
    assert_eq!(cat.get("/a/z.txt").unwrap().size, 30);
    assert!(cat.get("/a/missing").is_none());
}

#[test]
fn load_of_no_chunks_is_empty() {
    let cat = load_file_metadata(&Vec::new()).expect("no chunks is an empty catalog");
    assert_eq!(cat.len(), 0);
}

#[test]
fn malformed_chunk_fails_the_load() {
    let good = serialize_chunk(&vec![record("/a/x.txt", 10)]);
    match load_file_metadata(&vec![good, "{not json".to_owned()]) {
        Ok(_) => panic!("a malformed chunk must fail the load"),
        Err(e) => assert_eq!(e.chunk_index, 1),
    }
}

#[test]
fn number_overflow_is_malformed() {
    let too_big = "{\"/a\": {\"path\":\"/a\",\"file_name\":\"a\",\"extension\":\"\",\"size\":18446744073709551616,\"created\":0,\"modified\":0,\"category\":\"other\",\"mime_type\":\"x\",\"importance_score\":0,\"last_accessed\":0,\"is_duplicate\":false,\"duplicate_of\":null,\"ai_analysis\":null}}";
    assert!(load_file_metadata(&vec![too_big.to_owned()]).is_err());
    let at_max = too_big.replace("18446744073709551616", "18446744073709551615");
    let cat = load_file_metadata(&vec![at_max]).expect("the largest size still loads");
    assert_eq!(cat.get("/a").unwrap().size, u64::MAX);
}

fn scan_of(paths_sizes: &[(&str, u64)]) -> drivedriver::scanner::ScanResult {
    let entries: Vec<FileEntry> = paths_sizes
        .iter()
        .map(|(p, s)| FileEntry {
            path: (*p).to_owned(),
            size: *s,
            created: NOW - 10 * DAY,
            modified: NOW - DAY,
            executable: false,
        })
        .collect();
    let config = Config::load_or_create(false);
    scan_drive(&entries, &config, NOW)
}

#[test]
fn save_and_load_round_trip_across_chunk_boundaries() {
    // the same records, split two ways, load to the same catalog
    let result = scan_of(&[
        ("/d/a.txt", 1),
        ("/d/b.txt", 2),
        ("/d/c.txt", 3),
        ("/d/d.txt", 4),
        ("/d/e.txt", 5),
    ]);
    for cap in [2usize, 10] {
        let nchunks = (result.metadata.entries.len() + cap - 1) / cap;
        let existing: Vec<Option<String>> = (0..nchunks).map(|_| None).collect();
        let out = save_scan_result(&result, &existing, NOW, cap);
        assert_eq!(out.chunks.len(), nchunks);
        let cat = load_file_metadata(&out.chunks).expect("saved chunks must load");
        assert_eq!(cat.len(), 5);
        for (p, s) in [("/d/a.txt", 1u64), ("/d/c.txt", 3), ("/d/e.txt", 5)] {
            let m = cat.get(p).expect("record kept");
            assert_eq!(m.size, s);
            assert_eq!(m, result.metadata.get(p).unwrap());
        }
    }
}

#[test]
fn save_merges_into_existing_chunks() {
    let old = scan_of(&[("/d/a.txt", 1), ("/d/b.txt", 2)]);
    let old_out = save_scan_result(&old, &vec![None], NOW, 100);
    let newer = scan_of(&[("/d/b.txt", 42), ("/d/c.txt", 3)]);
    let out = save_scan_result(&newer, &vec![Some(old_out.chunks[0].clone())], NOW, 100);
    let cat = load_file_metadata(&out.chunks).expect("merged chunk must load");
    assert_eq!(cat.len(), 3);
    assert_eq!(cat.get("/d/a.txt").unwrap().size, 1);
    assert_eq!(cat.get("/d/b.txt").unwrap().size, 42);
    assert_eq!(cat.get("/d/c.txt").unwrap().size, 3);
}

#[test]
fn stats_text_is_exact() {
    let result = scan_of(&[("/d/a.txt", 7), ("/d/b.jpg", 5), ("/d/c.txt", 1)]);
    let stats = save_stats(123, &result);
    assert_eq!(
        stats,
        "{\"timestamp\":123,\"total_files\":3,\"total_size\":13,\"file_types\":{\"txt\":2,\"jpg\":1}}"
    );
    let v: serde_json::Value = serde_json::from_str(&stats).expect("stats must be JSON");
    assert_eq!(v.get("total_files").unwrap().as_u64(), Some(3));
}

fn catalog_of(paths_sizes: &[(&str, u64)]) -> Catalog {
    let mut cat = Catalog::new();
    for (p, s) in paths_sizes {
        cat.insert(record(p, *s));
    }
    cat
}

#[test]
fn equal_sizes_are_the_only_candidates() {
    let cat = catalog_of(&[("/a", 10), ("/b", 20), ("/c", 10), ("/d", 30)]);
    let pairs = duplicate_candidate_pairs(&cat);
    assert_eq!(pairs, vec![(0, 2)]);
}

#[test]
fn unique_size_is_never_compared() {
    let cat = catalog_of(&[("/a", 1), ("/b", 2), ("/c", 3)]);
    assert!(duplicate_candidate_pairs(&cat).is_empty());
    assert!(find_duplicate_files(&cat, &Vec::new()).is_empty());
}

#[test]
fn identical_pair_reported_exactly_once() {
    let cat = catalog_of(&[("/a", 10), ("/b", 10)]);
    let pairs = duplicate_candidate_pairs(&cat);
    assert_eq!(pairs.len(), 1);
    let dups = find_duplicate_files(&cat, &vec![true]);
    assert_eq!(dups, vec![("/a".to_owned(), "/b".to_owned())]);
}

#[test]
fn differing_content_is_never_reported() {
    let cat = catalog_of(&[("/a", 10), ("/b", 10)]);
    let dups = find_duplicate_files(&cat, &vec![false]);
    assert!(dups.is_empty());
}

#[test]
fn verdicts_select_among_candidates() {
    let cat = catalog_of(&[("/a", 10), ("/b", 10), ("/c", 10)]);
    let pairs = duplicate_candidate_pairs(&cat);
    assert_eq!(pairs, vec![(0, 1), (0, 2), (1, 2)]);
    let dups = find_duplicate_files(&cat, &vec![false, true, false]);
    assert_eq!(dups, vec![("/a".to_owned(), "/c".to_owned())]);
}
