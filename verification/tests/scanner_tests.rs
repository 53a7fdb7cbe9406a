use drivedriver::catalog::Category;
use drivedriver::config::Config;
use drivedriver::scanner::{get_all_drives, scan_drive, FileEntry};
use drivedriver::text::format_file_size;

const DAY: i64 = 86400;
const NOW: i64 = 1_700_000_000;

fn entry(path: &str, size: u64) -> FileEntry {
    FileEntry {
        path: path.to_owned(),
        size,
        created: NOW - 10 * DAY,
        modified: NOW - 2 * DAY,
        executable: false,
    }
}

#[test]
fn scan_counts_sizes_and_types() {
    let entries = vec![
        entry("/d/one.txt", 100),
        entry("/d/two.JPG", 200),
        entry("/d/three.txt", 50),
        entry("/d/README", 7),
    ];
    let config = Config::load_or_create(false);
    let r = scan_drive(&entries, &config, NOW);
    assert_eq!(r.total_files, 4);
    assert_eq!(r.total_size, 357);
    assert_eq!(r.file_types.get("txt"), 2);
    assert_eq!(r.file_types.get("jpg"), 1);
    assert_eq!(r.file_types.get("md"), 0);
    assert_eq!(r.metadata.len(), 4);
    let m = r.metadata.get("/d/two.JPG").expect("record present");
    assert_eq!(m.category, Category::Image);
    assert_eq!(m.importance_score, 45);
}

#[test]
fn excluded_paths_never_reach_the_result() {
    let entries = vec![entry("/d/keep.txt", 10), entry("/d/skip.txt", 20)];
    let mut config = Config::load_or_create(false);
    config.excluded_paths.push("/d/skip.txt".to_owned());
    let r = scan_drive(&entries, &config, NOW);
    assert_eq!(r.total_files, 1);
    assert_eq!(r.total_size, 10);
    assert!(r.metadata.get("/d/skip.txt").is_none());
    assert!(r.metadata.get("/d/keep.txt").is_some());
}

#[test]
fn later_entry_for_a_path_supersedes() {
    let entries = vec![entry("/d/a.txt", 10), entry("/d/a.txt", 30)];
    let config = Config::load_or_create(false);
    let r = scan_drive(&entries, &config, NOW);
    // both visits count toward the aggregates, one record stays
    assert_eq!(r.total_files, 2);
    assert_eq!(r.total_size, 40);
    assert_eq!(r.metadata.len(), 1);
    assert_eq!(r.metadata.get("/d/a.txt").unwrap().size, 30);
}

#[test]
fn empty_walk_is_empty() {
    let config = Config::load_or_create(false);
    let r = scan_drive(&Vec::new(), &config, NOW);
    assert_eq!(r.total_files, 0);
    assert_eq!(r.total_size, 0);
    assert_eq!(r.metadata.len(), 0);
    assert_eq!(r.file_types.len(), 0);
}

#[test]
fn mount_table_excludes_pseudo_filesystems() {
    let table = "proc /proc proc rw 0 0\nsysfs /sys sysfs rw 0 0\nudev /dev devtmpfs rw 0 0\ntmpfs /run tmpfs rw 0 0\n/dev/sda1 / ext4 rw 0 0\n";
    let drives = get_all_drives(table);
    assert_eq!(drives, vec!["/".to_owned()]);
}

#[test]
fn root_is_appended_when_absent() {
    let table = "/dev/sdb1 /mnt/data ext4 rw 0 0\n";
    let drives = get_all_drives(table);
    assert_eq!(drives, vec!["/mnt/data".to_owned(), "/".to_owned()]);
}

#[test]
fn root_is_not_doubled() {
    let table = "/dev/sda1 / ext4 rw 0 0\n/dev/sdb1 /mnt/u ext4 rw 0 0\n";
    let drives = get_all_drives(table);
    assert_eq!(drives, vec!["/".to_owned(), "/mnt/u".to_owned()]);
}

#[test]
fn pseudo_prefixes_cover_subtrees() {
    let table = "x /proc/sys/fs x x 0 0\ny /run/user/1000 y y 0 0\nz /devices z z 0 0\n";
    let drives = get_all_drives(table);
    // /devices starts with the /dev prefix and is skipped; the table names
    // no real mount, so only the root remains
    assert_eq!(drives, vec!["/".to_owned()]);
}

#[test]
fn short_and_empty_lines_are_skipped() {
    let table = "\nlonefield\n/dev/sda1 /data ext4 rw 0 0\n";
    let drives = get_all_drives(table);
    assert_eq!(drives, vec!["/data".to_owned(), "/".to_owned()]);
}

#[test]
fn empty_mount_table_still_yields_root() {
    assert_eq!(get_all_drives(""), vec!["/".to_owned()]);
}

#[test]
fn formatted_sizes() {
    assert_eq!(format_file_size(0), "0 B");
    assert_eq!(format_file_size(512), "512 B");
    assert_eq!(format_file_size(1023), "1023 B");
    assert_eq!(format_file_size(1024), "1.0 KB");
    assert_eq!(format_file_size(1536), "1.5 KB");
    assert_eq!(format_file_size(10240), "10.0 KB");
    assert_eq!(format_file_size(1048576), "1.0 MB");
    assert_eq!(format_file_size(5 * 1048576 + 1048576 / 2), "5.5 MB");
    assert_eq!(format_file_size(1073741824), "1.0 GB");
    assert_eq!(format_file_size(3 * 1073741824 + 4 * 1073741824 / 10), "3.4 GB");
}
