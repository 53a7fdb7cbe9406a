//! The file analyzer: a pure function from a file's path and its OS-reported
//! attributes to a metadata record, built from a closed category mapping, a
//! small MIME table and a deterministic importance score.
use crate::catalog::{Category, FileMetadata};
use crate::text::{ascii_lower, chars_to_string, str_eq, string_to_chars, to_ascii_lowercase};
use vstd::prelude::*;

verus! {

/// The name after the last path separator; the whole path when it holds no
/// separator.
pub open spec fn base_name(path: Seq<char>) -> Seq<char>
    decreases path.len(),
{
    if path.len() == 0 {
        Seq::empty()
    } else if path.last() == '/' {
        Seq::empty()
    } else {
        base_name(path.drop_last()).push(path.last())
    }
}

/// The position of the last '.' in `name`, or -1 when there is none.
pub open spec fn last_dot(name: Seq<char>) -> int
    decreases name.len(),
{
    if name.len() == 0 {
        -1
    } else if name.last() == '.' {
        name.len() - 1
    } else {
        last_dot(name.drop_last())
    }
}

/// The extension of a file name: what follows the last '.', unless that dot
/// starts the name or there is no dot at all.
pub open spec fn extension_of(name: Seq<char>) -> Option<Seq<char>> {
    if last_dot(name) >= 1 {
        Some(name.subrange(last_dot(name) + 1, name.len() as int))
    } else {
        None
    }
}

/// The closed mapping from a lowercase extension (or the executable probe,
/// for extension-less files) to a category.
pub open spec fn spec_category(ext: Option<Seq<char>>, executable: bool) -> Category {
    match ext {
        Some(e) => {
            if e == "jpg"@ || e == "jpeg"@ || e == "png"@ || e == "gif"@ || e == "bmp"@ || e
                == "tiff"@ || e == "webp"@ || e == "heic"@ {
                Category::Image
            } else if e == "mp4"@ || e == "avi"@ || e == "mov"@ || e == "wmv"@ || e == "flv"@ || e
                == "mkv"@ || e == "webm"@ {
                Category::Video
            } else if e == "mp3"@ || e == "wav"@ || e == "ogg"@ || e == "flac"@ || e == "aac"@ || e
                == "m4a"@ {
                Category::Audio
            } else if e == "doc"@ || e == "docx"@ || e == "pdf"@ || e == "txt"@ || e == "rtf"@ || e
                == "odt"@ {
                Category::Document
            } else if e == "xls"@ || e == "xlsx"@ || e == "csv"@ || e == "ods"@ {
                Category::Spreadsheet
            } else if e == "ppt"@ || e == "pptx"@ || e == "odp"@ {
                Category::Presentation
            } else if e == "exe"@ || e == "app"@ || e == "dmg"@ || e == "deb"@ || e == "rpm"@ {
                Category::Application
            } else if e == "zip"@ || e == "rar"@ || e == "7z"@ || e == "tar"@ || e == "gz"@ {
                Category::Archive
            } else {
                Category::Other
            }
        },
        None => if executable {
            Category::Application
        } else {
            Category::Other
        },
    }
}

/// The fixed extension-to-MIME table; everything unmapped falls back to the
/// generic binary-stream type.
pub open spec fn spec_mime(ext: Option<Seq<char>>) -> Seq<char> {
    match ext {
        Some(e) => {
            if e == "jpg"@ || e == "jpeg"@ {
                "image/jpeg"@
            } else if e == "png"@ {
                "image/png"@
            } else if e == "pdf"@ {
                "application/pdf"@
            } else if e == "txt"@ {
                "text/plain"@
            } else {
                "application/octet-stream"@
            }
        },
        None => "application/octet-stream"@,
    }
}

/// Whole days between two Unix-second instants, truncated toward zero.
pub open spec fn days_between(now: i64, modified: i64) -> int {
    let diff = now - modified;
    if diff >= 0 {
        diff / 86400
    } else {
        -((-diff) / 86400)
    }
}

/// The recency bonus: +30 under 7 days since modification, +20 under 30,
/// +10 under 90, else nothing.
pub open spec fn recency_bonus(days: int) -> int {
    if days < 7 {
        30
    } else if days < 30 {
        20
    } else if days < 90 {
        10
    } else {
        0
    }
}

/// The category bonus of the importance score.
pub open spec fn category_bonus(c: Category) -> int {
    match c {
        Category::Document => 25,
        Category::Spreadsheet => 20,
        Category::Presentation => 20,
        Category::Image => 15,
        Category::Video => 15,
        Category::Audio => 10,
        Category::Application => 5,
        _ => 0,
    }
}

/// The importance score: recency bonus plus category bonus, clamped to
/// [0, 100].
pub open spec fn spec_importance_score(category: Category, modified: i64, now: i64) -> int {
    let raw = recency_bonus(days_between(now, modified)) + category_bonus(category);
    if raw > 100 {
        100
    } else {
        raw
    }
}

/// A separator-free suffix of `s` that follows either a '/' or the start of
/// the string is the base name.
proof fn lemma_base_name_suffix(s: Seq<char>, start: int)
    requires
        0 <= start <= s.len(),
        forall|k: int| start <= k < s.len() ==> s[k] != '/',
        start > 0 ==> s[start - 1] == '/',
    ensures
        base_name(s) == s.subrange(start, s.len() as int),
    decreases s.len() - start,
{
    if s.len() == start {
        if start == 0 {
            assert(base_name(s) =~= s.subrange(0, 0));
        } else {
            assert(s.last() == '/');
            assert(base_name(s) =~= s.subrange(start, s.len() as int));
        }
    } else {
        let d = s.drop_last();
        assert(s.last() != '/');
        assert(base_name(s) == base_name(d).push(s.last()));
        assert(forall|k: int| start <= k < d.len() ==> d[k] == s[k]);
        lemma_base_name_suffix(d, start);
        assert(base_name(s) =~= s.subrange(start, s.len() as int));
    }
}

/// A '.' at `j` with no later '.' is the last dot.
proof fn lemma_last_dot_at(s: Seq<char>, j: int)
    requires
        0 <= j < s.len(),
        s[j] == '.',
        forall|k: int| j < k < s.len() ==> s[k] != '.',
    ensures
        last_dot(s) == j,
    decreases s.len(),
{
    if j == s.len() - 1 {
    } else {
        assert(s.last() != '.');
        let d = s.drop_last();
        assert(forall|k: int| j < k < d.len() ==> d[k] != '.');
        lemma_last_dot_at(d, j);
    }
}

/// A string without any '.' has no last dot.
proof fn lemma_no_dot(s: Seq<char>)
    requires
        forall|k: int| 0 <= k < s.len() ==> s[k] != '.',
    ensures
        last_dot(s) == -1,
    decreases s.len(),
{
    if s.len() > 0 {
        lemma_no_dot(s.drop_last());
    }
}

/// The name after the last path separator of `path`.
pub fn split_base_name(path: &Vec<char>) -> (r: Vec<char>)
    ensures
        r@ == base_name(path@),
{
    let n: usize = path.len();
    let mut start: usize = n;
    while start > 0 && path[start - 1] != '/'
        invariant
            n == path@.len(),
            start <= n,
            forall|k: int| start <= k < n ==> path@[k] != '/',
        decreases start,
    {
        start = start - 1;
    }
    proof {
        lemma_base_name_suffix(path@, start as int);
    }
    let mut r: Vec<char> = Vec::new();
    let mut i: usize = start;
    while i < n
        invariant
            n == path@.len(),
            start <= i <= n,
            r@ == path@.subrange(start as int, i as int),
        decreases n - i,
    {
        r.push(path[i]);
        proof {
            assert(path@.subrange(start as int, (i + 1) as int) =~= path@.subrange(
                start as int,
                i as int,
            ).push(path@[i as int]));
        }
        i = i + 1;
    }
    r
}

/// The extension of the file name `name`, not yet lowercased.
pub fn split_extension(name: &Vec<char>) -> (r: Option<Vec<char>>)
    ensures
        match r {
            Some(e) => extension_of(name@) == Some(e@),
            None => extension_of(name@) is None,
        },
{
    let n: usize = name.len();
    let mut j: usize = n;
    while j > 0 && name[j - 1] != '.'
        invariant
            n == name@.len(),
            j <= n,
            forall|k: int| j <= k < n ==> name@[k] != '.',
        decreases j,
    {
        j = j - 1;
    }
    if j <= 1 {
        proof {
            if j == 0 {
                lemma_no_dot(name@);
            } else {
                if name@[0] == '.' {
                    lemma_last_dot_at(name@, 0);
                } else {
                    lemma_no_dot(name@);
                }
            }
        }
        return None;
    }
    proof {
        lemma_last_dot_at(name@, j - 1);
    }
    let mut r: Vec<char> = Vec::new();
    let mut i: usize = j;
    while i < n
        invariant
            n == name@.len(),
            j <= i <= n,
            r@ == name@.subrange(j as int, i as int),
        decreases n - i,
    {
        r.push(name[i]);
        proof {
            assert(name@.subrange(j as int, (i + 1) as int) =~= name@.subrange(
                j as int,
                i as int,
            ).push(name@[i as int]));
        }
        i = i + 1;
    }
    Some(r)
}

/// The lowercased extension of the file name `name`.
pub open spec fn lower_ext(name: Seq<char>) -> Option<Seq<char>> {
    match extension_of(name) {
        Some(e) => Some(ascii_lower(e)),
        None => None,
    }
}

/// The record the analyzer derives from one file's path and OS-reported
/// attributes, judged at instant `now`.
pub open spec fn spec_analyze(
    path: Seq<char>,
    size: u64,
    created: i64,
    modified: i64,
    executable: bool,
    now: i64,
) -> crate::catalog::MetaView {
    let name = base_name(path);
    let ext = lower_ext(name);
    crate::catalog::MetaView {
        path: path,
        file_name: name,
        extension: match ext {
            Some(e) => e,
            None => Seq::empty(),
        },
        size: size,
        created: created,
        modified: modified,
        category: spec_category(ext, executable),
        mime_type: spec_mime(ext),
        importance_score: spec_importance_score(
            spec_category(ext, executable),
            modified,
            now,
        ) as u8,
        last_accessed: modified,
        is_duplicate: false,
        duplicate_of: None,
        ai_analysis: None,
    }
}

/// Derives the metadata record of one file: category and MIME guess from the
/// lowercased extension, deterministic importance score, last access
/// initialized to the modification instant, duplicate fields cleared.
pub fn analyze_file(
    path: &str,
    size: u64,
    created: i64,
    modified: i64,
    executable: bool,
    now: i64,
) -> (m: FileMetadata)
    ensures
        m@ == spec_analyze(path@, size, created, modified, executable, now),
        m@.wf(),
{
    let cs = string_to_chars(path);
    let name = split_base_name(&cs);
    let extension: Option<String> = match split_extension(&name) {
        Some(e) => Some(to_ascii_lowercase(chars_to_string(&e).as_str())),
        None => None,
    };
    let category = determine_file_category(&extension, executable);
    let mime_type = get_mime_type(&extension);
    let importance_score = calculate_importance_score(category, modified, now);
    let file_name = chars_to_string(&name);
    let ext_field: String = match extension {
        Some(ref e) => e.clone(),
        None => String::new(),
    };
    FileMetadata {
        path: path.to_owned(),
        file_name,
        extension: ext_field,
        size,
        created,
        modified,
        category,
        mime_type,
        importance_score,
        last_accessed: modified,
        is_duplicate: false,
        duplicate_of: None,
        ai_analysis: None,
    }
}

/// Is a file small enough and of a text-based kind, so that the external
/// analysis collaborator may be consulted about it?  The extension is the
/// file's lowercased extension.
pub open spec fn spec_analyzable(size: u64, ext: Option<Seq<char>>) -> bool {
    &&& size <= 1000000
    &&& match ext {
        Some(e) => e == "txt"@ || e == "md"@ || e == "json"@ || e == "csv"@ || e == "xml"@ || e
            == "html"@ || e == "htm"@ || e == "css"@ || e == "js"@ || e == "py"@ || e == "rs"@ || e
            == "java"@ || e == "c"@ || e == "cpp"@ || e == "h"@ || e == "hpp"@ || e == "sh"@ || e
            == "bat"@ || e == "ps1"@ || e == "log"@ || e == "conf"@ || e == "ini"@ || e == "yaml"@
            || e == "yml"@ || e == "toml"@,
        None => false,
    }
}

/// Guards the external analysis collaborator: files above the size bound or
/// of a non-text kind are never sent to it.
pub fn is_analyzable(size: u64, extension: &Option<String>) -> (r: bool)
    ensures
        r == spec_analyzable(
            size,
            match extension {
                Some(e) => Some(e@),
                None => None,
            },
        ),
{
    if size > 1000000 {
        return false;
    }
    match extension {
        Some(ext) => {
            let e = ext.as_str();
            str_eq(e, "txt") || str_eq(e, "md") || str_eq(e, "json") || str_eq(e, "csv") || str_eq(
                e,
                "xml",
            ) || str_eq(e, "html") || str_eq(e, "htm") || str_eq(e, "css") || str_eq(e, "js")
                || str_eq(e, "py") || str_eq(e, "rs") || str_eq(e, "java") || str_eq(e, "c")
                || str_eq(e, "cpp") || str_eq(e, "h") || str_eq(e, "hpp") || str_eq(e, "sh")
                || str_eq(e, "bat") || str_eq(e, "ps1") || str_eq(e, "log") || str_eq(e, "conf")
                || str_eq(e, "ini") || str_eq(e, "yaml") || str_eq(e, "yml") || str_eq(e, "toml")
        },
        None => false,
    }
}

/// The decision in front of the collaborator call: it may only be consulted
/// when the configuration enables it and the file is small and text-based.
pub fn should_analyze_with_ai(use_ai_analysis: bool, size: u64, extension: &Option<String>) -> (r:
    bool)
    ensures
        r == (use_ai_analysis && spec_analyzable(
            size,
            match extension {
                Some(e) => Some(e@),
                None => None,
            },
        )),
{
    use_ai_analysis && is_analyzable(size, extension)
}

/// No combination of recency and category bonuses ever yields a score
/// outside [0, 100].
pub proof fn lemma_score_in_range(category: Category, modified: i64, now: i64)
    ensures
        0 <= spec_importance_score(category, modified, now) <= 100,
{
}

/// Does the POSIX permission word grant execute to anyone?
pub fn is_executable_mode(mode: u32) -> (r: bool)
    ensures
        r == ((mode & 0o111) != 0),
{
    mode & 0o111 != 0
}

/// Maps a lowercase extension (or, for extension-less files, the executable
/// probe) to the closed category set.
pub fn determine_file_category(extension: &Option<String>, executable: bool) -> (c: Category)
    ensures
        c == spec_category(
            match extension {
                Some(e) => Some(e@),
                None => None,
            },
            executable,
        ),
{
    match extension {
        Some(ext) => {
            let e = ext.as_str();
            if str_eq(e, "jpg") || str_eq(e, "jpeg") || str_eq(e, "png") || str_eq(e, "gif")
                || str_eq(e, "bmp") || str_eq(e, "tiff") || str_eq(e, "webp") || str_eq(e, "heic") {
                Category::Image
            } else if str_eq(e, "mp4") || str_eq(e, "avi") || str_eq(e, "mov") || str_eq(e, "wmv")
                || str_eq(e, "flv") || str_eq(e, "mkv") || str_eq(e, "webm") {
                Category::Video
            } else if str_eq(e, "mp3") || str_eq(e, "wav") || str_eq(e, "ogg") || str_eq(e, "flac")
                || str_eq(e, "aac") || str_eq(e, "m4a") {
                Category::Audio
            } else if str_eq(e, "doc") || str_eq(e, "docx") || str_eq(e, "pdf") || str_eq(e, "txt")
                || str_eq(e, "rtf") || str_eq(e, "odt") {
                Category::Document
            } else if str_eq(e, "xls") || str_eq(e, "xlsx") || str_eq(e, "csv") || str_eq(
                e,
                "ods",
            ) {
                Category::Spreadsheet
            } else if str_eq(e, "ppt") || str_eq(e, "pptx") || str_eq(e, "odp") {
                Category::Presentation
            } else if str_eq(e, "exe") || str_eq(e, "app") || str_eq(e, "dmg") || str_eq(e, "deb")
                || str_eq(e, "rpm") {
                Category::Application
            } else if str_eq(e, "zip") || str_eq(e, "rar") || str_eq(e, "7z") || str_eq(e, "tar")
                || str_eq(e, "gz") {
                Category::Archive
            } else {
                Category::Other
            }
        },
        None => if executable {
            Category::Application
        } else {
            Category::Other
        },
    }
}

/// Looks a lowercase extension up in the fixed MIME table.
pub fn get_mime_type(extension: &Option<String>) -> (r: String)
    ensures
        r@ == spec_mime(
            match extension {
                Some(e) => Some(e@),
                None => None,
            },
        ),
{
    match extension {
        Some(ext) => {
            let e = ext.as_str();
            if str_eq(e, "jpg") || str_eq(e, "jpeg") {
                "image/jpeg".to_owned()
            } else if str_eq(e, "png") {
                "image/png".to_owned()
            } else if str_eq(e, "pdf") {
                "application/pdf".to_owned()
            } else if str_eq(e, "txt") {
                "text/plain".to_owned()
            } else {
                "application/octet-stream".to_owned()
            }
        },
        None => "application/octet-stream".to_owned(),
    }
}

/// The deterministic importance score of a file of the given category whose
/// modification instant is `modified`, judged at instant `now`.
pub fn calculate_importance_score(category: Category, modified: i64, now: i64) -> (s: u8)
    ensures
        s as int == spec_importance_score(category, modified, now),
        s <= 100,
{
    let diff: i128 = (now as i128) - (modified as i128);
    let days: i128 = if diff >= 0 {
        diff / 86400
    } else {
        -((-diff) / 86400)
    };
    let mut score: u8 = 0;
    if days < 7 {
        score = 30;
    } else if days < 30 {
        score = 20;
    } else if days < 90 {
        score = 10;
    }
    score = score + match category {
        Category::Document => 25,
        Category::Spreadsheet => 20,
        Category::Presentation => 20,
        Category::Image => 15,
        Category::Video => 15,
        Category::Audio => 10,
        Category::Application => 5,
        _ => 0,
    };
    if score > 100 {
        100
    } else {
        score
    }
}

} // verus!
