//! The on-disk JSON format of the catalog: one chunk file is an object
//! mapping each record's path to the record, with timestamps as Unix-second
//! integers.  The serializer emits a compact canonical form; the parser also
//! accepts the whitespace a pretty printer inserts.  Parsing a serialized
//! chunk is proved to yield the records back.
use crate::catalog::{AiAnalysis, AiView, Category, FileMetadata, MetaView};
use crate::json::{
    digit_char, digit_val, is_digit, is_ws, parse_i64_at, parse_jstring, parse_lit, parse_udec,
    ser_i64, ser_jstring, ser_udec, skip_ws,
};
use vstd::prelude::*;

verus! {

// ----------------------------------------------------------------- categories
/// The stored name of each category.
pub open spec fn name_of_category(c: Category) -> Seq<char> {
    match c {
        Category::Image => "image"@,
        Category::Video => "video"@,
        Category::Audio => "audio"@,
        Category::Document => "document"@,
        Category::Spreadsheet => "spreadsheet"@,
        Category::Presentation => "presentation"@,
        Category::Application => "application"@,
        Category::Archive => "archive"@,
        Category::Other => "other"@,
    }
}

/// The category a stored name denotes, if any.
pub open spec fn category_of_name(s: Seq<char>) -> Option<Category> {
    if s == "image"@ {
        Some(Category::Image)
    } else if s == "video"@ {
        Some(Category::Video)
    } else if s == "audio"@ {
        Some(Category::Audio)
    } else if s == "document"@ {
        Some(Category::Document)
    } else if s == "spreadsheet"@ {
        Some(Category::Spreadsheet)
    } else if s == "presentation"@ {
        Some(Category::Presentation)
    } else if s == "application"@ {
        Some(Category::Application)
    } else if s == "archive"@ {
        Some(Category::Archive)
    } else if s == "other"@ {
        Some(Category::Other)
    } else {
        None
    }
}

/// Category names round-trip through their stored form.
pub proof fn lemma_category_name(c: Category)
    ensures
        category_of_name(name_of_category(c)) == Some(c),
{
    reveal_strlit("image");
    reveal_strlit("video");
    reveal_strlit("audio");
    reveal_strlit("document");
    reveal_strlit("spreadsheet");
    reveal_strlit("presentation");
    reveal_strlit("application");
    reveal_strlit("archive");
    reveal_strlit("other");
    match c {
        Category::Image => {
        },
        Category::Video => {
            assert("video"@ != "image"@) by {
                assert("video"@[0] != "image"@[0]);
            }
        },
        Category::Audio => {
            assert("audio"@ != "image"@) by {
                assert("audio"@[0] != "image"@[0]);
            }
            assert("audio"@ != "video"@) by {
                assert("audio"@[0] != "video"@[0]);
            }
        },
        Category::Document => {
            assert("document"@ != "image"@) by {
                assert("document"@[0] != "image"@[0]);
            }
            assert("document"@ != "video"@) by {
                assert("document"@[0] != "video"@[0]);
            }
            assert("document"@ != "audio"@) by {
                assert("document"@[0] != "audio"@[0]);
            }
        },
        Category::Spreadsheet => {
            assert("spreadsheet"@ != "image"@) by {
                assert("spreadsheet"@[0] != "image"@[0]);
            }
            assert("spreadsheet"@ != "video"@) by {
                assert("spreadsheet"@[0] != "video"@[0]);
            }
            assert("spreadsheet"@ != "audio"@) by {
                assert("spreadsheet"@[0] != "audio"@[0]);
            }
            assert("spreadsheet"@ != "document"@) by {
                assert("spreadsheet"@[0] != "document"@[0]);
            }
        },
        Category::Presentation => {
            assert("presentation"@ != "image"@) by {
                assert("presentation"@[0] != "image"@[0]);
            }
            assert("presentation"@ != "video"@) by {
                assert("presentation"@[0] != "video"@[0]);
            }
            assert("presentation"@ != "audio"@) by {
                assert("presentation"@[0] != "audio"@[0]);
            }
            assert("presentation"@ != "document"@) by {
                assert("presentation"@[0] != "document"@[0]);
            }
            assert("presentation"@ != "spreadsheet"@) by {
                assert("presentation"@[0] != "spreadsheet"@[0]);
            }
        },
        Category::Application => {
            assert("application"@ != "image"@) by {
                assert("application"@[0] != "image"@[0]);
            }
            assert("application"@ != "video"@) by {
                assert("application"@[0] != "video"@[0]);
            }
            assert("application"@ != "audio"@) by {
                assert("application"@[1] != "audio"@[1]);
            }
            assert("application"@ != "document"@) by {
                assert("application"@[0] != "document"@[0]);
            }
            assert("application"@ != "spreadsheet"@) by {
                assert("application"@[0] != "spreadsheet"@[0]);
            }
            assert("application"@ != "presentation"@) by {
                assert("application"@[0] != "presentation"@[0]);
            }
        },
        Category::Archive => {
            assert("archive"@ != "image"@) by {
                assert("archive"@[0] != "image"@[0]);
            }
            assert("archive"@ != "video"@) by {
                assert("archive"@[0] != "video"@[0]);
            }
            assert("archive"@ != "audio"@) by {
                assert("archive"@[1] != "audio"@[1]);
            }
            assert("archive"@ != "document"@) by {
                assert("archive"@[0] != "document"@[0]);
            }
            assert("archive"@ != "spreadsheet"@) by {
                assert("archive"@[0] != "spreadsheet"@[0]);
            }
            assert("archive"@ != "presentation"@) by {
                assert("archive"@[0] != "presentation"@[0]);
            }
            assert("archive"@ != "application"@) by {
                assert("archive"@[1] != "application"@[1]);
            }
        },
        Category::Other => {
            assert("other"@ != "image"@) by {
                assert("other"@[0] != "image"@[0]);
            }
            assert("other"@ != "video"@) by {
                assert("other"@[0] != "video"@[0]);
            }
            assert("other"@ != "audio"@) by {
                assert("other"@[0] != "audio"@[0]);
            }
            assert("other"@ != "document"@) by {
                assert("other"@[0] != "document"@[0]);
            }
            assert("other"@ != "spreadsheet"@) by {
                assert("other"@[0] != "spreadsheet"@[0]);
            }
            assert("other"@ != "presentation"@) by {
                assert("other"@[0] != "presentation"@[0]);
            }
            assert("other"@ != "application"@) by {
                assert("other"@[0] != "application"@[0]);
            }
            assert("other"@ != "archive"@) by {
                assert("other"@[0] != "archive"@[0]);
            }
        },
    }
}

// ----------------------------------------------------------------- booleans
pub open spec fn ser_bool(b: bool) -> Seq<char> {
    if b {
        "true"@
    } else {
        "false"@
    }
}

pub open spec fn parse_bool_at(s: Seq<char>, i: int) -> Option<(bool, int)> {
    match parse_lit(s, i, "true"@) {
        Some(j) => Some((true, j)),
        None => match parse_lit(s, i, "false"@) {
            Some(j) => Some((false, j)),
            None => None,
        },
    }
}

pub proof fn lemma_parse_ser_bool(s: Seq<char>, i: int, b: bool)
    requires
        0 <= i,
        i + ser_bool(b).len() <= s.len(),
        s.subrange(i, i + ser_bool(b).len()) == ser_bool(b),
    ensures
        parse_bool_at(s, i) == Some((b, i + ser_bool(b).len())),
{
    reveal_strlit("true");
    reveal_strlit("false");
    if b {
        assert(parse_lit(s, i, "true"@) == Some(i + 4));
    } else {
        assert(s[i] == "false"@[0]);
        if i + 4 <= s.len() && s.subrange(i, i + 4) == "true"@ {
            assert(s.subrange(i, i + 4)[0] == 't');
            assert(false);
        }
        assert(parse_lit(s, i, "true"@) is None);
        assert(parse_lit(s, i, "false"@) == Some(i + 5));
    }
}

// --------------------------------------------------------------- confidence
/// The stored decimal form of a confidence kept in hundredths: `1.0` for a
/// full hundred, else `0.` and two digits.
pub open spec fn ser_conf(c: u8) -> Seq<char> {
    if c == 100 {
        seq!['1', '.', '0']
    } else {
        seq!['0', '.', digit_char(c as int / 10), digit_char(c as int % 10)]
    }
}

/// The first position at or after `i` holding no digit.
pub open spec fn skip_digits(s: Seq<char>, i: int) -> int
    decreases s.len() - i,
{
    if 0 <= i < s.len() && is_digit(s[i]) {
        skip_digits(s, i + 1)
    } else {
        i
    }
}

/// A confidence: `0` or `1`, a point, and digits, of which the first two
/// are kept as hundredths and the rest ignored; values above one hundred
/// hundredths are refused.
pub open spec fn parse_conf_at(s: Seq<char>, i: int) -> Option<(u8, int)> {
    if !(0 <= i && i + 3 <= s.len()) {
        None
    } else if !(s[i] == '0' || s[i] == '1') {
        None
    } else if s[i + 1] != '.' {
        None
    } else if !is_digit(s[i + 2]) {
        None
    } else {
        let d1 = digit_val(s[i + 2]);
        let d2 = if i + 3 < s.len() && is_digit(s[i + 3]) {
            digit_val(s[i + 3])
        } else {
            0
        };
        let v = if s[i] == '1' {
            100 + d1 * 10 + d2
        } else {
            d1 * 10 + d2
        };
        if v <= 100 {
            Some((v as u8, skip_digits(s, i + 2)))
        } else {
            None
        }
    }
}

pub proof fn lemma_parse_ser_conf(s: Seq<char>, i: int, c: u8)
    requires
        0 <= i,
        c <= 100,
        i + ser_conf(c).len() <= s.len(),
        s.subrange(i, i + ser_conf(c).len()) == ser_conf(c),
        i + ser_conf(c).len() == s.len() || !is_digit(s[i + ser_conf(c).len()]),
    ensures
        parse_conf_at(s, i) == Some((c, i + ser_conf(c).len())),
{
    let w = ser_conf(c);
    assert(s[i] == w[0]);
    assert(s[i + 1] == w[1]);
    assert(s[i + 2] == w[2]);
    if c == 100 {
        assert(s[i] == '1');
        assert(is_digit(s[i + 2]) && digit_val(s[i + 2]) == 0);
        assert(i + 3 == s.len() || !is_digit(s[i + 3]));
        assert(skip_digits(s, i + 3) == i + 3);
        assert(skip_digits(s, i + 2) == i + 3);
    } else {
        assert(s[i] == '0');
        assert(s[i + 3] == w[3]);
        assert(is_digit(s[i + 2]) && digit_val(s[i + 2]) == c as int / 10);
        assert(is_digit(s[i + 3]) && digit_val(s[i + 3]) == c as int % 10);
        assert(i + 4 == s.len() || !is_digit(s[i + 4]));
        assert(skip_digits(s, i + 4) == i + 4);
        assert(skip_digits(s, i + 3) == i + 4);
        assert(skip_digits(s, i + 2) == i + 4);
    }
}

// --------------------------------------------------------- optional strings
/// A path reference that may be absent: `null`, or a JSON string.
pub open spec fn ser_optstr(v: Option<Seq<char>>) -> Seq<char> {
    match v {
        None => "null"@,
        Some(p) => ser_jstring(p),
    }
}

pub open spec fn parse_optstr_at(s: Seq<char>, i: int) -> Option<(Option<Seq<char>>, int)> {
    match parse_lit(s, i, "null"@) {
        Some(j) => Some((None, j)),
        None => match parse_jstring(s, i) {
            Some((p, j)) => Some((Some(p), j)),
            None => None,
        },
    }
}

pub proof fn lemma_parse_ser_optstr(s: Seq<char>, i: int, v: Option<Seq<char>>)
    requires
        0 <= i,
        i + ser_optstr(v).len() <= s.len(),
        s.subrange(i, i + ser_optstr(v).len()) == ser_optstr(v),
    ensures
        parse_optstr_at(s, i) == Some((v, i + ser_optstr(v).len())),
{
    reveal_strlit("null");
    match v {
        None => {
            assert(parse_lit(s, i, "null"@) == Some(i + 4));
        },
        Some(p) => {
            assert(s[i] == ser_jstring(p)[0]);
            assert(s[i] == '"');
            if i + 4 <= s.len() && s.subrange(i, i + 4) == "null"@ {
                assert(s.subrange(i, i + 4)[0] == 'n');
                assert(false);
            }
            assert(parse_lit(s, i, "null"@) is None);
            crate::json::lemma_parse_ser_jstring(s, i, p);
        },
    }
}

// ------------------------------------------------------------- object keys
/// Skips whitespace, expects the quoted key text with its colon, and skips
/// whitespace after it, arriving at the value.
pub open spec fn parse_kc(s: Seq<char>, i: int, kc: Seq<char>) -> Option<int> {
    match parse_lit(s, skip_ws(s, i), kc) {
        Some(j) => Some(skip_ws(s, j)),
        None => None,
    }
}

/// In the canonical compact form, a key followed directly by its value is
/// parsed without motion from whitespace.
pub proof fn lemma_parse_kc(s: Seq<char>, i: int, kc: Seq<char>)
    requires
        0 <= i,
        i + kc.len() <= s.len(),
        s.subrange(i, i + kc.len()) == kc,
        kc.len() > 0,
        !is_ws(kc[0]),
        i + kc.len() == s.len() || !is_ws(s[i + kc.len()]),
    ensures
        parse_kc(s, i, kc) == Some(i + kc.len()),
{
    assert(s[i] == kc[0]);
    assert(skip_ws(s, i) == i);
    assert(parse_lit(s, i, kc) == Some(i + kc.len()));
    assert(skip_ws(s, i + kc.len()) == i + kc.len());
}

// ---------------------------------------------------------- region splitting
/// A region known to hold `a + b` holds `a` and then `b`.
pub proof fn lemma_split(s: Seq<char>, i: int, a: Seq<char>, b: Seq<char>)
    requires
        0 <= i,
        i + a.len() + b.len() <= s.len(),
        s.subrange(i, i + a.len() + b.len()) == a + b,
    ensures
        s.subrange(i, i + a.len()) == a,
        s.subrange(i + a.len(), i + a.len() + b.len()) == b,
{
    let w = a + b;
    assert forall|k: int| 0 <= k < a.len() implies s.subrange(i, i + a.len())[k] == a[k] by {
        assert(s[i + k] == w[k]);
    }
    assert(s.subrange(i, i + a.len()) =~= a);
    assert forall|k: int| 0 <= k < b.len() implies s.subrange(
        i + a.len(),
        i + a.len() + b.len(),
    )[k] == b[k] by {
        assert(s[i + a.len() + k] == w[a.len() + k]);
    }
    assert(s.subrange(i + a.len(), i + a.len() + b.len()) =~= b);
}

// ------------------------------------------------------------ object members
/// A separating comma, with the whitespace a pretty printer puts before it.
pub open spec fn parse_comma(s: Seq<char>, i: int) -> Option<int> {
    parse_lit(s, skip_ws(s, i), seq![','])
}

/// A closing brace, with the whitespace a pretty printer puts before it.
pub open spec fn parse_close(s: Seq<char>, i: int) -> Option<int> {
    parse_lit(s, skip_ws(s, i), seq!['}'])
}

pub open spec fn parse_member_str(s: Seq<char>, i: int, kc: Seq<char>) -> Option<(Seq<char>, int)> {
    match parse_kc(s, i, kc) {
        Some(j) => parse_jstring(s, j),
        None => None,
    }
}

pub open spec fn parse_member_u64(s: Seq<char>, i: int, kc: Seq<char>) -> Option<(u64, int)> {
    match parse_kc(s, i, kc) {
        Some(j) => parse_udec(s, j),
        None => None,
    }
}

pub open spec fn parse_member_u8(s: Seq<char>, i: int, kc: Seq<char>) -> Option<(u8, int)> {
    match parse_member_u64(s, i, kc) {
        Some((v, j)) => if v <= 255 {
            Some((v as u8, j))
        } else {
            None
        },
        None => None,
    }
}

pub open spec fn parse_member_i64(s: Seq<char>, i: int, kc: Seq<char>) -> Option<(i64, int)> {
    match parse_kc(s, i, kc) {
        Some(j) => parse_i64_at(s, j),
        None => None,
    }
}

pub open spec fn parse_member_bool(s: Seq<char>, i: int, kc: Seq<char>) -> Option<(bool, int)> {
    match parse_kc(s, i, kc) {
        Some(j) => parse_bool_at(s, j),
        None => None,
    }
}

pub open spec fn parse_member_optstr(s: Seq<char>, i: int, kc: Seq<char>) -> Option<
    (Option<Seq<char>>, int),
> {
    match parse_kc(s, i, kc) {
        Some(j) => parse_optstr_at(s, j),
        None => None,
    }
}

pub open spec fn parse_member_conf(s: Seq<char>, i: int, kc: Seq<char>) -> Option<(u8, int)> {
    match parse_kc(s, i, kc) {
        Some(j) => parse_conf_at(s, j),
        None => None,
    }
}

pub open spec fn parse_member_cat(s: Seq<char>, i: int, kc: Seq<char>) -> Option<(Category, int)> {
    match parse_member_str(s, i, kc) {
        Some((nm, j)) => match category_of_name(nm) {
            Some(c) => Some((c, j)),
            None => None,
        },
        None => None,
    }
}

// -------------------------------------------------------- member round trips
proof fn lemma_comma_at(s: Seq<char>, i: int)
    requires
        0 <= i < s.len(),
        s[i] == ',',
    ensures
        parse_comma(s, i) == Some(i + 1),
{
    assert(skip_ws(s, i) == i);
    assert(s.subrange(i, i + 1) =~= seq![',']);
}

proof fn lemma_close_at(s: Seq<char>, i: int)
    requires
        0 <= i < s.len(),
        s[i] == '}',
    ensures
        parse_close(s, i) == Some(i + 1),
{
    assert(skip_ws(s, i) == i);
    assert(s.subrange(i, i + 1) =~= seq!['}']);
}

proof fn lemma_member_str(s: Seq<char>, i: int, kc: Seq<char>, v: Seq<char>)
    requires
        0 <= i,
        kc.len() > 0,
        kc[0] == '"',
        i + kc.len() + ser_jstring(v).len() <= s.len(),
        s.subrange(i, i + kc.len() + ser_jstring(v).len()) == kc + ser_jstring(v),
    ensures
        parse_member_str(s, i, kc) == Some((v, i + kc.len() + ser_jstring(v).len())),
{
    lemma_split(s, i, kc, ser_jstring(v));
    let p = i + kc.len();
    assert(s[p] == s.subrange(p, p + ser_jstring(v).len())[0]);
    assert(s[p] == '"');
    lemma_parse_kc(s, i, kc);
    crate::json::lemma_parse_ser_jstring(s, p, v);
}

proof fn lemma_member_u64(s: Seq<char>, i: int, kc: Seq<char>, n: u64)
    requires
        0 <= i,
        kc.len() > 0,
        kc[0] == '"',
        i + kc.len() + ser_udec(n as int).len() <= s.len(),
        s.subrange(i, i + kc.len() + ser_udec(n as int).len()) == kc + ser_udec(n as int),
        i + kc.len() + ser_udec(n as int).len() == s.len() || !is_digit(
            s[i + kc.len() + ser_udec(n as int).len()],
        ),
    ensures
        parse_member_u64(s, i, kc) == Some((n, i + kc.len() + ser_udec(n as int).len())),
{
    lemma_split(s, i, kc, ser_udec(n as int));
    let p = i + kc.len();
    crate::json::lemma_ser_udec_first_digit(n as int);
    assert(s[p] == s.subrange(p, p + ser_udec(n as int).len())[0]);
    assert(!is_ws(s[p]));
    lemma_parse_kc(s, i, kc);
    crate::json::lemma_parse_ser_udec(s, p, n);
}

proof fn lemma_member_u8(s: Seq<char>, i: int, kc: Seq<char>, n: u8)
    requires
        0 <= i,
        kc.len() > 0,
        kc[0] == '"',
        i + kc.len() + ser_udec(n as int).len() <= s.len(),
        s.subrange(i, i + kc.len() + ser_udec(n as int).len()) == kc + ser_udec(n as int),
        i + kc.len() + ser_udec(n as int).len() == s.len() || !is_digit(
            s[i + kc.len() + ser_udec(n as int).len()],
        ),
    ensures
        parse_member_u8(s, i, kc) == Some((n, i + kc.len() + ser_udec(n as int).len())),
{
    lemma_member_u64(s, i, kc, n as u64);
}

proof fn lemma_member_i64(s: Seq<char>, i: int, kc: Seq<char>, n: i64)
    requires
        0 <= i,
        kc.len() > 0,
        kc[0] == '"',
        i + kc.len() + ser_i64(n).len() <= s.len(),
        s.subrange(i, i + kc.len() + ser_i64(n).len()) == kc + ser_i64(n),
        i + kc.len() + ser_i64(n).len() == s.len() || !is_digit(s[i + kc.len() + ser_i64(n).len()]),
    ensures
        parse_member_i64(s, i, kc) == Some((n, i + kc.len() + ser_i64(n).len())),
{
    lemma_split(s, i, kc, ser_i64(n));
    let p = i + kc.len();
    assert(s[p] == s.subrange(p, p + ser_i64(n).len())[0]);
    if n >= 0 {
        crate::json::lemma_ser_udec_first_digit(n as int);
        assert(s[p] == ser_udec(n as int)[0]);
        assert(!is_ws(s[p]));
    } else {
        assert(s[p] == (seq!['-'] + ser_udec(-(n as int)))[0]);
        assert(s[p] == '-');
    }
    lemma_parse_kc(s, i, kc);
    crate::json::lemma_parse_ser_i64(s, p, n);
}

proof fn lemma_member_bool(s: Seq<char>, i: int, kc: Seq<char>, b: bool)
    requires
        0 <= i,
        kc.len() > 0,
        kc[0] == '"',
        i + kc.len() + ser_bool(b).len() <= s.len(),
        s.subrange(i, i + kc.len() + ser_bool(b).len()) == kc + ser_bool(b),
    ensures
        parse_member_bool(s, i, kc) == Some((b, i + kc.len() + ser_bool(b).len())),
{
    reveal_strlit("true");
    reveal_strlit("false");
    lemma_split(s, i, kc, ser_bool(b));
    let p = i + kc.len();
    assert(s[p] == s.subrange(p, p + ser_bool(b).len())[0]);
    assert(!is_ws(s[p]));
    lemma_parse_kc(s, i, kc);
    lemma_parse_ser_bool(s, p, b);
}

proof fn lemma_member_optstr(s: Seq<char>, i: int, kc: Seq<char>, v: Option<Seq<char>>)
    requires
        0 <= i,
        kc.len() > 0,
        kc[0] == '"',
        i + kc.len() + ser_optstr(v).len() <= s.len(),
        s.subrange(i, i + kc.len() + ser_optstr(v).len()) == kc + ser_optstr(v),
    ensures
        parse_member_optstr(s, i, kc) == Some((v, i + kc.len() + ser_optstr(v).len())),
{
    reveal_strlit("null");
    lemma_split(s, i, kc, ser_optstr(v));
    let p = i + kc.len();
    assert(s[p] == s.subrange(p, p + ser_optstr(v).len())[0]);
    assert(!is_ws(s[p]));
    lemma_parse_kc(s, i, kc);
    lemma_parse_ser_optstr(s, p, v);
}

proof fn lemma_member_conf(s: Seq<char>, i: int, kc: Seq<char>, c: u8)
    requires
        0 <= i,
        c <= 100,
        kc.len() > 0,
        kc[0] == '"',
        i + kc.len() + ser_conf(c).len() <= s.len(),
        s.subrange(i, i + kc.len() + ser_conf(c).len()) == kc + ser_conf(c),
        i + kc.len() + ser_conf(c).len() == s.len() || !is_digit(
            s[i + kc.len() + ser_conf(c).len()],
        ),
    ensures
        parse_member_conf(s, i, kc) == Some((c, i + kc.len() + ser_conf(c).len())),
{
    lemma_split(s, i, kc, ser_conf(c));
    let p = i + kc.len();
    assert(s[p] == s.subrange(p, p + ser_conf(c).len())[0]);
    assert(!is_ws(s[p]));
    lemma_parse_kc(s, i, kc);
    lemma_parse_ser_conf(s, p, c);
}

proof fn lemma_member_cat(s: Seq<char>, i: int, kc: Seq<char>, c: Category)
    requires
        0 <= i,
        kc.len() > 0,
        kc[0] == '"',
        i + kc.len() + ser_jstring(name_of_category(c)).len() <= s.len(),
        s.subrange(i, i + kc.len() + ser_jstring(name_of_category(c)).len()) == kc + ser_jstring(
            name_of_category(c),
        ),
    ensures
        parse_member_cat(s, i, kc) == Some(
            (c, i + kc.len() + ser_jstring(name_of_category(c)).len()),
        ),
{
    lemma_member_str(s, i, kc, name_of_category(c));
    lemma_category_name(c);
}

// --------------------------------------------------------- enrichment object
/// The stored form of an enrichment record.
pub open spec fn ser_ai(a: AiView) -> Seq<char> {
    seq!['{'] + "\"file_purpose\":"@ + ser_jstring(a.file_purpose) + seq![',']
        + "\"importance_level\":"@ + ser_jstring(a.importance_level) + seq![',']
        + "\"potential_category\":"@ + ser_jstring(a.potential_category) + seq![',']
        + "\"deletion_recommendation\":"@ + ser_bool(a.deletion_recommendation) + seq![',']
        + "\"confidence_score\":"@ + ser_conf(a.confidence_centi) + seq!['}']
}

pub open spec fn parse_ai_at(s: Seq<char>, i: int) -> Option<(AiView, int)> {
    match parse_lit(s, i, seq!['{']) {
        Some(j0) => match parse_member_str(s, j0, "\"file_purpose\":"@) {
            Some((fp, ja)) => match parse_comma(s, ja) {
                Some(j1) => match parse_member_str(s, j1, "\"importance_level\":"@) {
                    Some((il, jb)) => match parse_comma(s, jb) {
                        Some(j2) => match parse_member_str(s, j2, "\"potential_category\":"@) {
                            Some((pc, jc)) => match parse_comma(s, jc) {
                                Some(j3) => match parse_member_bool(
                                    s,
                                    j3,
                                    "\"deletion_recommendation\":"@,
                                ) {
                                    Some((dr, jd)) => match parse_comma(s, jd) {
                                        Some(j4) => match parse_member_conf(
                                            s,
                                            j4,
                                            "\"confidence_score\":"@,
                                        ) {
                                            Some((cs, je)) => match parse_close(s, je) {
                                                Some(jf) => Some(
                                                    (
                                                        AiView {
                                                            file_purpose: fp,
                                                            importance_level: il,
                                                            potential_category: pc,
                                                            deletion_recommendation: dr,
                                                            confidence_centi: cs,
                                                        },
                                                        jf,
                                                    ),
                                                ),
                                                None => None,
                                            },
                                            None => None,
                                        },
                                        None => None,
                                    },
                                    None => None,
                                },
                                None => None,
                            },
                            None => None,
                        },
                        None => None,
                    },
                    None => None,
                },
                None => None,
            },
            None => None,
        },
        None => None,
    }
}

/// The stored form of an enrichment that may be absent.
pub open spec fn ser_optai(v: Option<AiView>) -> Seq<char> {
    match v {
        None => "null"@,
        Some(a) => ser_ai(a),
    }
}

pub open spec fn parse_optai_at(s: Seq<char>, i: int) -> Option<(Option<AiView>, int)> {
    match parse_lit(s, i, "null"@) {
        Some(j) => Some((None, j)),
        None => match parse_ai_at(s, i) {
            Some((a, j)) => Some((Some(a), j)),
            None => None,
        },
    }
}

pub open spec fn parse_member_optai(s: Seq<char>, i: int, kc: Seq<char>) -> Option<
    (Option<AiView>, int),
> {
    match parse_kc(s, i, kc) {
        Some(j) => parse_optai_at(s, j),
        None => None,
    }
}

#[verifier::rlimit(100)]
proof fn lemma_parse_ser_ai(s: Seq<char>, i: int, a: AiView)
    requires
        0 <= i,
        a.confidence_centi <= 100,
        i + ser_ai(a).len() <= s.len(),
        s.subrange(i, i + ser_ai(a).len()) == ser_ai(a),
    ensures
        parse_ai_at(s, i) == Some((a, i + ser_ai(a).len())),
{
    reveal_strlit("\"file_purpose\":");
    reveal_strlit("\"importance_level\":");
    reveal_strlit("\"potential_category\":");
    reveal_strlit("\"deletion_recommendation\":");
    reveal_strlit("\"confidence_score\":");
    let w = ser_ai(a);
    let m1 = "\"file_purpose\":"@ + ser_jstring(a.file_purpose);
    let m2 = "\"importance_level\":"@ + ser_jstring(a.importance_level);
    let m3 = "\"potential_category\":"@ + ser_jstring(a.potential_category);
    let m4 = "\"deletion_recommendation\":"@ + ser_bool(a.deletion_recommendation);
    let m5 = "\"confidence_score\":"@ + ser_conf(a.confidence_centi);
    let r5 = m5 + seq!['}'];
    let r4 = m4 + (seq![','] + r5);
    let r3 = m3 + (seq![','] + r4);
    let r2 = m2 + (seq![','] + r3);
    let r1 = m1 + (seq![','] + r2);
    assert(w =~= seq!['{'] + r1);
    lemma_split(s, i, seq!['{'], r1);
    assert(s.subrange(i, i + 1) =~= seq!['{']);
    let p1 = i + 1;
    lemma_split(s, p1, m1, seq![','] + r2);
    lemma_member_str(s, p1, "\"file_purpose\":"@, a.file_purpose);
    let q1 = p1 + m1.len();
    lemma_split(s, q1, seq![','], r2);
    assert(s[q1] == s.subrange(q1, q1 + 1)[0]);
    lemma_comma_at(s, q1);
    let p2 = q1 + 1;
    lemma_split(s, p2, m2, seq![','] + r3);
    lemma_member_str(s, p2, "\"importance_level\":"@, a.importance_level);
    let q2 = p2 + m2.len();
    lemma_split(s, q2, seq![','], r3);
    assert(s[q2] == s.subrange(q2, q2 + 1)[0]);
    lemma_comma_at(s, q2);
    let p3 = q2 + 1;
    lemma_split(s, p3, m3, seq![','] + r4);
    lemma_member_str(s, p3, "\"potential_category\":"@, a.potential_category);
    let q3 = p3 + m3.len();
    lemma_split(s, q3, seq![','], r4);
    assert(s[q3] == s.subrange(q3, q3 + 1)[0]);
    lemma_comma_at(s, q3);
    let p4 = q3 + 1;
    lemma_split(s, p4, m4, seq![','] + r5);
    lemma_member_bool(s, p4, "\"deletion_recommendation\":"@, a.deletion_recommendation);
    let q4 = p4 + m4.len();
    lemma_split(s, q4, seq![','], r5);
    assert(s[q4] == s.subrange(q4, q4 + 1)[0]);
    lemma_comma_at(s, q4);
    let p5 = q4 + 1;
    lemma_split(s, p5, m5, seq!['}']);
    let q5 = p5 + m5.len();
    assert(s[q5] == s.subrange(q5, q5 + 1)[0]);
    assert(s[q5] == '}');
    lemma_member_conf(s, p5, "\"confidence_score\":"@, a.confidence_centi);
    lemma_close_at(s, q5);
    assert(q5 + 1 == i + w.len());
}

proof fn lemma_member_optai(s: Seq<char>, i: int, kc: Seq<char>, v: Option<AiView>)
    requires
        0 <= i,
        kc.len() > 0,
        kc[0] == '"',
        match v {
            Some(a) => a.confidence_centi <= 100,
            None => true,
        },
        i + kc.len() + ser_optai(v).len() <= s.len(),
        s.subrange(i, i + kc.len() + ser_optai(v).len()) == kc + ser_optai(v),
    ensures
        parse_member_optai(s, i, kc) == Some((v, i + kc.len() + ser_optai(v).len())),
{
    reveal_strlit("null");
    lemma_split(s, i, kc, ser_optai(v));
    let p = i + kc.len();
    assert(s[p] == s.subrange(p, p + ser_optai(v).len())[0]);
    assert(!is_ws(s[p]));
    lemma_parse_kc(s, i, kc);
    match v {
        None => {
            assert(parse_lit(s, p, "null"@) == Some(p + 4));
        },
        Some(a) => {
            assert(s[p] == '{');
            if p + 4 <= s.len() && s.subrange(p, p + 4) == "null"@ {
                assert(s.subrange(p, p + 4)[0] == 'n');
                assert(false);
            }
            assert(parse_lit(s, p, "null"@) is None);
            lemma_parse_ser_ai(s, p, a);
        },
    }
}

// ------------------------------------------------------------------- records
/// The stored form of one metadata record.
pub open spec fn ser_tail_ai_analysis(m: MetaView) -> Seq<char> {
    ("\"ai_analysis\":"@ + ser_optai(m.ai_analysis)) + seq!['}']
}

pub open spec fn ser_tail_duplicate_of(m: MetaView) -> Seq<char> {
    ("\"duplicate_of\":"@ + ser_optstr(m.duplicate_of)) + (seq![','] + ser_tail_ai_analysis(m))
}

pub open spec fn ser_tail_is_duplicate(m: MetaView) -> Seq<char> {
    ("\"is_duplicate\":"@ + ser_bool(m.is_duplicate)) + (seq![','] + ser_tail_duplicate_of(m))
}

pub open spec fn ser_tail_last_accessed(m: MetaView) -> Seq<char> {
    ("\"last_accessed\":"@ + ser_i64(m.last_accessed)) + (seq![','] + ser_tail_is_duplicate(m))
}

pub open spec fn ser_tail_importance_score(m: MetaView) -> Seq<char> {
    ("\"importance_score\":"@ + ser_udec(m.importance_score as int)) + (seq![','] + ser_tail_last_accessed(m))
}

pub open spec fn ser_tail_mime_type(m: MetaView) -> Seq<char> {
    ("\"mime_type\":"@ + ser_jstring(m.mime_type)) + (seq![','] + ser_tail_importance_score(m))
}

pub open spec fn ser_tail_category(m: MetaView) -> Seq<char> {
    ("\"category\":"@ + ser_jstring(name_of_category(m.category))) + (seq![','] + ser_tail_mime_type(m))
}

pub open spec fn ser_tail_modified(m: MetaView) -> Seq<char> {
    ("\"modified\":"@ + ser_i64(m.modified)) + (seq![','] + ser_tail_category(m))
}

pub open spec fn ser_tail_created(m: MetaView) -> Seq<char> {
    ("\"created\":"@ + ser_i64(m.created)) + (seq![','] + ser_tail_modified(m))
}

pub open spec fn ser_tail_size(m: MetaView) -> Seq<char> {
    ("\"size\":"@ + ser_udec(m.size as int)) + (seq![','] + ser_tail_created(m))
}

pub open spec fn ser_tail_extension(m: MetaView) -> Seq<char> {
    ("\"extension\":"@ + ser_jstring(m.extension)) + (seq![','] + ser_tail_size(m))
}

pub open spec fn ser_tail_file_name(m: MetaView) -> Seq<char> {
    ("\"file_name\":"@ + ser_jstring(m.file_name)) + (seq![','] + ser_tail_extension(m))
}

pub open spec fn ser_tail_path(m: MetaView) -> Seq<char> {
    ("\"path\":"@ + ser_jstring(m.path)) + (seq![','] + ser_tail_file_name(m))
}

/// The stored form of one metadata record.
#[verifier::opaque]
pub open spec fn ser_record(m: MetaView) -> Seq<char> {
    seq!['{'] + ser_tail_path(m)
}

pub open spec fn rec_ai(
    s: Seq<char>,
    i: int,
    path: Seq<char>,
    file_name: Seq<char>,
    extension: Seq<char>,
    size: u64,
    created: i64,
    modified: i64,
    category: Category,
    mime_type: Seq<char>,
    importance_score: u8,
    last_accessed: i64,
    is_duplicate: bool,
    duplicate_of: Option<Seq<char>>,
) -> Option<(MetaView, int)> {
    match parse_member_optai(s, i, "\"ai_analysis\":"@) {
        Some((ai_analysis, j)) => match parse_close(s, j) {
            Some(jn) => Some(
                (
                    MetaView {
                        path,
                        file_name,
                        extension,
                        size,
                        created,
                        modified,
                        category,
                        mime_type,
                        importance_score,
                        last_accessed,
                        is_duplicate,
                        duplicate_of,
                        ai_analysis,
                    },
                    jn,
                ),
            ),
            None => None,
        },
        None => None,
    }
}

pub open spec fn rec_dupof(
    s: Seq<char>,
    i: int,
    path: Seq<char>,
    file_name: Seq<char>,
    extension: Seq<char>,
    size: u64,
    created: i64,
    modified: i64,
    category: Category,
    mime_type: Seq<char>,
    importance_score: u8,
    last_accessed: i64,
    is_duplicate: bool,
) -> Option<(MetaView, int)> {
    match parse_member_optstr(s, i, "\"duplicate_of\":"@) {
        Some((v, j)) => match parse_comma(s, j) {
            Some(j2) => rec_ai(
                s,
                j2,
                path,
                file_name,
                extension,
                size,
                created,
                modified,
                category,
                mime_type,
                importance_score,
                last_accessed,
                is_duplicate,
                v,
            ),
            None => None,
        },
        None => None,
    }
}

pub open spec fn rec_dupflag(
    s: Seq<char>,
    i: int,
    path: Seq<char>,
    file_name: Seq<char>,
    extension: Seq<char>,
    size: u64,
    created: i64,
    modified: i64,
    category: Category,
    mime_type: Seq<char>,
    importance_score: u8,
    last_accessed: i64,
) -> Option<(MetaView, int)> {
    match parse_member_bool(s, i, "\"is_duplicate\":"@) {
        Some((v, j)) => match parse_comma(s, j) {
            Some(j2) => rec_dupof(
                s,
                j2,
                path,
                file_name,
                extension,
                size,
                created,
                modified,
                category,
                mime_type,
                importance_score,
                last_accessed,
                v,
            ),
            None => None,
        },
        None => None,
    }
}

pub open spec fn rec_last(
    s: Seq<char>,
    i: int,
    path: Seq<char>,
    file_name: Seq<char>,
    extension: Seq<char>,
    size: u64,
    created: i64,
    modified: i64,
    category: Category,
    mime_type: Seq<char>,
    importance_score: u8,
) -> Option<(MetaView, int)> {
    match parse_member_i64(s, i, "\"last_accessed\":"@) {
        Some((v, j)) => match parse_comma(s, j) {
            Some(j2) => rec_dupflag(
                s,
                j2,
                path,
                file_name,
                extension,
                size,
                created,
                modified,
                category,
                mime_type,
                importance_score,
                v,
            ),
            None => None,
        },
        None => None,
    }
}

pub open spec fn rec_score(
    s: Seq<char>,
    i: int,
    path: Seq<char>,
    file_name: Seq<char>,
    extension: Seq<char>,
    size: u64,
    created: i64,
    modified: i64,
    category: Category,
    mime_type: Seq<char>,
) -> Option<(MetaView, int)> {
    match parse_member_u8(s, i, "\"importance_score\":"@) {
        Some((v, j)) => match parse_comma(s, j) {
            Some(j2) => rec_last(
                s,
                j2,
                path,
                file_name,
                extension,
                size,
                created,
                modified,
                category,
                mime_type,
                v,
            ),
            None => None,
        },
        None => None,
    }
}

/// The later fields of a record, from its MIME member to its closing brace.
pub open spec fn rec_mime(
    s: Seq<char>,
    i: int,
    path: Seq<char>,
    file_name: Seq<char>,
    extension: Seq<char>,
    size: u64,
    created: i64,
    modified: i64,
    category: Category,
) -> Option<(MetaView, int)> {
    match parse_member_str(s, i, "\"mime_type\":"@) {
        Some((v, j)) => match parse_comma(s, j) {
            Some(j2) => rec_score(
                s,
                j2,
                path,
                file_name,
                extension,
                size,
                created,
                modified,
                category,
                v,
            ),
            None => None,
        },
        None => None,
    }
}

pub open spec fn rec_category(
    s: Seq<char>,
    i: int,
    path: Seq<char>,
    file_name: Seq<char>,
    extension: Seq<char>,
    size: u64,
    created: i64,
    modified: i64,
) -> Option<(MetaView, int)> {
    match parse_member_cat(s, i, "\"category\":"@) {
        Some((v, j)) => match parse_comma(s, j) {
            Some(j2) => rec_mime(s, j2, path, file_name, extension, size, created, modified, v),
            None => None,
        },
        None => None,
    }
}

pub open spec fn rec_modified(
    s: Seq<char>,
    i: int,
    path: Seq<char>,
    file_name: Seq<char>,
    extension: Seq<char>,
    size: u64,
    created: i64,
) -> Option<(MetaView, int)> {
    match parse_member_i64(s, i, "\"modified\":"@) {
        Some((v, j)) => match parse_comma(s, j) {
            Some(j2) => rec_category(s, j2, path, file_name, extension, size, created, v),
            None => None,
        },
        None => None,
    }
}

pub open spec fn rec_created(
    s: Seq<char>,
    i: int,
    path: Seq<char>,
    file_name: Seq<char>,
    extension: Seq<char>,
    size: u64,
) -> Option<(MetaView, int)> {
    match parse_member_i64(s, i, "\"created\":"@) {
        Some((v, j)) => match parse_comma(s, j) {
            Some(j2) => rec_modified(s, j2, path, file_name, extension, size, v),
            None => None,
        },
        None => None,
    }
}

pub open spec fn rec_size(
    s: Seq<char>,
    i: int,
    path: Seq<char>,
    file_name: Seq<char>,
    extension: Seq<char>,
) -> Option<(MetaView, int)> {
    match parse_member_u64(s, i, "\"size\":"@) {
        Some((v, j)) => match parse_comma(s, j) {
            Some(j2) => rec_created(s, j2, path, file_name, extension, v),
            None => None,
        },
        None => None,
    }
}

pub open spec fn rec_extension(s: Seq<char>, i: int, path: Seq<char>, file_name: Seq<char>) -> Option<
    (MetaView, int),
> {
    match parse_member_str(s, i, "\"extension\":"@) {
        Some((v, j)) => match parse_comma(s, j) {
            Some(j2) => rec_size(s, j2, path, file_name, v),
            None => None,
        },
        None => None,
    }
}

pub open spec fn rec_file_name(s: Seq<char>, i: int, path: Seq<char>) -> Option<(MetaView, int)> {
    match parse_member_str(s, i, "\"file_name\":"@) {
        Some((v, j)) => match parse_comma(s, j) {
            Some(j2) => rec_extension(s, j2, path, v),
            None => None,
        },
        None => None,
    }
}

pub open spec fn rec_path(s: Seq<char>, i: int) -> Option<(MetaView, int)> {
    match parse_member_str(s, i, "\"path\":"@) {
        Some((v, j)) => match parse_comma(s, j) {
            Some(j2) => rec_file_name(s, j2, v),
            None => None,
        },
        None => None,
    }
}

/// A whole record, opening brace included.
pub open spec fn parse_record_at(s: Seq<char>, i: int) -> Option<(MetaView, int)> {
    match parse_lit(s, i, seq!['{']) {
        Some(j0) => rec_path(s, j0),
        None => None,
    }
}

/// A record is well formed for storage when its confidence, if any, lies in
/// [0, 100].
pub open spec fn storable(m: MetaView) -> bool {
    match m.ai_analysis {
        Some(a) => a.confidence_centi <= 100,
        None => true,
    }
}

proof fn lemma_tail_ai_analysis(s: Seq<char>, i: int, m: MetaView)
    requires
        0 <= i,
        storable(m),
        i + ser_tail_ai_analysis(m).len() <= s.len(),
        s.subrange(i, i + ser_tail_ai_analysis(m).len()) == ser_tail_ai_analysis(m),
    ensures
        rec_ai(s, i, m.path, m.file_name, m.extension, m.size, m.created, m.modified, m.category, m.mime_type, m.importance_score, m.last_accessed, m.is_duplicate, m.duplicate_of) == Some((m, i + ser_tail_ai_analysis(m).len())),
{
    reveal_strlit("\"ai_analysis\":");
    let mk = "\"ai_analysis\":"@ + ser_optai(m.ai_analysis);
    lemma_split(s, i, mk, seq!['}']);
    let q = i + mk.len();
    assert(s[q] == s.subrange(q, q + 1)[0]);
    assert(s[q] == '}');
    lemma_member_optai(s, i, "\"ai_analysis\":"@, m.ai_analysis);
    lemma_close_at(s, q);
}

proof fn lemma_tail_duplicate_of(s: Seq<char>, i: int, m: MetaView)
    requires
        0 <= i,
        storable(m),
        i + ser_tail_duplicate_of(m).len() <= s.len(),
        s.subrange(i, i + ser_tail_duplicate_of(m).len()) == ser_tail_duplicate_of(m),
    ensures
        rec_dupof(s, i, m.path, m.file_name, m.extension, m.size, m.created, m.modified, m.category, m.mime_type, m.importance_score, m.last_accessed, m.is_duplicate) == Some((m, i + ser_tail_duplicate_of(m).len())),
{
    reveal_strlit("\"duplicate_of\":");
    let mk = "\"duplicate_of\":"@ + ser_optstr(m.duplicate_of);
    lemma_split(s, i, mk, seq![','] + ser_tail_ai_analysis(m));
    let q = i + mk.len();
    lemma_split(s, q, seq![','], ser_tail_ai_analysis(m));
    assert(s[q] == s.subrange(q, q + 1)[0]);
    lemma_member_optstr(s, i, "\"duplicate_of\":"@, m.duplicate_of);
    lemma_comma_at(s, q);
    lemma_tail_ai_analysis(s, q + 1, m);
}

proof fn lemma_tail_is_duplicate(s: Seq<char>, i: int, m: MetaView)
    requires
        0 <= i,
        storable(m),
        i + ser_tail_is_duplicate(m).len() <= s.len(),
        s.subrange(i, i + ser_tail_is_duplicate(m).len()) == ser_tail_is_duplicate(m),
    ensures
        rec_dupflag(s, i, m.path, m.file_name, m.extension, m.size, m.created, m.modified, m.category, m.mime_type, m.importance_score, m.last_accessed) == Some((m, i + ser_tail_is_duplicate(m).len())),
{
    reveal_strlit("\"is_duplicate\":");
    let mk = "\"is_duplicate\":"@ + ser_bool(m.is_duplicate);
    lemma_split(s, i, mk, seq![','] + ser_tail_duplicate_of(m));
    let q = i + mk.len();
    lemma_split(s, q, seq![','], ser_tail_duplicate_of(m));
    assert(s[q] == s.subrange(q, q + 1)[0]);
    lemma_member_bool(s, i, "\"is_duplicate\":"@, m.is_duplicate);
    lemma_comma_at(s, q);
    lemma_tail_duplicate_of(s, q + 1, m);
}

proof fn lemma_tail_last_accessed(s: Seq<char>, i: int, m: MetaView)
    requires
        0 <= i,
        storable(m),
        i + ser_tail_last_accessed(m).len() <= s.len(),
        s.subrange(i, i + ser_tail_last_accessed(m).len()) == ser_tail_last_accessed(m),
    ensures
        rec_last(s, i, m.path, m.file_name, m.extension, m.size, m.created, m.modified, m.category, m.mime_type, m.importance_score) == Some((m, i + ser_tail_last_accessed(m).len())),
{
    reveal_strlit("\"last_accessed\":");
    let mk = "\"last_accessed\":"@ + ser_i64(m.last_accessed);
    lemma_split(s, i, mk, seq![','] + ser_tail_is_duplicate(m));
    let q = i + mk.len();
    lemma_split(s, q, seq![','], ser_tail_is_duplicate(m));
    assert(s[q] == s.subrange(q, q + 1)[0]);
    assert(s[q] == ',');
    lemma_member_i64(s, i, "\"last_accessed\":"@, m.last_accessed);
    lemma_comma_at(s, q);
    lemma_tail_is_duplicate(s, q + 1, m);
}

proof fn lemma_tail_importance_score(s: Seq<char>, i: int, m: MetaView)
    requires
        0 <= i,
        storable(m),
        i + ser_tail_importance_score(m).len() <= s.len(),
        s.subrange(i, i + ser_tail_importance_score(m).len()) == ser_tail_importance_score(m),
    ensures
        rec_score(s, i, m.path, m.file_name, m.extension, m.size, m.created, m.modified, m.category, m.mime_type) == Some((m, i + ser_tail_importance_score(m).len())),
{
    reveal_strlit("\"importance_score\":");
    let mk = "\"importance_score\":"@ + ser_udec(m.importance_score as int);
    lemma_split(s, i, mk, seq![','] + ser_tail_last_accessed(m));
    let q = i + mk.len();
    lemma_split(s, q, seq![','], ser_tail_last_accessed(m));
    assert(s[q] == s.subrange(q, q + 1)[0]);
    assert(s[q] == ',');
    lemma_member_u8(s, i, "\"importance_score\":"@, m.importance_score);
    lemma_comma_at(s, q);
    lemma_tail_last_accessed(s, q + 1, m);
}

proof fn lemma_tail_mime_type(s: Seq<char>, i: int, m: MetaView)
    requires
        0 <= i,
        storable(m),
        i + ser_tail_mime_type(m).len() <= s.len(),
        s.subrange(i, i + ser_tail_mime_type(m).len()) == ser_tail_mime_type(m),
    ensures
        rec_mime(s, i, m.path, m.file_name, m.extension, m.size, m.created, m.modified, m.category) == Some((m, i + ser_tail_mime_type(m).len())),
{
    reveal_strlit("\"mime_type\":");
    let mk = "\"mime_type\":"@ + ser_jstring(m.mime_type);
    lemma_split(s, i, mk, seq![','] + ser_tail_importance_score(m));
    let q = i + mk.len();
    lemma_split(s, q, seq![','], ser_tail_importance_score(m));
    assert(s[q] == s.subrange(q, q + 1)[0]);
    lemma_member_str(s, i, "\"mime_type\":"@, m.mime_type);
    lemma_comma_at(s, q);
    lemma_tail_importance_score(s, q + 1, m);
}

proof fn lemma_tail_category(s: Seq<char>, i: int, m: MetaView)
    requires
        0 <= i,
        storable(m),
        i + ser_tail_category(m).len() <= s.len(),
        s.subrange(i, i + ser_tail_category(m).len()) == ser_tail_category(m),
    ensures
        rec_category(s, i, m.path, m.file_name, m.extension, m.size, m.created, m.modified) == Some((m, i + ser_tail_category(m).len())),
{
    reveal_strlit("\"category\":");
    let mk = "\"category\":"@ + ser_jstring(name_of_category(m.category));
    lemma_split(s, i, mk, seq![','] + ser_tail_mime_type(m));
    let q = i + mk.len();
    lemma_split(s, q, seq![','], ser_tail_mime_type(m));
    assert(s[q] == s.subrange(q, q + 1)[0]);
    lemma_member_cat(s, i, "\"category\":"@, m.category);
    lemma_comma_at(s, q);
    lemma_tail_mime_type(s, q + 1, m);
}

proof fn lemma_tail_modified(s: Seq<char>, i: int, m: MetaView)
    requires
        0 <= i,
        storable(m),
        i + ser_tail_modified(m).len() <= s.len(),
        s.subrange(i, i + ser_tail_modified(m).len()) == ser_tail_modified(m),
    ensures
        rec_modified(s, i, m.path, m.file_name, m.extension, m.size, m.created) == Some((m, i + ser_tail_modified(m).len())),
{
    reveal_strlit("\"modified\":");
    let mk = "\"modified\":"@ + ser_i64(m.modified);
    lemma_split(s, i, mk, seq![','] + ser_tail_category(m));
    let q = i + mk.len();
    lemma_split(s, q, seq![','], ser_tail_category(m));
    assert(s[q] == s.subrange(q, q + 1)[0]);
    assert(s[q] == ',');
    lemma_member_i64(s, i, "\"modified\":"@, m.modified);
    lemma_comma_at(s, q);
    lemma_tail_category(s, q + 1, m);
}

proof fn lemma_tail_created(s: Seq<char>, i: int, m: MetaView)
    requires
        0 <= i,
        storable(m),
        i + ser_tail_created(m).len() <= s.len(),
        s.subrange(i, i + ser_tail_created(m).len()) == ser_tail_created(m),
    ensures
        rec_created(s, i, m.path, m.file_name, m.extension, m.size) == Some((m, i + ser_tail_created(m).len())),
{
    reveal_strlit("\"created\":");
    let mk = "\"created\":"@ + ser_i64(m.created);
    lemma_split(s, i, mk, seq![','] + ser_tail_modified(m));
    let q = i + mk.len();
    lemma_split(s, q, seq![','], ser_tail_modified(m));
    assert(s[q] == s.subrange(q, q + 1)[0]);
    assert(s[q] == ',');
    lemma_member_i64(s, i, "\"created\":"@, m.created);
    lemma_comma_at(s, q);
    lemma_tail_modified(s, q + 1, m);
}

proof fn lemma_tail_size(s: Seq<char>, i: int, m: MetaView)
    requires
        0 <= i,
        storable(m),
        i + ser_tail_size(m).len() <= s.len(),
        s.subrange(i, i + ser_tail_size(m).len()) == ser_tail_size(m),
    ensures
        rec_size(s, i, m.path, m.file_name, m.extension) == Some((m, i + ser_tail_size(m).len())),
{
    reveal_strlit("\"size\":");
    let mk = "\"size\":"@ + ser_udec(m.size as int);
    lemma_split(s, i, mk, seq![','] + ser_tail_created(m));
    let q = i + mk.len();
    lemma_split(s, q, seq![','], ser_tail_created(m));
    assert(s[q] == s.subrange(q, q + 1)[0]);
    assert(s[q] == ',');
    lemma_member_u64(s, i, "\"size\":"@, m.size);
    lemma_comma_at(s, q);
    lemma_tail_created(s, q + 1, m);
}

proof fn lemma_tail_extension(s: Seq<char>, i: int, m: MetaView)
    requires
        0 <= i,
        storable(m),
        i + ser_tail_extension(m).len() <= s.len(),
        s.subrange(i, i + ser_tail_extension(m).len()) == ser_tail_extension(m),
    ensures
        rec_extension(s, i, m.path, m.file_name) == Some((m, i + ser_tail_extension(m).len())),
{
    reveal_strlit("\"extension\":");
    let mk = "\"extension\":"@ + ser_jstring(m.extension);
    lemma_split(s, i, mk, seq![','] + ser_tail_size(m));
    let q = i + mk.len();
    lemma_split(s, q, seq![','], ser_tail_size(m));
    assert(s[q] == s.subrange(q, q + 1)[0]);
    lemma_member_str(s, i, "\"extension\":"@, m.extension);
    lemma_comma_at(s, q);
    lemma_tail_size(s, q + 1, m);
}

proof fn lemma_tail_file_name(s: Seq<char>, i: int, m: MetaView)
    requires
        0 <= i,
        storable(m),
        i + ser_tail_file_name(m).len() <= s.len(),
        s.subrange(i, i + ser_tail_file_name(m).len()) == ser_tail_file_name(m),
    ensures
        rec_file_name(s, i, m.path) == Some((m, i + ser_tail_file_name(m).len())),
{
    reveal_strlit("\"file_name\":");
    let mk = "\"file_name\":"@ + ser_jstring(m.file_name);
    lemma_split(s, i, mk, seq![','] + ser_tail_extension(m));
    let q = i + mk.len();
    lemma_split(s, q, seq![','], ser_tail_extension(m));
    assert(s[q] == s.subrange(q, q + 1)[0]);
    lemma_member_str(s, i, "\"file_name\":"@, m.file_name);
    lemma_comma_at(s, q);
    lemma_tail_extension(s, q + 1, m);
}

proof fn lemma_tail_path(s: Seq<char>, i: int, m: MetaView)
    requires
        0 <= i,
        storable(m),
        i + ser_tail_path(m).len() <= s.len(),
        s.subrange(i, i + ser_tail_path(m).len()) == ser_tail_path(m),
    ensures
        rec_path(s, i) == Some((m, i + ser_tail_path(m).len())),
{
    reveal_strlit("\"path\":");
    let mk = "\"path\":"@ + ser_jstring(m.path);
    lemma_split(s, i, mk, seq![','] + ser_tail_file_name(m));
    let q = i + mk.len();
    lemma_split(s, q, seq![','], ser_tail_file_name(m));
    assert(s[q] == s.subrange(q, q + 1)[0]);
    lemma_member_str(s, i, "\"path\":"@, m.path);
    lemma_comma_at(s, q);
    lemma_tail_file_name(s, q + 1, m);
}

/// Parsing right after serializing a record yields it back.
pub proof fn lemma_parse_ser_record(s: Seq<char>, i: int, m: MetaView)
    requires
        0 <= i,
        storable(m),
        i + ser_record(m).len() <= s.len(),
        s.subrange(i, i + ser_record(m).len()) == ser_record(m),
    ensures
        parse_record_at(s, i) == Some((m, i + ser_record(m).len())),
{
    reveal(ser_record);
    lemma_split(s, i, seq!['{'], ser_tail_path(m));
    assert(s.subrange(i, i + 1) =~= seq!['{']);
    lemma_tail_path(s, i + 1, m);
}

// -------------------------------------------------------------------- chunks
/// Every record of the sequence can be stored.
pub open spec fn all_storable(entries: Seq<MetaView>) -> bool {
    forall|k: int| 0 <= k < entries.len() ==> storable(#[trigger] entries[k])
}

/// One chunk entry: the record's path as the key, then the record.
pub open spec fn ser_entry(m: MetaView) -> Seq<char> {
    ser_jstring(m.path) + (seq![':'] + ser_record(m))
}

/// The comma-separated entries of a chunk.
pub open spec fn ser_chunk_members(entries: Seq<MetaView>) -> Seq<char>
    decreases entries.len(),
{
    if entries.len() == 0 {
        Seq::empty()
    } else if entries.len() == 1 {
        ser_entry(entries[0])
    } else {
        ser_entry(entries[0]) + (seq![','] + ser_chunk_members(entries.drop_first()))
    }
}

/// The stored form of a whole chunk.
pub open spec fn ser_chunk(entries: Seq<MetaView>) -> Seq<char> {
    if entries.len() == 0 {
        seq!['{', '}']
    } else {
        seq!['{'] + (ser_chunk_members(entries) + seq!['}'])
    }
}

pub open spec fn parse_entry(s: Seq<char>, i: int) -> Option<(MetaView, int)> {
    match parse_jstring(s, skip_ws(s, i)) {
        Some((_k, j1)) => match parse_lit(s, skip_ws(s, j1), seq![':']) {
            Some(j3) => parse_record_at(s, skip_ws(s, j3)),
            None => None,
        },
        None => None,
    }
}

pub open spec fn parse_chunk_members(s: Seq<char>, i: int) -> Option<(Seq<MetaView>, int)>
    decreases s.len() - i,
{
    match parse_entry(s, i) {
        Some((m, j)) => match parse_comma(s, j) {
            Some(j6) => if i < j6 <= s.len() {
                match parse_chunk_members(s, j6) {
                    Some((rest, jr)) => Some((seq![m] + rest, jr)),
                    None => None,
                }
            } else {
                None
            },
            None => match parse_close(s, j) {
                Some(j7) => Some((seq![m], j7)),
                None => None,
            },
        },
        None => None,
    }
}

/// A whole chunk file: an object, with nothing but whitespace after it.
pub open spec fn parse_chunk_full(s: Seq<char>) -> Option<Seq<MetaView>> {
    match parse_lit(s, skip_ws(s, 0), seq!['{']) {
        Some(j1) => match parse_close(s, j1) {
            Some(j3) => if skip_ws(s, j3) == s.len() {
                Some(Seq::empty())
            } else {
                None
            },
            None => match parse_chunk_members(s, j1) {
                Some((es, j)) => if skip_ws(s, j) == s.len() {
                    Some(es)
                } else {
                    None
                },
                None => None,
            },
        },
        None => None,
    }
}

proof fn lemma_entry(s: Seq<char>, i: int, m: MetaView)
    requires
        0 <= i,
        storable(m),
        i + ser_entry(m).len() <= s.len(),
        s.subrange(i, i + ser_entry(m).len()) == ser_entry(m),
    ensures
        parse_entry(s, i) == Some((m, i + ser_entry(m).len())),
{
    reveal(ser_record);
    let key = ser_jstring(m.path);
    lemma_split(s, i, key, seq![':'] + ser_record(m));
    assert(s[i] == s.subrange(i, i + key.len())[0]);
    assert(s[i] == '"');
    assert(skip_ws(s, i) == i);
    crate::json::lemma_parse_ser_jstring(s, i, m.path);
    let j1 = i + key.len();
    lemma_split(s, j1, seq![':'], ser_record(m));
    assert(s[j1] == s.subrange(j1, j1 + 1)[0]);
    assert(s[j1] == ':');
    assert(skip_ws(s, j1) == j1);
    assert(s.subrange(j1, j1 + 1) =~= seq![':']);
    let j3 = j1 + 1;
    assert(s[j3] == s.subrange(j3, j3 + ser_record(m).len())[0]);
    assert(s[j3] == '{');
    assert(skip_ws(s, j3) == j3);
    lemma_parse_ser_record(s, j3, m);
}

proof fn lemma_chunk_members(s: Seq<char>, i: int, entries: Seq<MetaView>)
    requires
        0 <= i,
        entries.len() >= 1,
        all_storable(entries),
        i + ser_chunk_members(entries).len() + 1 <= s.len(),
        s.subrange(i, i + ser_chunk_members(entries).len() + 1) == ser_chunk_members(entries)
            + seq!['}'],
    ensures
        parse_chunk_members(s, i) == Some((entries, i + ser_chunk_members(entries).len() + 1)),
    decreases entries.len(),
{
    let mem = ser_chunk_members(entries);
    let e0 = ser_entry(entries[0]);
    assert(storable(entries[0]));
    if entries.len() == 1 {
        assert(mem == e0);
        lemma_split(s, i, e0, seq!['}']);
        lemma_entry(s, i, entries[0]);
        let q = i + e0.len();
        assert(s[q] == s.subrange(q, q + 1)[0]);
        assert(s[q] == '}');
        assert(skip_ws(s, q) == q);
        if q + 1 <= s.len() && s.subrange(q, q + 1) == seq![','] {
            assert(s.subrange(q, q + 1)[0] == ',');
            assert(false);
        }
        assert(parse_comma(s, q) is None);
        lemma_close_at(s, q);
        assert(seq![entries[0]] =~= entries);
    } else {
        let rest = entries.drop_first();
        let memrest = ser_chunk_members(rest);
        assert(mem == e0 + (seq![','] + memrest));
        assert(mem + seq!['}'] =~= e0 + ((seq![','] + (memrest + seq!['}']))));
        lemma_split(s, i, e0, seq![','] + (memrest + seq!['}']));
        lemma_entry(s, i, entries[0]);
        let q = i + e0.len();
        lemma_split(s, q, seq![','], memrest + seq!['}']);
        assert(s[q] == s.subrange(q, q + 1)[0]);
        assert(s[q] == ',');
        lemma_comma_at(s, q);
        assert(all_storable(rest)) by {
            assert(forall|k: int|
                0 <= k < rest.len() ==> rest[k] == entries[k + 1] && storable(
                    #[trigger] entries[k + 1],
                ));
        }
        lemma_chunk_members(s, q + 1, rest);
        assert(seq![entries[0]] + rest =~= entries);
    }
}

/// Parsing a serialized chunk yields exactly its records, in order.
pub proof fn lemma_parse_ser_chunk(entries: Seq<MetaView>)
    requires
        all_storable(entries),
    ensures
        parse_chunk_full(ser_chunk(entries)) == Some(entries),
{
    let s = ser_chunk(entries);
    if entries.len() == 0 {
        assert(s[0] == '{');
        assert(skip_ws(s, 0) == 0);
        assert(s.subrange(0, 1) =~= seq!['{']);
        assert(s[1] == '}');
        assert(skip_ws(s, 1) == 1);
        assert(s.subrange(1, 2) =~= seq!['}']);
        assert(skip_ws(s, 2) == 2);
        assert(entries =~= Seq::<MetaView>::empty());
    } else {
        let mem = ser_chunk_members(entries);
        let e0 = ser_entry(entries[0]);
        assert(s[0] == '{');
        assert(skip_ws(s, 0) == 0);
        assert(s.subrange(0, 1) =~= seq!['{']);
        assert(s[1] == mem[0]);
        if entries.len() == 1 {
            assert(mem[0] == e0[0]);
        } else {
            assert(mem == e0 + (seq![','] + ser_chunk_members(entries.drop_first())));
            assert(mem[0] == e0[0]);
        }
        assert(e0[0] == ser_jstring(entries[0].path)[0]);
        assert(s[1] == '"');
        assert(skip_ws(s, 1) == 1);
        if 1 + 1 <= s.len() && s.subrange(1, 2) == seq!['}'] {
            assert(s.subrange(1, 2)[0] == '"');
            assert(false);
        }
        assert(parse_close(s, 1) is None);
        assert(s.subrange(1, 1 + mem.len() as int + 1) =~= mem + seq!['}']);
        lemma_chunk_members(s, 1, entries);
        assert(skip_ws(s, s.len() as int) == s.len());
    }
}

/// Appending one more entry extends the serialized members by a comma and
/// that entry.
proof fn lemma_members_snoc(entries: Seq<MetaView>, m: MetaView)
    requires
        entries.len() >= 1,
    ensures
        ser_chunk_members(entries.push(m)) == ser_chunk_members(entries) + (seq![','] + ser_entry(
            m,
        )),
    decreases entries.len(),
{
    let p = entries.push(m);
    assert(p[0] == entries[0]);
    if entries.len() == 1 {
        assert(p.drop_first() =~= seq![m]);
        assert(ser_chunk_members(seq![m]) == ser_entry(m));
        assert(ser_chunk_members(p) == ser_entry(entries[0]) + (seq![','] + ser_entry(m)));
    } else {
        assert(p.drop_first() =~= entries.drop_first().push(m));
        lemma_members_snoc(entries.drop_first(), m);
        assert(ser_chunk_members(p) == ser_entry(p[0]) + (seq![','] + ser_chunk_members(
            p.drop_first(),
        )));
        assert(ser_entry(entries[0]) + (seq![','] + (ser_chunk_members(entries.drop_first()) + (
        seq![','] + ser_entry(m)))) =~= (ser_entry(entries[0]) + (seq![','] + ser_chunk_members(
            entries.drop_first(),
        ))) + (seq![','] + ser_entry(m)));
    }
}

// --------------------------------------------------------------- exec: emit
/// The stored name of a category.
pub fn category_name(c: Category) -> (r: String)
    ensures
        r@ == name_of_category(c),
{
    match c {
        Category::Image => "image".to_owned(),
        Category::Video => "video".to_owned(),
        Category::Audio => "audio".to_owned(),
        Category::Document => "document".to_owned(),
        Category::Spreadsheet => "spreadsheet".to_owned(),
        Category::Presentation => "presentation".to_owned(),
        Category::Application => "application".to_owned(),
        Category::Archive => "archive".to_owned(),
        Category::Other => "other".to_owned(),
    }
}

/// Appends the stored decimal form of a confidence.
fn emit_conf(buf: &mut Vec<char>, c: u8)
    requires
        c <= 100,
    ensures
        final(buf)@ == old(buf)@ + ser_conf(c),
{
    if c == 100 {
        buf.push('1');
        buf.push('.');
        buf.push('0');
        proof {
            assert(buf@ =~= old(buf)@ + ser_conf(c));
        }
    } else {
        let hi: u8 = c / 10;
        let lo: u8 = c % 10;
        buf.push('0');
        buf.push('.');
        buf.push((('0' as u8) + hi) as char);
        buf.push((('0' as u8) + lo) as char);
        proof {
            assert((('0' as u8) + hi) as char == digit_char(c as int / 10));
            assert((('0' as u8) + lo) as char == digit_char(c as int % 10));
            assert(buf@ =~= old(buf)@ + ser_conf(c));
        }
    }
}

/// Appends the stored form of an enrichment record.
fn emit_ai(buf: &mut Vec<char>, a: &AiAnalysis)
    requires
        a.confidence_centi <= 100,
    ensures
        final(buf)@ == old(buf)@ + ser_ai(a@),
{
    buf.push('{');
    crate::json::emit_str(buf, "\"file_purpose\":");
    crate::json::emit_jstring(buf, a.file_purpose.as_str());
    buf.push(',');
    crate::json::emit_str(buf, "\"importance_level\":");
    crate::json::emit_jstring(buf, a.importance_level.as_str());
    buf.push(',');
    crate::json::emit_str(buf, "\"potential_category\":");
    crate::json::emit_jstring(buf, a.potential_category.as_str());
    buf.push(',');
    crate::json::emit_str(buf, "\"deletion_recommendation\":");
    if a.deletion_recommendation {
        crate::json::emit_str(buf, "true");
    } else {
        crate::json::emit_str(buf, "false");
    }
    buf.push(',');
    crate::json::emit_str(buf, "\"confidence_score\":");
    emit_conf(buf, a.confidence_centi);
    buf.push('}');
    proof {
        assert(buf@ =~= old(buf)@ + ser_ai(a@));
    }
}

fn emit_tail_ai_analysis(buf: &mut Vec<char>, m: &FileMetadata)
    requires
        match m.ai_analysis {
            Some(ref a) => a.confidence_centi <= 100,
            None => true,
        },
    ensures
        final(buf)@ == old(buf)@ + ser_tail_ai_analysis(m@),
{
    crate::json::emit_str(buf, "\"ai_analysis\":");
    match m.ai_analysis {
        Some(ref a) => {
            emit_ai(buf, a);
        },
        None => {
            crate::json::emit_str(buf, "null");
        },
    }
    buf.push('}');
    proof {
        assert(buf@ =~= old(buf)@ + ser_tail_ai_analysis(m@));
    }
}

fn emit_tail_duplicate_of(buf: &mut Vec<char>, m: &FileMetadata)
    requires
        match m.ai_analysis {
            Some(ref a) => a.confidence_centi <= 100,
            None => true,
        },
    ensures
        final(buf)@ == old(buf)@ + ser_tail_duplicate_of(m@),
{
    crate::json::emit_str(buf, "\"duplicate_of\":");
    match m.duplicate_of {
        Some(ref p) => {
            crate::json::emit_jstring(buf, p.as_str());
        },
        None => {
            crate::json::emit_str(buf, "null");
        },
    }
    buf.push(',');
    emit_tail_ai_analysis(buf, m);
    proof {
        assert(buf@ =~= old(buf)@ + ser_tail_duplicate_of(m@));
    }
}

fn emit_tail_is_duplicate(buf: &mut Vec<char>, m: &FileMetadata)
    requires
        match m.ai_analysis {
            Some(ref a) => a.confidence_centi <= 100,
            None => true,
        },
    ensures
        final(buf)@ == old(buf)@ + ser_tail_is_duplicate(m@),
{
    crate::json::emit_str(buf, "\"is_duplicate\":");
    if m.is_duplicate {
        crate::json::emit_str(buf, "true");
    } else {
        crate::json::emit_str(buf, "false");
    }
    buf.push(',');
    emit_tail_duplicate_of(buf, m);
    proof {
        assert(buf@ =~= old(buf)@ + ser_tail_is_duplicate(m@));
    }
}

fn emit_tail_last_accessed(buf: &mut Vec<char>, m: &FileMetadata)
    requires
        match m.ai_analysis {
            Some(ref a) => a.confidence_centi <= 100,
            None => true,
        },
    ensures
        final(buf)@ == old(buf)@ + ser_tail_last_accessed(m@),
{
    crate::json::emit_str(buf, "\"last_accessed\":");
    crate::json::emit_i64(buf, m.last_accessed);
    buf.push(',');
    emit_tail_is_duplicate(buf, m);
    proof {
        assert(buf@ =~= old(buf)@ + ser_tail_last_accessed(m@));
    }
}

fn emit_tail_importance_score(buf: &mut Vec<char>, m: &FileMetadata)
    requires
        match m.ai_analysis {
            Some(ref a) => a.confidence_centi <= 100,
            None => true,
        },
    ensures
        final(buf)@ == old(buf)@ + ser_tail_importance_score(m@),
{
    crate::json::emit_str(buf, "\"importance_score\":");
    crate::json::emit_u64(buf, m.importance_score as u64);
    buf.push(',');
    emit_tail_last_accessed(buf, m);
    proof {
        assert(buf@ =~= old(buf)@ + ser_tail_importance_score(m@));
    }
}

fn emit_tail_mime_type(buf: &mut Vec<char>, m: &FileMetadata)
    requires
        match m.ai_analysis {
            Some(ref a) => a.confidence_centi <= 100,
            None => true,
        },
    ensures
        final(buf)@ == old(buf)@ + ser_tail_mime_type(m@),
{
    crate::json::emit_str(buf, "\"mime_type\":");
    crate::json::emit_jstring(buf, m.mime_type.as_str());
    buf.push(',');
    emit_tail_importance_score(buf, m);
    proof {
        assert(buf@ =~= old(buf)@ + ser_tail_mime_type(m@));
    }
}

fn emit_tail_category(buf: &mut Vec<char>, m: &FileMetadata)
    requires
        match m.ai_analysis {
            Some(ref a) => a.confidence_centi <= 100,
            None => true,
        },
    ensures
        final(buf)@ == old(buf)@ + ser_tail_category(m@),
{
    crate::json::emit_str(buf, "\"category\":");
    let cn = category_name(m.category);
    crate::json::emit_jstring(buf, cn.as_str());
    buf.push(',');
    emit_tail_mime_type(buf, m);
    proof {
        assert(buf@ =~= old(buf)@ + ser_tail_category(m@));
    }
}

fn emit_tail_modified(buf: &mut Vec<char>, m: &FileMetadata)
    requires
        match m.ai_analysis {
            Some(ref a) => a.confidence_centi <= 100,
            None => true,
        },
    ensures
        final(buf)@ == old(buf)@ + ser_tail_modified(m@),
{
    crate::json::emit_str(buf, "\"modified\":");
    crate::json::emit_i64(buf, m.modified);
    buf.push(',');
    emit_tail_category(buf, m);
    proof {
        assert(buf@ =~= old(buf)@ + ser_tail_modified(m@));
    }
}

fn emit_tail_created(buf: &mut Vec<char>, m: &FileMetadata)
    requires
        match m.ai_analysis {
            Some(ref a) => a.confidence_centi <= 100,
            None => true,
        },
    ensures
        final(buf)@ == old(buf)@ + ser_tail_created(m@),
{
    crate::json::emit_str(buf, "\"created\":");
    crate::json::emit_i64(buf, m.created);
    buf.push(',');
    emit_tail_modified(buf, m);
    proof {
        assert(buf@ =~= old(buf)@ + ser_tail_created(m@));
    }
}

fn emit_tail_size(buf: &mut Vec<char>, m: &FileMetadata)
    requires
        match m.ai_analysis {
            Some(ref a) => a.confidence_centi <= 100,
            None => true,
        },
    ensures
        final(buf)@ == old(buf)@ + ser_tail_size(m@),
{
    crate::json::emit_str(buf, "\"size\":");
    crate::json::emit_u64(buf, m.size);
    buf.push(',');
    emit_tail_created(buf, m);
    proof {
        assert(buf@ =~= old(buf)@ + ser_tail_size(m@));
    }
}

fn emit_tail_extension(buf: &mut Vec<char>, m: &FileMetadata)
    requires
        match m.ai_analysis {
            Some(ref a) => a.confidence_centi <= 100,
            None => true,
        },
    ensures
        final(buf)@ == old(buf)@ + ser_tail_extension(m@),
{
    crate::json::emit_str(buf, "\"extension\":");
    crate::json::emit_jstring(buf, m.extension.as_str());
    buf.push(',');
    emit_tail_size(buf, m);
    proof {
        assert(buf@ =~= old(buf)@ + ser_tail_extension(m@));
    }
}

fn emit_tail_file_name(buf: &mut Vec<char>, m: &FileMetadata)
    requires
        match m.ai_analysis {
            Some(ref a) => a.confidence_centi <= 100,
            None => true,
        },
    ensures
        final(buf)@ == old(buf)@ + ser_tail_file_name(m@),
{
    crate::json::emit_str(buf, "\"file_name\":");
    crate::json::emit_jstring(buf, m.file_name.as_str());
    buf.push(',');
    emit_tail_extension(buf, m);
    proof {
        assert(buf@ =~= old(buf)@ + ser_tail_file_name(m@));
    }
}

fn emit_tail_path(buf: &mut Vec<char>, m: &FileMetadata)
    requires
        match m.ai_analysis {
            Some(ref a) => a.confidence_centi <= 100,
            None => true,
        },
    ensures
        final(buf)@ == old(buf)@ + ser_tail_path(m@),
{
    crate::json::emit_str(buf, "\"path\":");
    crate::json::emit_jstring(buf, m.path.as_str());
    buf.push(',');
    emit_tail_file_name(buf, m);
    proof {
        assert(buf@ =~= old(buf)@ + ser_tail_path(m@));
    }
}

/// Appends the stored form of one metadata record.
pub fn emit_record(buf: &mut Vec<char>, m: &FileMetadata)
    requires
        match m.ai_analysis {
            Some(ref a) => a.confidence_centi <= 100,
            None => true,
        },
    ensures
        final(buf)@ == old(buf)@ + ser_record(m@),
{
    buf.push('{');
    emit_tail_path(buf, m);
    proof {
        reveal(ser_record);
        assert(buf@ =~= old(buf)@ + ser_record(m@));
    }
}

/// Serializes a whole chunk of records.
pub fn serialize_chunk(entries: &Vec<FileMetadata>) -> (r: String)
    requires
        all_storable(crate::catalog::views_of(entries@)),
    ensures
        r@ == ser_chunk(crate::catalog::views_of(entries@)),
{
    let ghost vs = crate::catalog::views_of(entries@);
    let n: usize = entries.len();
    if n == 0 {
        let mut buf: Vec<char> = Vec::new();
        buf.push('{');
        buf.push('}');
        proof {
            assert(vs.len() == 0);
            assert(buf@ =~= ser_chunk(vs));
        }
        return crate::text::chars_to_string(&buf);
    }
    let mut buf: Vec<char> = Vec::new();
    buf.push('{');
    let mut idx: usize = 0;
    while idx < n
        invariant
            n == entries@.len(),
            n >= 1,
            vs == crate::catalog::views_of(entries@),
            all_storable(vs),
            idx <= n,
            idx == 0 ==> buf@ == seq!['{'],
            idx >= 1 ==> buf@ == seq!['{'] + ser_chunk_members(vs.subrange(0, idx as int)),
        decreases n - idx,
    {
        proof {
            assert(vs[idx as int] == entries@[idx as int]@);
            assert(storable(vs[idx as int]));
        }
        if idx > 0 {
            buf.push(',');
        }
        let ghost buf0 = buf@;
        crate::json::emit_jstring(&mut buf, entries[idx].path.as_str());
        buf.push(':');
        emit_record(&mut buf, &entries[idx]);
        proof {
            let prev = vs.subrange(0, idx as int);
            let cur = vs.subrange(0, (idx + 1) as int);
            assert(cur.drop_last() =~= prev);
            assert(cur.last() == vs[idx as int]);
            assert(buf@ =~= buf0 + (ser_jstring(vs[idx as int].path) + (seq![':'] + ser_record(
                vs[idx as int],
            ))));
            if idx == 0 {
                assert(cur =~= seq![vs[0]]);
                assert(ser_chunk_members(cur) == ser_entry(vs[0]));
                assert(buf@ =~= seq!['{'] + ser_chunk_members(cur));
            } else {
                assert(prev =~= cur.drop_last());
                lemma_members_snoc(prev, vs[idx as int]);
                assert(prev.push(vs[idx as int]) =~= cur);
                assert(buf@ =~= seq!['{'] + ser_chunk_members(cur));
            }
        }
        idx = idx + 1;
    }
    buf.push('}');
    proof {
        assert(vs.subrange(0, n as int) =~= vs);
        assert(buf@ =~= ser_chunk(vs));
    }
    crate::text::chars_to_string(&buf)
}

// -------------------------------------------------------------- exec: parse
/// Parses a key with its colon, whitespace allowed around.
fn parse_kc_exec(s: &Vec<char>, i: usize, kc: &Vec<char>) -> (r: Option<usize>)
    ensures
        match r {
            Some(j) => parse_kc(s@, i as int, kc@) == Some(j as int) && j <= s@.len(),
            None => parse_kc(s@, i as int, kc@) is None,
        },
{
    let j0 = crate::json::skip_ws_exec(s, i);
    match crate::json::parse_lit_exec(s, j0, kc) {
        Some(j1) => Some(crate::json::skip_ws_exec(s, j1)),
        None => None,
    }
}

fn parse_comma_exec(s: &Vec<char>, i: usize) -> (r: Option<usize>)
    ensures
        match r {
            Some(j) => parse_comma(s@, i as int) == Some(j as int) && j <= s@.len(),
            None => parse_comma(s@, i as int) is None,
        },
{
    let mut lit: Vec<char> = Vec::new();
    lit.push(',');
    proof {
        assert(lit@ =~= seq![',']);
    }
    let j0 = crate::json::skip_ws_exec(s, i);
    crate::json::parse_lit_exec(s, j0, &lit)
}

fn parse_close_exec(s: &Vec<char>, i: usize) -> (r: Option<usize>)
    ensures
        match r {
            Some(j) => parse_close(s@, i as int) == Some(j as int) && j <= s@.len(),
            None => parse_close(s@, i as int) is None,
        },
{
    let mut lit: Vec<char> = Vec::new();
    lit.push('}');
    proof {
        assert(lit@ =~= seq!['}']);
    }
    let j0 = crate::json::skip_ws_exec(s, i);
    crate::json::parse_lit_exec(s, j0, &lit)
}

fn parse_bool_exec(s: &Vec<char>, i: usize) -> (r: Option<(bool, usize)>)
    ensures
        match r {
            Some((v, j)) => parse_bool_at(s@, i as int) == Some((v, j as int)) && j <= s@.len(),
            None => parse_bool_at(s@, i as int) is None,
        },
{
    let t = crate::text::string_to_chars("true");
    match crate::json::parse_lit_exec(s, i, &t) {
        Some(j) => Some((true, j)),
        None => {
            let f = crate::text::string_to_chars("false");
            match crate::json::parse_lit_exec(s, i, &f) {
                Some(j) => Some((false, j)),
                None => None,
            }
        },
    }
}

fn parse_conf_exec(s: &Vec<char>, i: usize) -> (r: Option<(u8, usize)>)
    ensures
        match r {
            Some((v, j)) => parse_conf_at(s@, i as int) == Some((v, j as int)) && j <= s@.len()
                && v <= 100,
            None => parse_conf_at(s@, i as int) is None,
        },
{
    let n: usize = s.len();
    if i >= n || n - i < 3 {
        return None;
    }
    let c0 = s[i];
    if !(c0 == '0' || c0 == '1') {
        return None;
    }
    if s[i + 1] != '.' {
        return None;
    }
    let c2 = s[i + 2];
    if !('0' <= c2 && c2 <= '9') {
        return None;
    }
    let d1: u32 = (c2 as u8 - '0' as u8) as u32;
    let mut d2: u32 = 0;
    if i + 3 < n {
        let c3 = s[i + 3];
        if '0' <= c3 && c3 <= '9' {
            d2 = (c3 as u8 - '0' as u8) as u32;
        }
    }
    let v: u32 = if c0 == '1' {
        100 + d1 * 10 + d2
    } else {
        d1 * 10 + d2
    };
    if v > 100 {
        return None;
    }
    let mut k: usize = i + 2;
    while k < n && '0' <= s[k] && s[k] <= '9'
        invariant
            n == s@.len(),
            i + 2 <= k,
            k <= n,
            skip_digits(s@, (i + 2) as int) == skip_digits(s@, k as int),
        decreases n - k,
    {
        k = k + 1;
    }
    proof {
        assert(d1 as int == digit_val(s@[i + 2]));
    }
    Some((v as u8, k))
}

/// Maps a stored category name back to the category.
pub fn category_from_name(name: &Vec<char>) -> (r: Option<Category>)
    ensures
        r == category_of_name(name@),
{
    let w = crate::text::string_to_chars("image");
    if crate::text::chars_eq(name, &w) {
        return Some(Category::Image);
    }
    let w = crate::text::string_to_chars("video");
    if crate::text::chars_eq(name, &w) {
        return Some(Category::Video);
    }
    let w = crate::text::string_to_chars("audio");
    if crate::text::chars_eq(name, &w) {
        return Some(Category::Audio);
    }
    let w = crate::text::string_to_chars("document");
    if crate::text::chars_eq(name, &w) {
        return Some(Category::Document);
    }
    let w = crate::text::string_to_chars("spreadsheet");
    if crate::text::chars_eq(name, &w) {
        return Some(Category::Spreadsheet);
    }
    let w = crate::text::string_to_chars("presentation");
    if crate::text::chars_eq(name, &w) {
        return Some(Category::Presentation);
    }
    let w = crate::text::string_to_chars("application");
    if crate::text::chars_eq(name, &w) {
        return Some(Category::Application);
    }
    let w = crate::text::string_to_chars("archive");
    if crate::text::chars_eq(name, &w) {
        return Some(Category::Archive);
    }
    let w = crate::text::string_to_chars("other");
    if crate::text::chars_eq(name, &w) {
        return Some(Category::Other);
    }
    None
}

fn parse_member_str_exec(s: &Vec<char>, i: usize, kc: &Vec<char>) -> (r: Option<(String, usize)>)
    ensures
        match r {
            Some((v, j)) => parse_member_str(s@, i as int, kc@) == Some((v@, j as int)) && j
                <= s@.len(),
            None => parse_member_str(s@, i as int, kc@) is None,
        },
{
    match parse_kc_exec(s, i, kc) {
        Some(j) => match crate::json::parse_jstring_exec(s, j) {
            Some((v, j2)) => Some((crate::text::chars_to_string(&v), j2)),
            None => None,
        },
        None => None,
    }
}

fn parse_member_u64_exec(s: &Vec<char>, i: usize, kc: &Vec<char>) -> (r: Option<(u64, usize)>)
    ensures
        match r {
            Some((v, j)) => parse_member_u64(s@, i as int, kc@) == Some((v, j as int)) && j
                <= s@.len(),
            None => parse_member_u64(s@, i as int, kc@) is None,
        },
{
    match parse_kc_exec(s, i, kc) {
        Some(j) => crate::json::parse_u64_exec(s, j),
        None => None,
    }
}

fn parse_member_u8_exec(s: &Vec<char>, i: usize, kc: &Vec<char>) -> (r: Option<(u8, usize)>)
    ensures
        match r {
            Some((v, j)) => parse_member_u8(s@, i as int, kc@) == Some((v, j as int)) && j
                <= s@.len(),
            None => parse_member_u8(s@, i as int, kc@) is None,
        },
{
    match parse_member_u64_exec(s, i, kc) {
        Some((v, j)) => if v <= 255 {
            Some((v as u8, j))
        } else {
            None
        },
        None => None,
    }
}

fn parse_member_i64_exec(s: &Vec<char>, i: usize, kc: &Vec<char>) -> (r: Option<(i64, usize)>)
    ensures
        match r {
            Some((v, j)) => parse_member_i64(s@, i as int, kc@) == Some((v, j as int)) && j
                <= s@.len(),
            None => parse_member_i64(s@, i as int, kc@) is None,
        },
{
    match parse_kc_exec(s, i, kc) {
        Some(j) => crate::json::parse_i64_exec(s, j),
        None => None,
    }
}

fn parse_member_bool_exec(s: &Vec<char>, i: usize, kc: &Vec<char>) -> (r: Option<(bool, usize)>)
    ensures
        match r {
            Some((v, j)) => parse_member_bool(s@, i as int, kc@) == Some((v, j as int)) && j
                <= s@.len(),
            None => parse_member_bool(s@, i as int, kc@) is None,
        },
{
    match parse_kc_exec(s, i, kc) {
        Some(j) => parse_bool_exec(s, j),
        None => None,
    }
}

fn parse_member_conf_exec(s: &Vec<char>, i: usize, kc: &Vec<char>) -> (r: Option<(u8, usize)>)
    ensures
        match r {
            Some((v, j)) => parse_member_conf(s@, i as int, kc@) == Some((v, j as int)) && j
                <= s@.len() && v <= 100,
            None => parse_member_conf(s@, i as int, kc@) is None,
        },
{
    match parse_kc_exec(s, i, kc) {
        Some(j) => parse_conf_exec(s, j),
        None => None,
    }
}

fn parse_member_optstr_exec(s: &Vec<char>, i: usize, kc: &Vec<char>) -> (r: Option<
    (Option<String>, usize),
>)
    ensures
        match r {
            Some((v, j)) => parse_member_optstr(s@, i as int, kc@) == Some(
                (
                    match v {
                        Some(ref p) => Some(p@),
                        None => None,
                    },
                    j as int,
                ),
            ) && j <= s@.len(),
            None => parse_member_optstr(s@, i as int, kc@) is None,
        },
{
    match parse_kc_exec(s, i, kc) {
        Some(j) => {
            let nul = crate::text::string_to_chars("null");
            match crate::json::parse_lit_exec(s, j, &nul) {
                Some(j2) => Some((None, j2)),
                None => match crate::json::parse_jstring_exec(s, j) {
                    Some((v, j2)) => Some((Some(crate::text::chars_to_string(&v)), j2)),
                    None => None,
                },
            }
        },
        None => None,
    }
}

fn parse_member_cat_exec(s: &Vec<char>, i: usize, kc: &Vec<char>) -> (r: Option<(Category, usize)>)
    ensures
        match r {
            Some((v, j)) => parse_member_cat(s@, i as int, kc@) == Some((v, j as int)) && j
                <= s@.len(),
            None => parse_member_cat(s@, i as int, kc@) is None,
        },
{
    match parse_kc_exec(s, i, kc) {
        Some(j) => match crate::json::parse_jstring_exec(s, j) {
            Some((nm, j2)) => match category_from_name(&nm) {
                Some(c) => Some((c, j2)),
                None => None,
            },
            None => None,
        },
        None => None,
    }
}

fn parse_ai_exec(s: &Vec<char>, i: usize) -> (r: Option<(AiAnalysis, usize)>)
    ensures
        match r {
            Some((a, j)) => parse_ai_at(s@, i as int) == Some((a@, j as int)) && j <= s@.len()
                && a.confidence_centi <= 100,
            None => parse_ai_at(s@, i as int) is None,
        },
{
    let mut brace: Vec<char> = Vec::new();
    brace.push('{');
    proof {
        assert(brace@ =~= seq!['{']);
    }
    let j0 = match crate::json::parse_lit_exec(s, i, &brace) {
        Some(j) => j,
        None => {
            return None;
        },
    };
    let kc = crate::text::string_to_chars("\"file_purpose\":");
    let (fp, ja) = match parse_member_str_exec(s, j0, &kc) {
        Some(x) => x,
        None => {
            return None;
        },
    };
    let j1 = match parse_comma_exec(s, ja) {
        Some(j) => j,
        None => {
            return None;
        },
    };
    let kc = crate::text::string_to_chars("\"importance_level\":");
    let (il, jb) = match parse_member_str_exec(s, j1, &kc) {
        Some(x) => x,
        None => {
            return None;
        },
    };
    let j2 = match parse_comma_exec(s, jb) {
        Some(j) => j,
        None => {
            return None;
        },
    };
    let kc = crate::text::string_to_chars("\"potential_category\":");
    let (pc, jc) = match parse_member_str_exec(s, j2, &kc) {
        Some(x) => x,
        None => {
            return None;
        },
    };
    let j3 = match parse_comma_exec(s, jc) {
        Some(j) => j,
        None => {
            return None;
        },
    };
    let kc = crate::text::string_to_chars("\"deletion_recommendation\":");
    let (dr, jd) = match parse_member_bool_exec(s, j3, &kc) {
        Some(x) => x,
        None => {
            return None;
        },
    };
    let j4 = match parse_comma_exec(s, jd) {
        Some(j) => j,
        None => {
            return None;
        },
    };
    let kc = crate::text::string_to_chars("\"confidence_score\":");
    let (cs, je) = match parse_member_conf_exec(s, j4, &kc) {
        Some(x) => x,
        None => {
            return None;
        },
    };
    let jf = match parse_close_exec(s, je) {
        Some(j) => j,
        None => {
            return None;
        },
    };
    let a = AiAnalysis {
        file_purpose: fp,
        importance_level: il,
        potential_category: pc,
        deletion_recommendation: dr,
        confidence_centi: cs,
    };
    Some((a, jf))
}

fn parse_member_optai_exec(s: &Vec<char>, i: usize, kc: &Vec<char>) -> (r: Option<
    (Option<AiAnalysis>, usize),
>)
    ensures
        match r {
            Some((v, j)) => parse_member_optai(s@, i as int, kc@) == Some(
                (
                    match v {
                        Some(ref a) => Some(a@),
                        None => None,
                    },
                    j as int,
                ),
            ) && j <= s@.len() && match v {
                Some(ref a) => a.confidence_centi <= 100,
                None => true,
            },
            None => parse_member_optai(s@, i as int, kc@) is None,
        },
{
    match parse_kc_exec(s, i, kc) {
        Some(j) => {
            let nul = crate::text::string_to_chars("null");
            match crate::json::parse_lit_exec(s, j, &nul) {
                Some(j2) => Some((None, j2)),
                None => match parse_ai_exec(s, j) {
                    Some((a, j2)) => Some((Some(a), j2)),
                    None => None,
                },
            }
        },
        None => None,
    }
}

/// Parses one stored metadata record.
#[verifier::rlimit(60)]
pub fn parse_record_exec(s: &Vec<char>, i: usize) -> (r: Option<(FileMetadata, usize)>)
    ensures
        match r {
            Some((m, j)) => parse_record_at(s@, i as int) == Some((m@, j as int)) && j <= s@.len()
                && storable(m@),
            None => parse_record_at(s@, i as int) is None,
        },
{
    let mut brace: Vec<char> = Vec::new();
    brace.push('{');
    proof {
        assert(brace@ =~= seq!['{']);
    }
    let j0 = match crate::json::parse_lit_exec(s, i, &brace) {
        Some(j) => j,
        None => {
            return None;
        },
    };
    let kc = crate::text::string_to_chars("\"path\":");
    let (path, ja) = match parse_member_str_exec(s, j0, &kc) {
        Some(x) => x,
        None => {
            return None;
        },
    };
    let j1 = match parse_comma_exec(s, ja) {
        Some(j) => j,
        None => {
            return None;
        },
    };
    let kc = crate::text::string_to_chars("\"file_name\":");
    let (file_name, jb) = match parse_member_str_exec(s, j1, &kc) {
        Some(x) => x,
        None => {
            return None;
        },
    };
    let j2 = match parse_comma_exec(s, jb) {
        Some(j) => j,
        None => {
            return None;
        },
    };
    let kc = crate::text::string_to_chars("\"extension\":");
    let (extension, jc) = match parse_member_str_exec(s, j2, &kc) {
        Some(x) => x,
        None => {
            return None;
        },
    };
    let j3 = match parse_comma_exec(s, jc) {
        Some(j) => j,
        None => {
            return None;
        },
    };
    let kc = crate::text::string_to_chars("\"size\":");
    let (size, jd) = match parse_member_u64_exec(s, j3, &kc) {
        Some(x) => x,
        None => {
            return None;
        },
    };
    let j4 = match parse_comma_exec(s, jd) {
        Some(j) => j,
        None => {
            return None;
        },
    };
    let kc = crate::text::string_to_chars("\"created\":");
    let (created, je) = match parse_member_i64_exec(s, j4, &kc) {
        Some(x) => x,
        None => {
            return None;
        },
    };
    let j5 = match parse_comma_exec(s, je) {
        Some(j) => j,
        None => {
            return None;
        },
    };
    let kc = crate::text::string_to_chars("\"modified\":");
    let (modified, jf) = match parse_member_i64_exec(s, j5, &kc) {
        Some(x) => x,
        None => {
            return None;
        },
    };
    let j6 = match parse_comma_exec(s, jf) {
        Some(j) => j,
        None => {
            return None;
        },
    };
    let kc = crate::text::string_to_chars("\"category\":");
    let (category, jg) = match parse_member_cat_exec(s, j6, &kc) {
        Some(x) => x,
        None => {
            return None;
        },
    };
    let j7 = match parse_comma_exec(s, jg) {
        Some(j) => j,
        None => {
            return None;
        },
    };
    let kc = crate::text::string_to_chars("\"mime_type\":");
    let (mime_type, jh) = match parse_member_str_exec(s, j7, &kc) {
        Some(x) => x,
        None => {
            return None;
        },
    };
    let j8 = match parse_comma_exec(s, jh) {
        Some(j) => j,
        None => {
            return None;
        },
    };
    let kc = crate::text::string_to_chars("\"importance_score\":");
    let (importance_score, ji) = match parse_member_u8_exec(s, j8, &kc) {
        Some(x) => x,
        None => {
            return None;
        },
    };
    let j9 = match parse_comma_exec(s, ji) {
        Some(j) => j,
        None => {
            return None;
        },
    };
    let kc = crate::text::string_to_chars("\"last_accessed\":");
    let (last_accessed, jj) = match parse_member_i64_exec(s, j9, &kc) {
        Some(x) => x,
        None => {
            return None;
        },
    };
    let j10 = match parse_comma_exec(s, jj) {
        Some(j) => j,
        None => {
            return None;
        },
    };
    let kc = crate::text::string_to_chars("\"is_duplicate\":");
    let (is_duplicate, jk) = match parse_member_bool_exec(s, j10, &kc) {
        Some(x) => x,
        None => {
            return None;
        },
    };
    let j11 = match parse_comma_exec(s, jk) {
        Some(j) => j,
        None => {
            return None;
        },
    };
    let kc = crate::text::string_to_chars("\"duplicate_of\":");
    let (duplicate_of, jl) = match parse_member_optstr_exec(s, j11, &kc) {
        Some(x) => x,
        None => {
            return None;
        },
    };
    let j12 = match parse_comma_exec(s, jl) {
        Some(j) => j,
        None => {
            return None;
        },
    };
    let kc = crate::text::string_to_chars("\"ai_analysis\":");
    let (ai_analysis, jm) = match parse_member_optai_exec(s, j12, &kc) {
        Some(x) => x,
        None => {
            return None;
        },
    };
    let jn = match parse_close_exec(s, jm) {
        Some(j) => j,
        None => {
            return None;
        },
    };
    let m = FileMetadata {
        path,
        file_name,
        extension,
        size,
        created,
        modified,
        category,
        mime_type,
        importance_score,
        last_accessed,
        is_duplicate,
        duplicate_of,
        ai_analysis,
    };
    Some((m, jn))
}

fn parse_entry_exec(s: &Vec<char>, i: usize) -> (r: Option<(FileMetadata, usize)>)
    ensures
        match r {
            Some((m, j)) => parse_entry(s@, i as int) == Some((m@, j as int)) && j <= s@.len()
                && storable(m@),
            None => parse_entry(s@, i as int) is None,
        },
{
    let j0 = crate::json::skip_ws_exec(s, i);
    let (_k, j1) = match crate::json::parse_jstring_exec(s, j0) {
        Some(x) => x,
        None => {
            return None;
        },
    };
    let j2 = crate::json::skip_ws_exec(s, j1);
    let mut colon: Vec<char> = Vec::new();
    colon.push(':');
    proof {
        assert(colon@ =~= seq![':']);
    }
    let j3 = match crate::json::parse_lit_exec(s, j2, &colon) {
        Some(j) => j,
        None => {
            return None;
        },
    };
    let j4 = crate::json::skip_ws_exec(s, j3);
    parse_record_exec(s, j4)
}

spec fn compose_records(pre: Seq<MetaView>, o: Option<(Seq<MetaView>, int)>) -> Option<
    (Seq<MetaView>, int),
> {
    match o {
        Some((t, j)) => Some((pre + t, j)),
        None => None,
    }
}

/// Parses a whole chunk file into its records.
#[verifier::rlimit(60)]
pub fn parse_chunk_exec(s: &Vec<char>) -> (r: Option<Vec<FileMetadata>>)
    ensures
        match r {
            Some(ref es) => parse_chunk_full(s@) == Some(crate::catalog::views_of(es@))
                && all_storable(crate::catalog::views_of(es@)),
            None => parse_chunk_full(s@) is None,
        },
{
    let j0 = crate::json::skip_ws_exec(s, 0);
    let mut brace: Vec<char> = Vec::new();
    brace.push('{');
    proof {
        assert(brace@ =~= seq!['{']);
    }
    let j1 = match crate::json::parse_lit_exec(s, j0, &brace) {
        Some(j) => j,
        None => {
            return None;
        },
    };
    match parse_close_exec(s, j1) {
        Some(j3) => {
            let e = crate::json::skip_ws_exec(s, j3);
            if e == s.len() {
                let out: Vec<FileMetadata> = Vec::new();
                proof {
                    assert(crate::catalog::views_of(out@) =~= Seq::<MetaView>::empty());
                }
                return Some(out);
            } else {
                return None;
            }
        },
        None => {
        },
    }
    let n: usize = s.len();
    let mut out: Vec<FileMetadata> = Vec::new();
    let mut k: usize = j1;
    loop
        invariant
            n == s@.len(),
            k <= n,
            parse_close(s@, j1 as int) is None,
            parse_lit(s@, skip_ws(s@, 0), seq!['{']) == Some(j1 as int),
            parse_chunk_members(s@, j1 as int) == compose_records(
                crate::catalog::views_of(out@),
                parse_chunk_members(s@, k as int),
            ),
            all_storable(crate::catalog::views_of(out@)),
        decreases n - k,
    {
        let (m, j) = match parse_entry_exec(s, k) {
            Some(x) => x,
            None => {
                return None;
            },
        };
        let ghost pre = crate::catalog::views_of(out@);
        match parse_comma_exec(s, j) {
            Some(j6) => {
                if j6 <= k {
                    return None;
                }
                out.push(m);
                proof {
                    assert(crate::catalog::views_of(out@) =~= pre.push(m@));
                    match parse_chunk_members(s@, j6 as int) {
                        Some((rest, jr)) => {
                            assert(parse_chunk_members(s@, k as int) == Some(
                                (seq![m@] + rest, jr),
                            ));
                            assert(pre + (seq![m@] + rest) =~= pre.push(m@) + rest);
                        },
                        None => {
                        },
                    }
                }
                k = j6;
            },
            None => {
                match parse_close_exec(s, j) {
                    Some(j7) => {
                        out.push(m);
                        proof {
                            assert(crate::catalog::views_of(out@) =~= pre.push(m@));
                            assert(parse_chunk_members(s@, k as int) == Some(
                                (seq![m@], j7 as int),
                            ));
                            assert(pre + seq![m@] =~= pre.push(m@));
                        }
                        let e = crate::json::skip_ws_exec(s, j7);
                        if e == s.len() {
                            return Some(out);
                        } else {
                            return None;
                        }
                    },
                    None => {
                        return None;
                    },
                }
            },
        }
    }
}

} // verus!
