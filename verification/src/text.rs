//! Character-level helpers shared by the analyzer, the scanner and the codec.
use vstd::prelude::*;

verus! {

/// Lowercases one ASCII letter; any other character is returned unchanged.
pub open spec fn ascii_lower_char(c: char) -> char {
    if 'A' <= c && c <= 'Z' {
        ((c as u8) + 32) as char
    } else {
        c
    }
}

/// Lowercases the ASCII letters of a sequence of characters.
pub open spec fn ascii_lower(s: Seq<char>) -> Seq<char> {
    s.map_values(|c: char| ascii_lower_char(c))
}

/// `p` is a prefix of `s`.
pub open spec fn is_prefix_of(p: Seq<char>, s: Seq<char>) -> bool {
    p.len() <= s.len() && s.subrange(0, p.len() as int) == p
}

/// Lowercases the ASCII letters of a string.
pub fn to_ascii_lowercase(s: &str) -> (r: String)
    ensures
        r@ == ascii_lower(s@),
{
    let cs = string_to_chars(s);
    let mut out: Vec<char> = Vec::new();
    let n: usize = cs.len();
    let mut i: usize = 0;
    while i < n
        invariant
            n == cs@.len(),
            cs@ == s@,
            i <= n,
            out@ == ascii_lower(s@.subrange(0, i as int)),
        decreases n - i,
    {
        let c = cs[i];
        let lc: char = if 'A' <= c && c <= 'Z' {
            (((c as u8) + 32) as char)
        } else {
            c
        };
        out.push(lc);
        proof {
            assert(s@.subrange(0, (i + 1) as int).map_values(|c: char| ascii_lower_char(c))
                =~= s@.subrange(0, i as int).map_values(|c: char| ascii_lower_char(c))
                    + seq![ascii_lower_char(s@[i as int])]);
        }
        i = i + 1;
    }
    proof {
        assert(s@.subrange(0, n as int) =~= s@);
    }
    chars_to_string(&out)
}

/// Relies on `core::iter::Iterator::collect` building a `String` from its
/// characters in order.
#[verifier::external_body]
pub fn chars_to_string(v: &Vec<char>) -> (r: String)
    ensures
        r@ == v@,
{
    v.iter().collect()
}

/// Relies on `str::chars` yielding the characters of the string in order and
/// `core::iter::Iterator::collect` gathering them into a `Vec`.
#[verifier::external_body]
pub fn string_to_chars(s: &str) -> (r: Vec<char>)
    ensures
        r@ == s@,
{
    s.chars().collect()
}

/// Character-for-character string equality.
pub fn str_eq(a: &str, b: &str) -> (r: bool)
    ensures
        r == (a@ == b@),
{
    let ca = string_to_chars(a);
    let cb = string_to_chars(b);
    chars_eq(&ca, &cb)
}

/// Element-for-element equality of two character vectors.
pub fn chars_eq(a: &Vec<char>, b: &Vec<char>) -> (r: bool)
    ensures
        r == (a@ == b@),
{
    if a.len() != b.len() {
        proof {
            assert(a@.len() != b@.len());
        }
        return false;
    }
    let n: usize = a.len();
    let mut i: usize = 0;
    while i < n
        invariant
            n == a@.len(),
            n == b@.len(),
            i <= n,
            forall|k: int| 0 <= k < i ==> a@[k] == b@[k],
        decreases n - i,
    {
        if a[i] != b[i] {
            return false;
        }
        i = i + 1;
    }
    proof {
        assert(a@ =~= b@);
    }
    true
}

/// Does `s` start with the prefix `p`?
pub fn chars_start_with(s: &Vec<char>, p: &Vec<char>) -> (r: bool)
    ensures
        r == is_prefix_of(p@, s@),
{
    if p.len() > s.len() {
        return false;
    }
    let n: usize = p.len();
    let mut i: usize = 0;
    while i < n
        invariant
            n == p@.len(),
            n <= s@.len(),
            i <= n,
            forall|k: int| 0 <= k < i ==> s@[k] == p@[k],
        decreases n - i,
    {
        if s[i] != p[i] {
            proof {
                assert(s@.subrange(0, n as int)[i as int] != p@[i as int]);
            }
            return false;
        }
        i = i + 1;
    }
    proof {
        assert(s@.subrange(0, n as int) =~= p@);
    }
    true
}

/// One decimal place of `size` over `unit`, rounded to the nearest tenth,
/// half upward.
pub open spec fn spec_size_dec1(size: int, unit: int) -> Seq<char> {
    let tenths = (size * 10 + unit / 2) / unit;
    crate::json::ser_udec(tenths / 10) + seq!['.', crate::json::digit_char(tenths % 10)]
}

/// The displayed form of a byte count: whole bytes under a kibibyte, else
/// one decimal place of the matching binary unit.
pub open spec fn spec_format_file_size(size: u64) -> Seq<char> {
    if size < 1024 {
        crate::json::ser_udec(size as int) + " B"@
    } else if size < 1048576 {
        spec_size_dec1(size as int, 1024) + " KB"@
    } else if size < 1073741824 {
        spec_size_dec1(size as int, 1048576) + " MB"@
    } else {
        spec_size_dec1(size as int, 1073741824) + " GB"@
    }
}

/// Emits one decimal place of `size` over `unit`, rounded half upward.
fn emit_size_dec1(buf: &mut Vec<char>, size: u64, unit: u64)
    requires
        unit == 1024 || unit == 1048576 || unit == 1073741824,
    ensures
        final(buf)@ == old(buf)@ + spec_size_dec1(size as int, unit as int),
{
    let t128: u128 = ((size as u128) * 10 + (unit as u128) / 2) / (unit as u128);
    proof {
        assert((size as u128) * 10 == (size as int) * 10) by (nonlinear_arith)
            requires
                0 <= size <= u64::MAX,
        ;
        assert(t128 as int == ((size as int) * 10 + (unit as int) / 2) / (unit as int));
        assert(((size as int) * 10 + (unit as int) / 2) / (unit as int) <= u64::MAX) by (
        nonlinear_arith)
            requires
                0 <= size <= u64::MAX,
                1024 <= unit,
        ;
    }
    let tenths: u64 = t128 as u64;
    let whole: u64 = tenths / 10;
    let frac: u64 = tenths % 10;
    crate::json::emit_u64(buf, whole);
    buf.push('.');
    buf.push((('0' as u8) + (frac as u8)) as char);
    proof {
        assert((('0' as u8) + (frac as u8)) as char == crate::json::digit_char(frac as int));
        assert(buf@ =~= old(buf)@ + spec_size_dec1(size as int, unit as int));
    }
}

/// Displays a byte count for a reader: `512 B`, `1.5 KB`, `2.0 MB`,
/// `3.4 GB`, each decimal rounded to the nearest tenth, half upward.
pub fn format_file_size(size: u64) -> (r: String)
    ensures
        r@ == spec_format_file_size(size),
{
    let mut buf: Vec<char> = Vec::new();
    if size < 1024 {
        crate::json::emit_u64(&mut buf, size);
        crate::json::emit_str(&mut buf, " B");
    } else if size < 1048576 {
        emit_size_dec1(&mut buf, size, 1024);
        crate::json::emit_str(&mut buf, " KB");
    } else if size < 1073741824 {
        emit_size_dec1(&mut buf, size, 1048576);
        crate::json::emit_str(&mut buf, " MB");
    } else {
        emit_size_dec1(&mut buf, size, 1073741824);
        crate::json::emit_str(&mut buf, " GB");
    }
    chars_to_string(&buf)
}

} // verus!
