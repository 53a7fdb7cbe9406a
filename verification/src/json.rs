//! Character-level JSON primitives: decimal numbers, escaped strings,
//! literals and whitespace, each with a serializer, a parser, and the lemmas
//! that make them inverse to one another.
use vstd::prelude::*;

verus! {

broadcast use vstd::utf8::char_u32_cast, vstd::utf8::char_is_scalar;

// ---------------------------------------------------------------- characters
pub open spec fn is_digit(c: char) -> bool {
    '0' <= c && c <= '9'
}

pub open spec fn digit_val(c: char) -> int {
    c as int - '0' as int
}

pub open spec fn digit_char(d: int) -> char {
    (('0' as u8) + d as u8) as char
}

pub open spec fn is_ws(c: char) -> bool {
    c == ' ' || c == '\n' || c == '\t' || c == '\r'
}

pub open spec fn is_hex(c: char) -> bool {
    is_digit(c) || ('a' <= c && c <= 'f') || ('A' <= c && c <= 'F')
}

pub open spec fn hex_val(c: char) -> int {
    if is_digit(c) {
        digit_val(c)
    } else if 'a' <= c && c <= 'f' {
        10 + c as int - 'a' as int
    } else {
        10 + c as int - 'A' as int
    }
}

pub open spec fn hex_digit_char(d: int) -> char {
    if d < 10 {
        digit_char(d)
    } else {
        (('a' as u8) + (d - 10) as u8) as char
    }
}

// ------------------------------------------------------------------- powers
pub open spec fn pow10(k: int) -> int
    decreases k,
{
    if k <= 0 {
        1
    } else {
        10 * pow10(k - 1)
    }
}

proof fn lemma_pow10_pos(k: int)
    ensures
        pow10(k) >= 1,
    decreases k,
{
    if k > 0 {
        lemma_pow10_pos(k - 1);
    }
}

// ---------------------------------------------------- unsigned decimal text
/// The decimal digits of a nonnegative integer, most significant first.
pub open spec fn ser_udec(n: int) -> Seq<char>
    decreases n,
{
    if n < 10 {
        seq![digit_char(n)]
    } else {
        ser_udec(n / 10).push(digit_char(n % 10))
    }
}

/// The value a sequence of digit characters denotes.
pub open spec fn val_of_digits(ds: Seq<char>) -> int
    decreases ds.len(),
{
    if ds.len() == 0 {
        0
    } else {
        val_of_digits(ds.drop_last()) * 10 + digit_val(ds.last())
    }
}

pub open spec fn all_digits(ds: Seq<char>) -> bool {
    forall|k: int| 0 <= k < ds.len() ==> is_digit(ds[k])
}

proof fn lemma_ser_udec_digits(n: int)
    requires
        n >= 0,
    ensures
        ser_udec(n).len() >= 1,
        all_digits(ser_udec(n)),
        val_of_digits(ser_udec(n)) == n,
    decreases n,
{
    if n < 10 {
        assert(is_digit(digit_char(n)));
        assert(ser_udec(n) =~= seq![digit_char(n)]);
        assert(ser_udec(n).drop_last() =~= Seq::<char>::empty());
        assert(val_of_digits(Seq::<char>::empty()) == 0);
        assert(val_of_digits(ser_udec(n)) == digit_val(digit_char(n)));
    } else {
        lemma_ser_udec_digits(n / 10);
        let ds = ser_udec(n);
        assert(ds == ser_udec(n / 10).push(digit_char(n % 10)));
        assert(ds.drop_last() =~= ser_udec(n / 10));
        assert(ds.last() == digit_char(n % 10));
        assert(digit_val(digit_char(n % 10)) == n % 10);
        assert forall|k: int| 0 <= k < ds.len() implies is_digit(ds[k]) by {
            if k < ds.len() - 1 {
                assert(ds[k] == ser_udec(n / 10)[k]);
            }
        }
    }
}

/// A serialized number starts with a digit, which is no whitespace.
pub proof fn lemma_ser_udec_first_digit(n: int)
    requires
        n >= 0,
    ensures
        ser_udec(n).len() >= 1,
        is_digit(ser_udec(n)[0]),
        !is_ws(ser_udec(n)[0]),
{
    lemma_ser_udec_digits(n);
}

/// A digit sequence may also be valued by peeling its first digit.
proof fn lemma_val_left_peel(ds: Seq<char>)
    requires
        ds.len() >= 1,
    ensures
        val_of_digits(ds) == digit_val(ds[0]) * pow10(ds.len() - 1) + val_of_digits(
            ds.drop_first(),
        ),
    decreases ds.len(),
{
    if ds.len() == 1 {
        assert(ds.drop_first() =~= Seq::<char>::empty());
        assert(ds.drop_last() =~= Seq::<char>::empty());
    } else {
        let dl = ds.drop_last();
        lemma_val_left_peel(dl);
        assert(dl[0] == ds[0]);
        assert(dl.drop_first() =~= ds.drop_first().drop_last());
        assert(ds.drop_first().last() == ds.last());
        assert(val_of_digits(ds.drop_first()) == val_of_digits(ds.drop_first().drop_last()) * 10
            + digit_val(ds.last()));
        assert(val_of_digits(ds) == val_of_digits(dl) * 10 + digit_val(ds.last()));
        assert(val_of_digits(dl) * 10 == (digit_val(ds[0]) * pow10(dl.len() - 1) + val_of_digits(
            dl.drop_first(),
        )) * 10);
        assert((digit_val(ds[0]) * pow10(dl.len() - 1) + val_of_digits(dl.drop_first())) * 10
            == digit_val(ds[0]) * pow10(dl.len() - 1) * 10 + val_of_digits(dl.drop_first()) * 10)
            by (nonlinear_arith);
        assert(digit_val(ds[0]) * pow10(dl.len() - 1) * 10 == digit_val(ds[0]) * pow10(
            ds.len() - 1,
        )) by (nonlinear_arith)
            requires
                pow10(ds.len() - 1) == 10 * pow10(dl.len() - 1),
                dl.len() == ds.len() - 1,
        ;
    }
}

proof fn lemma_val_nonneg(ds: Seq<char>)
    requires
        all_digits(ds),
    ensures
        val_of_digits(ds) >= 0,
    decreases ds.len(),
{
    if ds.len() > 0 {
        assert(all_digits(ds.drop_last()));
        lemma_val_nonneg(ds.drop_last());
        assert(is_digit(ds.last()));
    }
}

// -------------------------------------------------------------- number parse
/// Consumes decimal digits starting at `i`, extending the accumulator, and
/// stops at the first non-digit; fails on overflow of a 64-bit value.
pub open spec fn parse_digits(s: Seq<char>, i: int, acc: u64) -> Option<(u64, int)>
    decreases s.len() - i,
{
    if !(0 <= i <= s.len()) {
        None
    } else if i == s.len() || !is_digit(s[i]) {
        Some((acc, i))
    } else {
        let d = digit_val(s[i]);
        if acc > (u64::MAX - d as u64) / 10 {
            None
        } else {
            parse_digits(s, i + 1, (acc * 10 + d) as u64)
        }
    }
}

/// An unsigned decimal number: one digit or more, greedily.
pub open spec fn parse_udec(s: Seq<char>, i: int) -> Option<(u64, int)> {
    if 0 <= i < s.len() && is_digit(s[i]) {
        parse_digits(s, i, 0)
    } else {
        None
    }
}

proof fn lemma_parse_digits_region(s: Seq<char>, i: int, j: int, acc: u64)
    requires
        0 <= i <= j <= s.len(),
        forall|k: int| i <= k < j ==> is_digit(s[k]),
        j == s.len() || !is_digit(s[j]),
        acc * pow10(j - i) + val_of_digits(s.subrange(i, j)) <= u64::MAX,
        all_digits(s.subrange(i, j)),
    ensures
        parse_digits(s, i, acc) == Some(
            ((acc * pow10(j - i) + val_of_digits(s.subrange(i, j))) as u64, j),
        ),
    decreases j - i,
{
    let region = s.subrange(i, j);
    lemma_val_nonneg(region);
    if i == j {
        assert(region =~= Seq::<char>::empty());
        assert(pow10(0) == 1);
    } else {
        assert(is_digit(s[i]));
        let d = digit_val(s[i]);
        lemma_val_left_peel(region);
        assert(region[0] == s[i]);
        assert(region.drop_first() =~= s.subrange(i + 1, j));
        let tailv = val_of_digits(s.subrange(i + 1, j));
        assert(all_digits(s.subrange(i + 1, j)));
        lemma_val_nonneg(s.subrange(i + 1, j));
        lemma_pow10_pos(j - i - 1);
        // the accumulator step stays within 64 bits
        assert(val_of_digits(region) == d * pow10(j - i - 1) + tailv);
        assert(pow10(j - i) == 10 * pow10(j - i - 1));
        assert(acc * pow10(j - i) == acc * 10 * pow10(j - i - 1)) by (nonlinear_arith)
            requires
                pow10(j - i) == 10 * pow10(j - i - 1),
        ;
        assert(d * pow10(j - i - 1) >= d) by (nonlinear_arith)
            requires
                pow10(j - i - 1) >= 1,
                d >= 0,
        ;
        assert(acc * 10 * pow10(j - i - 1) >= acc * 10) by (nonlinear_arith)
            requires
                pow10(j - i - 1) >= 1,
                acc >= 0,
        ;
        assert(acc * 10 + d <= u64::MAX);
        assert(!(acc > (u64::MAX - d as u64) / 10)) by {
            if acc > (u64::MAX - d as u64) / 10 {
                assert(acc >= (u64::MAX - d as u64) / 10 + 1);
                assert(acc * 10 >= ((u64::MAX - d as u64) / 10 + 1) * 10) by (nonlinear_arith)
                    requires
                        acc >= (u64::MAX - d as u64) / 10 + 1,
                ;
                assert(((u64::MAX - d as u64) / 10 + 1) * 10 > u64::MAX - d as u64);
            }
        }
        let acc2: u64 = (acc * 10 + d) as u64;
        assert(acc2 * pow10(j - i - 1) + tailv == acc * pow10(j - i) + val_of_digits(region))
            by (nonlinear_arith)
            requires
                acc2 == acc * 10 + d,
                pow10(j - i) == 10 * pow10(j - i - 1),
                val_of_digits(region) == d * pow10(j - i - 1) + tailv,
        ;
        lemma_parse_digits_region(s, i + 1, j, acc2);
    }
}

/// Parsing right after serializing an unsigned number yields it back.
pub proof fn lemma_parse_ser_udec(s: Seq<char>, i: int, n: u64)
    requires
        0 <= i,
        i + ser_udec(n as int).len() <= s.len(),
        s.subrange(i, i + ser_udec(n as int).len()) == ser_udec(n as int),
        i + ser_udec(n as int).len() == s.len() || !is_digit(s[i + ser_udec(n as int).len()]),
    ensures
        parse_udec(s, i) == Some((n, i + ser_udec(n as int).len())),
{
    let ds = ser_udec(n as int);
    let j = i + ds.len();
    lemma_ser_udec_digits(n as int);
    assert forall|k: int| i <= k < j implies is_digit(s[k]) by {
        assert(s[k] == ds[k - i]);
    }
    assert(all_digits(s.subrange(i, j)));
    assert(s[i] == ds[0]);
    lemma_parse_digits_region(s, i, j, 0);
    assert(0 * pow10(j - i) == 0) by (nonlinear_arith);
    assert(val_of_digits(s.subrange(i, j)) == n);
}

// ------------------------------------------------------------ signed decimal
/// The decimal text of a signed 64-bit value.
pub open spec fn ser_i64(n: i64) -> Seq<char> {
    if n >= 0 {
        ser_udec(n as int)
    } else {
        seq!['-'] + ser_udec(-(n as int))
    }
}

/// A signed decimal number: an optional minus sign, then digits, within the
/// bounds of a 64-bit signed value.
pub open spec fn parse_i64_at(s: Seq<char>, i: int) -> Option<(i64, int)> {
    if 0 <= i < s.len() && s[i] == '-' {
        match parse_udec(s, i + 1) {
            Some((v, j)) => if v <= 9223372036854775808u64 {
                Some(((-(v as int)) as i64, j))
            } else {
                None
            },
            None => None,
        }
    } else {
        match parse_udec(s, i) {
            Some((v, j)) => if v <= i64::MAX as u64 {
                Some((v as i64, j))
            } else {
                None
            },
            None => None,
        }
    }
}

/// Parsing right after serializing a signed number yields it back.
pub proof fn lemma_parse_ser_i64(s: Seq<char>, i: int, n: i64)
    requires
        0 <= i,
        i + ser_i64(n).len() <= s.len(),
        s.subrange(i, i + ser_i64(n).len()) == ser_i64(n),
        i + ser_i64(n).len() == s.len() || !is_digit(s[i + ser_i64(n).len()]),
    ensures
        parse_i64_at(s, i) == Some((n, i + ser_i64(n).len())),
{
    if n >= 0 {
        lemma_parse_ser_udec(s, i, n as u64);
        lemma_ser_udec_digits(n as int);
        assert(s[i] == ser_udec(n as int)[0]);
        assert(is_digit(s[i]));
        assert(s[i] != '-');
    } else {
        let m = -(n as int);
        let ds = ser_udec(m);
        lemma_ser_udec_digits(m);
        assert(s[i] == (seq!['-'] + ds)[0]);
        assert(s[i] == '-');
        assert(s.subrange(i + 1, i + 1 + ds.len()) =~= ds) by {
            assert forall|k: int| 0 <= k < ds.len() implies s.subrange(i + 1, i + 1 + ds.len())[k]
                == ds[k] by {
                assert(s[i + 1 + k] == (seq!['-'] + ds)[1 + k]);
            }
        }
        lemma_parse_ser_udec(s, i + 1, m as u64);
        assert(m <= 9223372036854775808);
    }
}

// ------------------------------------------------------------------- strings
/// The JSON escape of one character: quote and backslash get a backslash,
/// control characters become a `\u00XX` escape, everything else stands as
/// itself.
pub open spec fn esc_char(c: char) -> Seq<char> {
    if c == '"' {
        seq!['\\', '"']
    } else if c == '\\' {
        seq!['\\', '\\']
    } else if (c as u32) < 32 {
        seq![
            '\\',
            'u',
            '0',
            '0',
            hex_digit_char(((c as u32) / 16) as int),
            hex_digit_char(((c as u32) % 16) as int),
        ]
    } else {
        seq![c]
    }
}

/// The JSON escape of a whole string body.
pub open spec fn esc(s: Seq<char>) -> Seq<char>
    decreases s.len(),
{
    if s.len() == 0 {
        Seq::empty()
    } else {
        esc_char(s[0]) + esc(s.drop_first())
    }
}

/// A quoted, escaped JSON string.
pub open spec fn ser_jstring(s: Seq<char>) -> Seq<char> {
    seq!['"'] + esc(s) + seq!['"']
}

/// The body of a JSON string from `i` up to its closing quote.  Escapes
/// above `ÿ` are not accepted; the serializer never emits them.
pub open spec fn parse_strbody(s: Seq<char>, i: int) -> Option<(Seq<char>, int)>
    decreases s.len() - i,
{
    if !(0 <= i < s.len()) {
        None
    } else {
        let c = s[i];
        if c == '"' {
            Some((Seq::empty(), i + 1))
        } else if c == '\\' {
            if i + 1 >= s.len() {
                None
            } else {
                let e = s[i + 1];
                if e == '"' || e == '\\' || e == '/' {
                    match parse_strbody(s, i + 2) {
                        Some((t, j)) => Some((seq![e] + t, j)),
                        None => None,
                    }
                } else if e == 'n' {
                    match parse_strbody(s, i + 2) {
                        Some((t, j)) => Some((seq!['\n'] + t, j)),
                        None => None,
                    }
                } else if e == 't' {
                    match parse_strbody(s, i + 2) {
                        Some((t, j)) => Some((seq!['\t'] + t, j)),
                        None => None,
                    }
                } else if e == 'r' {
                    match parse_strbody(s, i + 2) {
                        Some((t, j)) => Some((seq!['\r'] + t, j)),
                        None => None,
                    }
                } else if e == 'b' {
                    match parse_strbody(s, i + 2) {
                        Some((t, j)) => Some((seq![(8u8 as char)] + t, j)),
                        None => None,
                    }
                } else if e == 'f' {
                    match parse_strbody(s, i + 2) {
                        Some((t, j)) => Some((seq![(12u8 as char)] + t, j)),
                        None => None,
                    }
                } else if e == 'u' {
                    if i + 6 > s.len() {
                        None
                    } else if is_hex(s[i + 2]) && is_hex(s[i + 3]) && is_hex(s[i + 4]) && is_hex(
                        s[i + 5],
                    ) {
                        let v = hex_val(s[i + 2]) * 4096 + hex_val(s[i + 3]) * 256 + hex_val(
                            s[i + 4],
                        ) * 16 + hex_val(s[i + 5]);
                        if v <= 255 {
                            match parse_strbody(s, i + 6) {
                                Some((t, j)) => Some((seq![(v as u8) as char] + t, j)),
                                None => None,
                            }
                        } else {
                            None
                        }
                    } else {
                        None
                    }
                } else {
                    None
                }
            }
        } else if (c as u32) < 32 {
            None
        } else {
            match parse_strbody(s, i + 1) {
                Some((t, j)) => Some((seq![c] + t, j)),
                None => None,
            }
        }
    }
}

/// A whole JSON string, opening quote included.
pub open spec fn parse_jstring(s: Seq<char>, i: int) -> Option<(Seq<char>, int)> {
    if 0 <= i < s.len() && s[i] == '"' {
        parse_strbody(s, i + 1)
    } else {
        None
    }
}

proof fn lemma_hex_digit_val(d: int)
    requires
        0 <= d < 16,
    ensures
        is_hex(hex_digit_char(d)),
        hex_val(hex_digit_char(d)) == d,
{
}

/// The code a control character's escape digits denote casts back to it.
proof fn lemma_ctrl_code(c: char, code: int)
    requires
        (c as u32) < 32,
        code == ((c as u32) / 16) * 16 + ((c as u32) % 16),
    ensures
        code == (c as u32) as int,
        0 <= code <= 255,
        ((code as u8) as char) == c,
{
}

/// An ordinary character escapes to itself.
proof fn lemma_raw_esc(c: char)
    requires
        c != '"',
        c != '\\',
        !((c as u32) < 32),
    ensures
        esc_char(c) == seq![c],
{
}

/// The hexadecimal digit characters a control character is emitted with.
proof fn lemma_emit_hex_chars(c: char, code: u8, hi: u8, lo: u8)
    requires
        (c as u32) < 32,
        code == c as u8,
        hi == code / 16,
        lo == code % 16,
    ensures
        hi < 10,
        (('0' as u8) + hi) as char == hex_digit_char(((c as u32) / 16) as int),
        (if lo < 10 {
            (('0' as u8) + lo) as char
        } else {
            (('a' as u8) + (lo - 10)) as char
        }) == hex_digit_char(((c as u32) % 16) as int),
{
}

/// Parsing a string body right after the escape of `v` plus a closing quote
/// yields `v` back.
#[verifier::rlimit(60)]
pub proof fn lemma_parse_strbody_esc(s: Seq<char>, i: int, v: Seq<char>)
    requires
        0 <= i,
        i + esc(v).len() + 1 <= s.len(),
        s.subrange(i, i + esc(v).len() + 1) == esc(v) + seq!['"'],
    ensures
        parse_strbody(s, i) == Some((v, i + esc(v).len() + 1)),
    decreases v.len(),
{
    let region = esc(v) + seq!['"'];
    if v.len() == 0 {
        assert(esc(v) =~= Seq::<char>::empty());
        assert(s[i] == region[0]);
        assert(s[i] == '"');
    } else {
        let c = v[0];
        let head = esc_char(c);
        let tail = v.drop_first();
        assert(esc(v) == head + esc(tail));
        assert forall|k: int| 0 <= k < head.len() implies s[i + k] == head[k] by {
            assert(s[i + k] == region[k]);
            assert(region[k] == (head + esc(tail))[k]);
        }
        let i2 = i + head.len();
        assert(s.subrange(i2, i2 + esc(tail).len() + 1) =~= esc(tail) + seq!['"']) by {
            assert forall|k: int| 0 <= k < esc(tail).len() + 1 implies s.subrange(
                i2,
                i2 + esc(tail).len() + 1,
            )[k] == (esc(tail) + seq!['"'])[k] by {
                assert(s[i2 + k] == region[head.len() + k]);
                if k < esc(tail).len() {
                    assert(region[head.len() + k] == esc(v)[head.len() + k]);
                    assert(esc(v)[head.len() + k] == esc(tail)[k]);
                }
            }
        }
        lemma_parse_strbody_esc(s, i2, tail);
        if c == '"' {
            assert(s[i] == '\\');
            assert(s[i + 1] == '"');
            assert(seq![s[i + 1]] + tail =~= v);
        } else if c == '\\' {
            assert(s[i] == '\\');
            assert(s[i + 1] == '\\');
            assert(seq![s[i + 1]] + tail =~= v);
        } else if (c as u32) < 32 {
            assert(s[i] == '\\');
            assert(s[i + 1] == 'u');
            assert(s[i + 2] == '0');
            assert(s[i + 3] == '0');
            assert(s[i + 4] == hex_digit_char(((c as u32) / 16) as int));
            assert(s[i + 5] == hex_digit_char(((c as u32) % 16) as int));
            lemma_hex_digit_val(((c as u32) / 16) as int);
            lemma_hex_digit_val(((c as u32) % 16) as int);
            assert(hex_val('0') == 0);
            let code = hex_val(s[i + 2]) * 4096 + hex_val(s[i + 3]) * 256 + hex_val(s[i + 4]) * 16
                + hex_val(s[i + 5]);
            assert(code == ((c as u32) / 16) * 16 + ((c as u32) % 16));
            lemma_ctrl_code(c, code);
            assert(((code as u8) as char) == c);
            assert(seq![(code as u8) as char] + tail =~= v);
        } else {
            lemma_raw_esc(c);
            assert(s[i + 0] == head[0]);
            assert(s[i] == c);
            assert(seq![c] + tail =~= v);
        }
    }
}

/// Parsing right after serializing a string yields it back.
pub proof fn lemma_parse_ser_jstring(s: Seq<char>, i: int, v: Seq<char>)
    requires
        0 <= i,
        i + ser_jstring(v).len() <= s.len(),
        s.subrange(i, i + ser_jstring(v).len()) == ser_jstring(v),
    ensures
        parse_jstring(s, i) == Some((v, i + ser_jstring(v).len())),
{
    let whole = ser_jstring(v);
    assert(s[i] == whole[0]);
    assert(s[i] == '"');
    assert(s.subrange(i + 1, i + 1 + esc(v).len() + 1) =~= esc(v) + seq!['"']) by {
        assert forall|k: int| 0 <= k < esc(v).len() + 1 implies s.subrange(
            i + 1,
            i + 1 + esc(v).len() + 1,
        )[k] == (esc(v) + seq!['"'])[k] by {
            assert(s[i + 1 + k] == whole[1 + k]);
            if k < esc(v).len() {
                assert(whole[1 + k] == esc(v)[k]);
            } else {
                assert(whole[1 + k] == '"');
            }
        }
    }
    lemma_parse_strbody_esc(s, i + 1, v);
}

// ------------------------------------------------------- literals, whitespace
/// Expects the exact characters of `lit` at `i`.
pub open spec fn parse_lit(s: Seq<char>, i: int, lit: Seq<char>) -> Option<int> {
    if 0 <= i && i + lit.len() <= s.len() && s.subrange(i, i + lit.len()) == lit {
        Some(i + lit.len())
    } else {
        None
    }
}

/// The first position at or after `i` holding no whitespace.
pub open spec fn skip_ws(s: Seq<char>, i: int) -> int
    decreases s.len() - i,
{
    if 0 <= i < s.len() && is_ws(s[i]) {
        skip_ws(s, i + 1)
    } else {
        i
    }
}

// ---------------------------------------------------------------- exec: emit
/// Appends the characters of `lit` to the buffer.
pub fn emit_str(buf: &mut Vec<char>, lit: &str)
    ensures
        final(buf)@ == old(buf)@ + lit@,
{
    let cs = crate::text::string_to_chars(lit);
    let n: usize = cs.len();
    let mut i: usize = 0;
    while i < n
        invariant
            n == cs@.len(),
            cs@ == lit@,
            i <= n,
            buf@ == old(buf)@ + lit@.subrange(0, i as int),
        decreases n - i,
    {
        buf.push(cs[i]);
        proof {
            assert(old(buf)@ + lit@.subrange(0, (i + 1) as int) =~= (old(buf)@ + lit@.subrange(
                0,
                i as int,
            )).push(lit@[i as int]));
        }
        i = i + 1;
    }
    proof {
        assert(lit@.subrange(0, n as int) =~= lit@);
    }
}

/// Appends the decimal digits of `n` to the buffer.
pub fn emit_u64(buf: &mut Vec<char>, n: u64)
    ensures
        final(buf)@ == old(buf)@ + ser_udec(n as int),
{
    if n == 0 {
        buf.push('0');
        proof {
            assert(ser_udec(0) =~= seq![digit_char(0)]);
            assert(digit_char(0) == '0');
            assert(old(buf)@ + ser_udec(0) =~= old(buf)@.push('0'));
        }
        return ;
    }
    let mut tmp: Vec<char> = Vec::new();
    let mut m: u64 = n;
    while m > 0
        invariant
            n > 0,
            if m > 0 {
                ser_udec(n as int) == ser_udec(m as int) + tmp@.reverse()
            } else {
                ser_udec(n as int) == tmp@.reverse()
            },
        decreases m,
    {
        let d: u64 = m % 10;
        let c: char = (('0' as u8) + (d as u8)) as char;
        proof {
            assert(c == digit_char(d as int));
            let t2 = tmp@.push(c);
            assert(t2.reverse() =~= seq![c] + tmp@.reverse());
            if m >= 10 {
                assert(ser_udec(m as int) == ser_udec(m as int / 10).push(digit_char(m as int % 10)));
                assert(ser_udec(m as int) + tmp@.reverse() =~= ser_udec(m as int / 10) + (seq![c]
                    + tmp@.reverse()));
            } else {
                assert(ser_udec(m as int) =~= seq![c]);
                assert(ser_udec(m as int) + tmp@.reverse() =~= seq![c] + tmp@.reverse());
            }
        }
        tmp.push(c);
        m = m / 10;
    }
    let t: usize = tmp.len();
    let ghost ds = ser_udec(n as int);
    proof {
        assert(ds == tmp@.reverse());
        assert(ds.len() == t as int);
    }
    let mut j: usize = 0;
    while j < t
        invariant
            t == tmp@.len(),
            ds == tmp@.reverse(),
            ds.len() == t as int,
            j <= t,
            buf@ == old(buf)@ + ds.subrange(0, j as int),
        decreases t - j,
    {
        let c = tmp[t - 1 - j];
        proof {
            assert(ds[j as int] == tmp@[t - 1 - j as int]);
            assert(old(buf)@ + ds.subrange(0, (j + 1) as int) =~= (old(buf)@ + ds.subrange(
                0,
                j as int,
            )).push(ds[j as int]));
        }
        buf.push(c);
        j = j + 1;
    }
    proof {
        assert(ds.subrange(0, t as int) =~= ds);
    }
}

/// Appends the decimal text of a signed value to the buffer.
pub fn emit_i64(buf: &mut Vec<char>, n: i64)
    ensures
        final(buf)@ == old(buf)@ + ser_i64(n),
{
    if n >= 0 {
        emit_u64(buf, n as u64);
    } else {
        buf.push('-');
        let m: u64 = ((-(n as i128)) as u64);
        proof {
            assert(m as int == -(n as int));
        }
        emit_u64(buf, m);
        proof {
            assert(buf@ =~= old(buf)@ + (seq!['-'] + ser_udec(-(n as int))));
        }
    }
}

/// Appends the quoted, escaped form of `v` to the buffer.
#[verifier::rlimit(60)]
pub fn emit_jstring(buf: &mut Vec<char>, v: &str)
    ensures
        final(buf)@ == old(buf)@ + ser_jstring(v@),
{
    let cs = crate::text::string_to_chars(v);
    buf.push('"');
    let n: usize = cs.len();
    let mut i: usize = 0;
    while i < n
        invariant
            n == cs@.len(),
            cs@ == v@,
            i <= n,
            buf@ == old(buf)@ + seq!['"'] + esc(v@.subrange(0, i as int)),
        decreases n - i,
    {
        let c = cs[i];
        proof {
            lemma_esc_snoc(v@.subrange(0, i as int), c);
            assert(v@.subrange(0, (i + 1) as int) =~= v@.subrange(0, i as int).push(c));
        }
        if c == '"' {
            buf.push('\\');
            buf.push('"');
            proof {
                assert(buf@ =~= old(buf)@ + seq!['"'] + (esc(v@.subrange(0, i as int))
                    + esc_char(c)));
            }
        } else if c == '\\' {
            buf.push('\\');
            buf.push('\\');
            proof {
                assert(buf@ =~= old(buf)@ + seq!['"'] + (esc(v@.subrange(0, i as int))
                    + esc_char(c)));
            }
        } else if (c as u32) < 32 {
            let code: u8 = c as u8;
            let hi: u8 = code / 16;
            let lo: u8 = code % 16;
            let hic: char = if hi < 10 {
                (('0' as u8) + hi) as char
            } else {
                (('a' as u8) + (hi - 10)) as char
            };
            let loc: char = if lo < 10 {
                (('0' as u8) + lo) as char
            } else {
                (('a' as u8) + (lo - 10)) as char
            };
            buf.push('\\');
            buf.push('u');
            buf.push('0');
            buf.push('0');
            buf.push(hic);
            buf.push(loc);
            proof {
                lemma_emit_hex_chars(c, code, hi, lo);
                assert(hic == hex_digit_char(((c as u32) / 16) as int));
                assert(loc == hex_digit_char(((c as u32) % 16) as int));
                assert(buf@ =~= old(buf)@ + seq!['"'] + (esc(v@.subrange(0, i as int))
                    + esc_char(c)));
            }
        } else {
            buf.push(c);
            proof {
                lemma_raw_esc(c);
                assert(buf@ =~= old(buf)@ + seq!['"'] + (esc(v@.subrange(0, i as int))
                    + esc_char(c)));
            }
        }
        i = i + 1;
    }
    buf.push('"');
    proof {
        assert(v@.subrange(0, n as int) =~= v@);
        assert(buf@ =~= old(buf)@ + ser_jstring(v@));
    }
}

/// Escaping a string extended by one character appends that character's
/// escape.
proof fn lemma_esc_snoc(s: Seq<char>, c: char)
    ensures
        esc(s.push(c)) == esc(s) + esc_char(c),
    decreases s.len(),
{
    if s.len() == 0 {
        assert(s.push(c)[0] == c);
        assert(s.push(c).drop_first() =~= Seq::<char>::empty());
        assert(esc(Seq::<char>::empty()) =~= Seq::<char>::empty());
        assert(esc(s.push(c)) =~= esc_char(c));
        assert(esc(s) + esc_char(c) =~= esc_char(c));
    } else {
        assert(s.push(c)[0] == s[0]);
        assert(s.push(c).drop_first() =~= s.drop_first().push(c));
        lemma_esc_snoc(s.drop_first(), c);
        assert(esc(s.push(c)) == esc_char(s[0]) + (esc(s.drop_first()) + esc_char(c)));
        assert(esc_char(s[0]) + (esc(s.drop_first()) + esc_char(c)) =~= (esc_char(s[0]) + esc(
            s.drop_first(),
        )) + esc_char(c));
    }
}

// --------------------------------------------------------------- exec: parse
/// Advances past whitespace.
pub fn skip_ws_exec(s: &Vec<char>, i: usize) -> (j: usize)
    ensures
        j as int == skip_ws(s@, i as int),
        i <= j <= s@.len() || j == i,
{
    let n: usize = s.len();
    let mut k: usize = i;
    while k < n && (s[k] == ' ' || s[k] == '\n' || s[k] == '\t' || s[k] == '\r')
        invariant
            n == s@.len(),
            i <= k,
            k <= n || k == i,
            skip_ws(s@, i as int) == skip_ws(s@, k as int),
        decreases n - k,
    {
        k = k + 1;
    }
    k
}

/// Parses an unsigned decimal number.
pub fn parse_u64_exec(s: &Vec<char>, i: usize) -> (r: Option<(u64, usize)>)
    ensures
        match r {
            Some((v, j)) => parse_udec(s@, i as int) == Some((v, j as int)) && i <= j <= s@.len(),
            None => parse_udec(s@, i as int) is None,
        },
{
    let n: usize = s.len();
    if i >= n || !('0' <= s[i] && s[i] <= '9') {
        return None;
    }
    let mut acc: u64 = 0;
    let mut k: usize = i;
    while k < n && '0' <= s[k] && s[k] <= '9'
        invariant
            n == s@.len(),
            i <= k <= n,
            parse_digits(s@, i as int, 0) == parse_digits(s@, k as int, acc),
        decreases n - k,
    {
        let d: u64 = (s[k] as u8 - '0' as u8) as u64;
        proof {
            assert(d as int == digit_val(s@[k as int]));
        }
        if acc > (u64::MAX - d) / 10 {
            return None;
        }
        proof {
            assert(acc * 10 <= u64::MAX - d) by (nonlinear_arith)
                requires
                    acc <= (u64::MAX - d) / 10,
                    0 <= d <= 9,
            ;
        }
        acc = acc * 10 + d;
        k = k + 1;
    }
    Some((acc, k))
}

/// Parses a signed decimal number within 64-bit bounds.
pub fn parse_i64_exec(s: &Vec<char>, i: usize) -> (r: Option<(i64, usize)>)
    ensures
        match r {
            Some((v, j)) => parse_i64_at(s@, i as int) == Some((v, j as int)) && i <= j
                <= s@.len(),
            None => parse_i64_at(s@, i as int) is None,
        },
{
    let n: usize = s.len();
    if i < n && s[i] == '-' {
        match parse_u64_exec(s, i + 1) {
            Some((v, j)) => {
                if v <= 9223372036854775808u64 {
                    let w: i64 = ((-(v as i128)) as i64);
                    proof {
                        assert(w as int == -(v as int));
                    }
                    Some((w, j))
                } else {
                    None
                }
            },
            None => None,
        }
    } else {
        match parse_u64_exec(s, i) {
            Some((v, j)) => {
                if v <= 9223372036854775807u64 {
                    Some((v as i64, j))
                } else {
                    None
                }
            },
            None => None,
        }
    }
}

/// Expects the characters of `lit` at `i`.
pub fn parse_lit_exec(s: &Vec<char>, i: usize, lit: &Vec<char>) -> (r: Option<usize>)
    ensures
        match r {
            Some(j) => parse_lit(s@, i as int, lit@) == Some(j as int) && i <= j <= s@.len(),
            None => parse_lit(s@, i as int, lit@) is None,
        },
{
    let n: usize = s.len();
    let m: usize = lit.len();
    if i > n || m > n - i {
        return None;
    }
    let mut k: usize = 0;
    while k < m
        invariant
            n == s@.len(),
            m == lit@.len(),
            i + m <= n,
            k <= m,
            forall|t: int| 0 <= t < k ==> s@[i + t] == lit@[t],
        decreases m - k,
    {
        if s[i + k] != lit[k] {
            proof {
                assert(s@.subrange(i as int, i + m) != lit@) by {
                    assert(s@.subrange(i as int, i + m)[k as int] != lit@[k as int]);
                }
            }
            return None;
        }
        k = k + 1;
    }
    proof {
        assert(s@.subrange(i as int, i + m) =~= lit@);
    }
    Some(i + m)
}

spec fn compose_str(pre: Seq<char>, o: Option<(Seq<char>, int)>) -> Option<(Seq<char>, int)> {
    match o {
        Some((t, j)) => Some((pre + t, j)),
        None => None,
    }
}

/// Parses a quoted JSON string.
pub fn parse_jstring_exec(s: &Vec<char>, i: usize) -> (r: Option<(Vec<char>, usize)>)
    ensures
        match r {
            Some((v, j)) => parse_jstring(s@, i as int) == Some((v@, j as int)) && i <= j
                <= s@.len(),
            None => parse_jstring(s@, i as int) is None,
        },
{
    let n: usize = s.len();
    if i >= n || s[i] != '"' {
        return None;
    }
    let mut out: Vec<char> = Vec::new();
    let mut k: usize = i + 1;
    loop
        invariant
            n == s@.len(),
            i < n,
            s@[i as int] == '"',
            i + 1 <= k,
            k <= n,
            parse_strbody(s@, (i + 1) as int) == compose_str(out@, parse_strbody(s@, k as int)),
        decreases n - k,
    {
        if k >= n {
            return None;
        }
        let c = s[k];
        if c == '"' {
            proof {
                assert(parse_strbody(s@, k as int) == Some((Seq::<char>::empty(), k + 1)));
                assert(out@ + Seq::<char>::empty() =~= out@);
            }
            return Some((out, k + 1));
        } else if c == '\\' {
            if k + 1 >= n {
                return None;
            }
            let e = s[k + 1];
            let ghost out0 = out@;
            if e == '"' || e == '\\' || e == '/' {
                out.push(e);
                proof {
                    lemma_compose_step(s@, (i + 1) as int, out0, e, k as int, k + 2);
                }
                k = k + 2;
            } else if e == 'n' {
                out.push('\n');
                proof {
                    lemma_compose_step(s@, (i + 1) as int, out0, '\n', k as int, k + 2);
                }
                k = k + 2;
            } else if e == 't' {
                out.push('\t');
                proof {
                    lemma_compose_step(s@, (i + 1) as int, out0, '\t', k as int, k + 2);
                }
                k = k + 2;
            } else if e == 'r' {
                out.push('\r');
                proof {
                    lemma_compose_step(s@, (i + 1) as int, out0, '\r', k as int, k + 2);
                }
                k = k + 2;
            } else if e == 'b' {
                out.push(8u8 as char);
                proof {
                    lemma_compose_step(s@, (i + 1) as int, out0, 8u8 as char, k as int, k + 2);
                }
                k = k + 2;
            } else if e == 'f' {
                out.push(12u8 as char);
                proof {
                    lemma_compose_step(s@, (i + 1) as int, out0, 12u8 as char, k as int, k + 2);
                }
                k = k + 2;
            } else if e == 'u' {
                if n - k < 6 {
                    return None;
                }
                let h3 = hex_val_exec(s[k + 2]);
                let h2 = hex_val_exec(s[k + 3]);
                let h1 = hex_val_exec(s[k + 4]);
                let h0 = hex_val_exec(s[k + 5]);
                match (h3, h2, h1, h0) {
                    (Some(a), Some(b), Some(cc), Some(d)) => {
                        let v: u32 = (a as u32) * 4096 + (b as u32) * 256 + (cc as u32) * 16 + (
                        d as u32);
                        if v > 255 {
                            return None;
                        }
                        let ch: char = (v as u8) as char;
                        out.push(ch);
                        proof {
                            lemma_compose_step(s@, (i + 1) as int, out0, ch, k as int, k + 6);
                        }
                        k = k + 6;
                    },
                    _ => {
                        return None;
                    },
                }
            } else {
                return None;
            }
        } else if (c as u32) < 32 {
            return None;
        } else {
            let ghost out0 = out@;
            out.push(c);
            proof {
                lemma_compose_step(s@, (i + 1) as int, out0, c, k as int, k + 1);
            }
            k = k + 1;
        }
    }
}

/// One consumed character keeps the composition invariant of the string
/// parser.
proof fn lemma_compose_step(s: Seq<char>, start: int, pre: Seq<char>, c: char, k: int, k2: int)
    requires
        parse_strbody(s, start) == compose_str(pre, parse_strbody(s, k)),
        parse_strbody(s, k) == match parse_strbody(s, k2) {
            Some((t, j)) => Some((seq![c] + t, j)),
            None => None::<(Seq<char>, int)>,
        },
    ensures
        parse_strbody(s, start) == compose_str(pre.push(c), parse_strbody(s, k2)),
{
    match parse_strbody(s, k2) {
        Some((t, j)) => {
            assert(pre + (seq![c] + t) =~= pre.push(c) + t);
        },
        None => {
        },
    }
}

/// The value of one hexadecimal digit character.
fn hex_val_exec(c: char) -> (r: Option<u8>)
    ensures
        match r {
            Some(v) => is_hex(c) && v as int == hex_val(c) && v <= 15,
            None => !is_hex(c),
        },
{
    if '0' <= c && c <= '9' {
        Some(c as u8 - '0' as u8)
    } else if 'a' <= c && c <= 'f' {
        Some(10 + (c as u8 - 'a' as u8))
    } else if 'A' <= c && c <= 'F' {
        Some(10 + (c as u8 - 'A' as u8))
    } else {
        None
    }
}

} // verus!
