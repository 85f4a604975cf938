//! The json-lines record format: one object per line, of the shape
//! `{"property": <string>, "values": <array of u32>}`.
//!
//! This is the index's stable interoperability format, so it is this
//! library's own logic: a printer and a parser over bytes, specified by
//! spec-level functions.  The parser tolerates JSON whitespace between
//! tokens, accepts the two keys in either order, reads the escapes
//! `\" \\ \/ \b \f \n \r \t` and `\uXXXX` (for code points that are not
//! surrogate halves), and rejects anything else: unknown keys, duplicate
//! keys, raw control or non-ASCII bytes inside strings, numbers with signs,
//! fractions, exponents or leading zeros, and numbers above the 32-bit
//! range.

use vstd::prelude::*;

use crate::expression::is_valid_name;

verus! {

/// JSON whitespace.
pub open spec fn is_json_ws(b: u8) -> bool {
    b == 0x20 || b == 0x09 || b == 0x0A || b == 0x0D
}

/// An ASCII decimal digit byte.
pub open spec fn is_digit_byte(b: u8) -> bool {
    0x30 <= b <= 0x39
}

/// The first position at or after `i` that does not hold JSON whitespace.
pub open spec fn jskip(s: Seq<u8>, i: int) -> int
    decreases s.len() - i,
{
    if 0 <= i < s.len() && is_json_ws(s[i]) {
        jskip(s, i + 1)
    } else {
        i
    }
}

/// The first position at or after `i` that does not hold a digit.
pub open spec fn digits_end(s: Seq<u8>, i: int) -> int
    decreases s.len() - i,
{
    if 0 <= i < s.len() && is_digit_byte(s[i]) {
        digits_end(s, i + 1)
    } else {
        i
    }
}

/// The decimal value of the digits `s[i..j]`.
pub open spec fn digits_value(s: Seq<u8>, i: int, j: int) -> int
    decreases j - i,
{
    if i >= j {
        0
    } else {
        digits_value(s, i, j - 1) * 10 + (s[j - 1] - 0x30)
    }
}

/// Whether a `\uXXXX` code is a valid scalar the format accepts: any plane-0
/// code point that is not a surrogate half.
pub open spec fn is_accepted_code(c: int) -> bool {
    c < 0xD800 || (0xE000 <= c && c <= 0xFFFF)
}

/// The value of one hex digit byte, or 16 when the byte is no hex digit.
pub open spec fn hex_value(b: u8) -> u32 {
    if 0x30 <= b <= 0x39 {
        (b - 0x30) as u32
    } else if 0x61 <= b <= 0x66 {
        (b - 0x61 + 10) as u32
    } else if 0x41 <= b <= 0x46 {
        (b - 0x41 + 10) as u32
    } else {
        16
    }
}

/// The character an escape letter denotes, if the letter is a legal escape
/// other than `\u`.
pub open spec fn simple_escape(b: u8) -> Option<char> {
    if b == 0x22 {
        Some('"')
    } else if b == 0x5C {
        Some('\\')
    } else if b == 0x2F {
        Some('/')
    } else if b == 0x62 {
        Some('\u{0008}')
    } else if b == 0x66 {
        Some('\u{000C}')
    } else if b == 0x6E {
        Some('\n')
    } else if b == 0x72 {
        Some('\r')
    } else if b == 0x74 {
        Some('\t')
    } else {
        None
    }
}

/// Parse the body of a string after the opening quote: the content
/// characters and the position after the closing quote.
pub open spec fn spec_str_body(s: Seq<u8>, i: int) -> Option<(Seq<char>, int)>
    decreases s.len() - i,
{
    if i < 0 || i >= s.len() {
        None
    } else if s[i] == 0x22 {
        Some((Seq::<char>::empty(), i + 1))
    } else if s[i] == 0x5C {
        if i + 2 <= s.len() {
            match simple_escape(s[i + 1]) {
                Some(ch) => match spec_str_body(s, i + 2) {
                    Some((rest, end)) => Some((seq![ch] + rest, end)),
                    None => None,
                },
                None => if s[i + 1] == 0x75 && i + 6 <= s.len() {
                    let code = hex_value(s[i + 2]) * 0x1000 + hex_value(s[i + 3]) * 0x100
                        + hex_value(s[i + 4]) * 0x10 + hex_value(s[i + 5]);
                    if hex_value(s[i + 2]) < 16 && hex_value(s[i + 3]) < 16 && hex_value(
                        s[i + 4],
                    ) < 16 && hex_value(s[i + 5]) < 16 && is_accepted_code(code) {
                        match spec_str_body(s, i + 6) {
                            Some((rest, end)) => Some((seq![code as char] + rest, end)),
                            None => None,
                        }
                    } else {
                        None
                    }
                } else {
                    None
                },
            }
        } else {
            None
        }
    } else if s[i] < 0x20 || s[i] >= 0x80 {
        None
    } else {
        match spec_str_body(s, i + 1) {
            Some((rest, end)) => Some((seq![s[i] as char] + rest, end)),
            None => None,
        }
    }
}

/// Parse a quoted string at `i`.
pub open spec fn spec_jstring(s: Seq<u8>, i: int) -> Option<(Seq<char>, int)> {
    if 0 <= i < s.len() && s[i] == 0x22 {
        spec_str_body(s, i + 1)
    } else {
        None
    }
}

/// Parse an unsigned 32-bit decimal number at `i`: digits without a leading
/// zero, within the 32-bit range.
pub open spec fn spec_jnumber(s: Seq<u8>, i: int) -> Option<(u32, int)> {
    if 0 <= i < s.len() && is_digit_byte(s[i]) {
        let j = digits_end(s, i);
        let v = digits_value(s, i, j);
        if (j - i > 1 && s[i] == 0x30) || v > u32::MAX {
            None
        } else {
            Some((v as u32, j))
        }
    } else {
        None
    }
}

/// Parse the items of an array after its first element position: numbers
/// separated by commas, closed by `]`.
pub open spec fn spec_arr_items(s: Seq<u8>, i: int) -> Option<(Seq<u32>, int)>
    decreases s.len() - i,
{
    match spec_jnumber(s, i) {
        Some((v, j)) => {
            let k = jskip(s, j);
            if i < j <= k && k < s.len() {
                if s[k] == 0x2C {
                    let n = jskip(s, k + 1);
                    if k < n <= s.len() {
                        match spec_arr_items(s, n) {
                            Some((rest, end)) => Some((seq![v] + rest, end)),
                            None => None,
                        }
                    } else {
                        None
                    }
                } else if s[k] == 0x5D {
                    Some((seq![v], k + 1))
                } else {
                    None
                }
            } else {
                None
            }
        },
        None => None,
    }
}

/// Parse an array of numbers at `i`.
pub open spec fn spec_jarray(s: Seq<u8>, i: int) -> Option<(Seq<u32>, int)> {
    if 0 <= i < s.len() && s[i] == 0x5B {
        let j = jskip(s, i + 1);
        if j < s.len() && s[j] == 0x5D {
            Some((Seq::<u32>::empty(), j + 1))
        } else {
            spec_arr_items(s, j)
        }
    } else {
        None
    }
}

/// The characters of the key `property`.
pub open spec fn key_property() -> Seq<char> {
    seq!['p', 'r', 'o', 'p', 'e', 'r', 't', 'y']
}

/// The characters of the key `values`.
pub open spec fn key_values() -> Seq<char> {
    seq!['v', 'a', 'l', 'u', 'e', 's']
}

/// After a key and its colon were read, parse the rest of the record when
/// the first key was `property`: the name string, then the `values` key and
/// its array, then the closing brace and the end of the line.
pub open spec fn spec_line_tail(s: Seq<u8>, i: int, first_is_property: bool) -> Option<
    (Seq<char>, Seq<u32>),
> {
    if first_is_property {
        match spec_jstring(s, i) {
            Some((name, p)) => {
                let c = jskip(s, p);
                if c < s.len() && s[c] == 0x2C {
                    match spec_jstring(s, jskip(s, c + 1)) {
                        Some((k2, q)) => if k2 == key_values() {
                            let d = jskip(s, q);
                            if d < s.len() && s[d] == 0x3A {
                                match spec_jarray(s, jskip(s, d + 1)) {
                                    Some((vals, e)) => {
                                        let f = jskip(s, e);
                                        if f < s.len() && s[f] == 0x7D && jskip(s, f + 1)
                                            == s.len() {
                                            Some((name, vals))
                                        } else {
                                            None
                                        }
                                    },
                                    None => None,
                                }
                            } else {
                                None
                            }
                        } else {
                            None
                        },
                        None => None,
                    }
                } else {
                    None
                }
            },
            None => None,
        }
    } else {
        match spec_jarray(s, i) {
            Some((vals, p)) => {
                let c = jskip(s, p);
                if c < s.len() && s[c] == 0x2C {
                    match spec_jstring(s, jskip(s, c + 1)) {
                        Some((k2, q)) => if k2 == key_property() {
                            let d = jskip(s, q);
                            if d < s.len() && s[d] == 0x3A {
                                match spec_jstring(s, jskip(s, d + 1)) {
                                    Some((name, e)) => {
                                        let f = jskip(s, e);
                                        if f < s.len() && s[f] == 0x7D && jskip(s, f + 1)
                                            == s.len() {
                                            Some((name, vals))
                                        } else {
                                            None
                                        }
                                    },
                                    None => None,
                                }
                            } else {
                                None
                            }
                        } else {
                            None
                        },
                        None => None,
                    }
                } else {
                    None
                }
            },
            None => None,
        }
    }
}

/// Parse one record line: the property name and its values.
pub open spec fn spec_line(s: Seq<u8>) -> Option<(Seq<char>, Seq<u32>)> {
    let i0 = jskip(s, 0);
    if i0 < s.len() && s[i0] == 0x7B {
        match spec_jstring(s, jskip(s, i0 + 1)) {
            Some((k1, p)) => {
                let c = jskip(s, p);
                if c < s.len() && s[c] == 0x3A {
                    let arg = jskip(s, c + 1);
                    if k1 == key_property() {
                        spec_line_tail(s, arg, true)
                    } else if k1 == key_values() {
                        spec_line_tail(s, arg, false)
                    } else {
                        None
                    }
                } else {
                    None
                }
            },
            None => None,
        }
    } else {
        None
    }
}

/// The first newline at or after `i`, or the length when there is none.
pub open spec fn first_nl(s: Seq<u8>, i: int) -> int
    decreases s.len() - i,
{
    if 0 <= i < s.len() && s[i] != 0x0A {
        first_nl(s, i + 1)
    } else {
        i
    }
}

/// The lines of the input: split at each newline, with a carriage return
/// stripped from the end of every newline-terminated line.
pub open spec fn lines_of(s: Seq<u8>) -> Seq<Seq<u8>>
    decreases s.len(),
{
    if s.len() == 0 {
        Seq::<Seq<u8>>::empty()
    } else {
        let k = first_nl(s, 0);
        if 0 <= k < s.len() {
            let raw = s.subrange(0, k);
            let line = if raw.len() > 0 && raw.last() == 0x0D {
                raw.drop_last()
            } else {
                raw
            };
            seq![line] + lines_of(s.skip(k + 1))
        } else {
            seq![s]
        }
    }
}

/// How decoding a record stream can fail.
pub enum JsonFailure {
    /// A non-empty line is not a record of the expected shape.
    NotARecord,
    /// A record names a property that the expression grammar rejects.
    BadName(Seq<char>),
    /// Two records name the same property.
    Repeated(Seq<char>),
}

/// Fold the record lines into an index model: empty lines are skipped, each
/// record's values join as a set under its name, and the first bad line
/// decides the failure.
pub open spec fn spec_decode_lines(ls: Seq<Seq<u8>>, acc: Map<Seq<char>, Set<u32>>) -> Result<
    Map<Seq<char>, Set<u32>>,
    JsonFailure,
>
    decreases ls.len(),
{
    if ls.len() == 0 {
        Ok(acc)
    } else if ls[0].len() == 0 {
        spec_decode_lines(ls.drop_first(), acc)
    } else {
        match spec_line(ls[0]) {
            None => Err(JsonFailure::NotARecord),
            Some((name, vals)) => if !is_valid_name(name) {
                Err(JsonFailure::BadName(name))
            } else if acc.dom().contains(name) {
                Err(JsonFailure::Repeated(name))
            } else {
                spec_decode_lines(ls.drop_first(), acc.insert(name, vals.to_set()))
            },
        }
    }
}

/// What decoding a whole json-lines document means.
pub open spec fn spec_decode(s: Seq<u8>) -> Result<Map<Seq<char>, Set<u32>>, JsonFailure> {
    spec_decode_lines(lines_of(s), Map::<Seq<char>, Set<u32>>::empty())
}


/// Skip JSON whitespace from `i`.
fn e_jskip(s: &[u8], i: usize) -> (r: usize)
    requires
        i <= s@.len(),
    ensures
        r as int == jskip(s@, i as int),
        i <= r <= s@.len(),
{
    let n = s.len();
    let mut j = i;
    while j < n && (s[j] == 0x20 || s[j] == 0x09 || s[j] == 0x0A || s[j] == 0x0D)
        invariant
            i <= j <= n,
            n == s@.len(),
            jskip(s@, i as int) == jskip(s@, j as int),
        decreases n - j,
    {
        j = j + 1;
    }
    j
}

/// Scan decimal digits from `i`.
fn e_digits_end(s: &[u8], i: usize) -> (r: usize)
    requires
        i <= s@.len(),
    ensures
        r as int == digits_end(s@, i as int),
        i <= r <= s@.len(),
{
    let n = s.len();
    let mut j = i;
    while j < n && s[j] >= 0x30 && s[j] <= 0x39
        invariant
            i <= j <= n,
            n == s@.len(),
            digits_end(s@, i as int) == digits_end(s@, j as int),
        decreases n - j,
    {
        j = j + 1;
    }
    j
}

/// The value of one hex digit byte, or 16 when it is none.
fn e_hex(b: u8) -> (r: u32)
    ensures
        r == hex_value(b),
{
    if b >= 0x30 && b <= 0x39 {
        (b - 0x30) as u32
    } else if b >= 0x61 && b <= 0x66 {
        (b - 0x61 + 10) as u32
    } else if b >= 0x41 && b <= 0x46 {
        (b - 0x41 + 10) as u32
    } else {
        16
    }
}

/// The character an escape letter denotes, if any.
fn e_simple_escape(b: u8) -> (r: Option<char>)
    ensures
        r == simple_escape(b),
{
    if b == 0x22 {
        Some('"')
    } else if b == 0x5C {
        Some('\\')
    } else if b == 0x2F {
        Some('/')
    } else if b == 0x62 {
        Some('\u{0008}')
    } else if b == 0x66 {
        Some('\u{000C}')
    } else if b == 0x6E {
        Some('\n')
    } else if b == 0x72 {
        Some('\r')
    } else if b == 0x74 {
        Some('\t')
    } else {
        None
    }
}

/// Parse the body of a string after the opening quote.
fn p_str_body(s: &[u8], i: usize) -> (r: Option<(Vec<char>, usize)>)
    requires
        i <= s@.len(),
    ensures
        match r {
            Some((cs, j)) => spec_str_body(s@, i as int) == Some((cs@, j as int)) && i < j
                <= s@.len(),
            None => spec_str_body(s@, i as int) is None,
        },
{
    let mut acc: Vec<char> = Vec::new();
    let mut cur = i;
    loop
        invariant
            i <= cur <= s@.len(),
            match spec_str_body(s@, cur as int) {
                Some((rest, end)) => spec_str_body(s@, i as int) == Some((acc@ + rest, end)),
                None => spec_str_body(s@, i as int) is None,
            },
        decreases s@.len() - cur,
    {
        if cur >= s.len() {
            return None;
        }
        let b = s[cur];
        if b == 0x22 {
            proof {
                assert(acc@ + Seq::<char>::empty() =~= acc@);
            }
            return Some((acc, cur + 1));
        }
        if b == 0x5C {
            let rem = s.len() - cur;
            if rem < 2 {
                return None;
            }
            let e = s[cur + 1];
            match e_simple_escape(e) {
                Some(ch) => {
                    proof {
                        if let Some((rest, end)) = spec_str_body(s@, cur as int + 2) {
                            assert(acc@ + (seq![ch] + rest) =~= acc@.push(ch) + rest);
                        }
                    }
                    acc.push(ch);
                    cur = cur + 2;
                },
                None => {
                    if e == 0x75 && rem >= 6 {
                        let h0 = e_hex(s[cur + 2]);
                        let h1 = e_hex(s[cur + 3]);
                        let h2 = e_hex(s[cur + 4]);
                        let h3 = e_hex(s[cur + 5]);
                        if h0 < 16 && h1 < 16 && h2 < 16 && h3 < 16 {
                            let code = h0 * 0x1000 + h1 * 0x100 + h2 * 0x10 + h3;
                            if code < 0xD800 || code >= 0xE000 {
                                let ch = crate::text::char_from_code(code);
                                proof {
                                    assert(code as int == hex_value(s@[cur as int + 2])
                                        * 0x1000 + hex_value(s@[cur as int + 3]) * 0x100
                                        + hex_value(s@[cur as int + 4]) * 0x10 + hex_value(
                                        s@[cur as int + 5],
                                    ));
                                    assert(ch as u32 == code);
                                    assert(ch == (code as int) as char);
                                    if let Some((rest, end)) = spec_str_body(
                                        s@,
                                        cur as int + 6,
                                    ) {
                                        assert(acc@ + (seq![ch] + rest) =~= acc@.push(ch)
                                            + rest);
                                    }
                                }
                                acc.push(ch);
                                cur = cur + 6;
                            } else {
                                return None;
                            }
                        } else {
                            return None;
                        }
                    } else {
                        return None;
                    }
                },
            }
        } else if b < 0x20 || b >= 0x80 {
            return None;
        } else {
            let ch = b as char;
            proof {
                if let Some((rest, end)) = spec_str_body(s@, cur as int + 1) {
                    assert(acc@ + (seq![ch] + rest) =~= acc@.push(ch) + rest);
                }
            }
            acc.push(ch);
            cur = cur + 1;
        }
    }
}

/// Parse a quoted string at `i`.
fn p_jstring(s: &[u8], i: usize) -> (r: Option<(Vec<char>, usize)>)
    requires
        i <= s@.len(),
    ensures
        match r {
            Some((cs, j)) => spec_jstring(s@, i as int) == Some((cs@, j as int)) && i < j
                <= s@.len(),
            None => spec_jstring(s@, i as int) is None,
        },
{
    if i < s.len() && s[i] == 0x22 {
        p_str_body(s, i + 1)
    } else {
        None
    }
}

/// Extending a digit run cannot shrink its value.
proof fn lemma_digits_value_monotone(s: Seq<u8>, i: int, j: int, j2: int)
    requires
        i <= j <= j2,
        forall|t: int| i <= t < j2 ==> is_digit_byte(#[trigger] s[t]),
    ensures
        digits_value(s, i, j) <= digits_value(s, i, j2),
        digits_value(s, i, j) >= 0,
    decreases j2 - i, j2 - j,
{
    if j < j2 {
        lemma_digits_value_monotone(s, i, j, j2 - 1);
        lemma_digits_value_monotone(s, i, j2 - 1, j2 - 1);
    } else if i < j {
        lemma_digits_value_monotone(s, i, i, j - 1);
        lemma_digits_value_monotone(s, i, j - 1, j - 1);
    }
}

/// Parse an unsigned 32-bit decimal number at `i`.
fn p_jnumber(s: &[u8], i: usize) -> (r: Option<(u32, usize)>)
    requires
        i <= s@.len(),
    ensures
        match r {
            Some((v, j)) => spec_jnumber(s@, i as int) == Some((v, j as int)) && i < j
                <= s@.len(),
            None => spec_jnumber(s@, i as int) is None,
        },
{
    if i >= s.len() || s[i] < 0x30 || s[i] > 0x39 {
        return None;
    }
    let d = e_digits_end(s, i);
    proof {
        lemma_digits_scan(s@, i as int);
    }
    if d - i > 1 && s[i] == 0x30 {
        return None;
    }
    let mut v: u64 = 0;
    let mut k = i;
    while k < d
        invariant
            i <= k <= d <= s@.len(),
            d as int == digits_end(s@, i as int),
            forall|t: int| i <= t < d ==> is_digit_byte(#[trigger] s@[t]),
            v as int == digits_value(s@, i as int, k as int),
            v <= u32::MAX,
        decreases d - k,
    {
        let digit = (s[k] - 0x30) as u64;
        v = v * 10 + digit;
        k = k + 1;
        if v > 0xFFFF_FFFF {
            proof {
                lemma_digits_value_monotone(s@, i as int, k as int, d as int);
            }
            return None;
        }
    }
    Some((v as u32, d))
}

/// A digit scan covers digits and only digits.
proof fn lemma_digits_scan(s: Seq<u8>, i: int)
    requires
        0 <= i <= s.len(),
    ensures
        i <= digits_end(s, i) <= s.len(),
        forall|t: int| i <= t < digits_end(s, i) ==> is_digit_byte(#[trigger] s[t]),
        digits_end(s, i) < s.len() ==> !is_digit_byte(s[digits_end(s, i)]),
    decreases s.len() - i,
{
    if i < s.len() && is_digit_byte(s[i]) {
        lemma_digits_scan(s, i + 1);
    }
}

/// Parse the comma-separated items of an array, after the opening bracket
/// and any whitespace.
fn p_arr_items(s: &[u8], i: usize) -> (r: Option<(Vec<u32>, usize)>)
    requires
        i <= s@.len(),
    ensures
        match r {
            Some((vs, j)) => spec_arr_items(s@, i as int) == Some((vs@, j as int)) && i < j
                <= s@.len(),
            None => spec_arr_items(s@, i as int) is None,
        },
{
    let mut acc: Vec<u32> = Vec::new();
    let mut cur = i;
    loop
        invariant
            i <= cur <= s@.len(),
            match spec_arr_items(s@, cur as int) {
                Some((rest, end)) => spec_arr_items(s@, i as int) == Some((acc@ + rest, end)),
                None => spec_arr_items(s@, i as int) is None,
            },
        decreases s@.len() - cur,
    {
        match p_jnumber(s, cur) {
            Some((v, j)) => {
                let k = e_jskip(s, j);
                if k >= s.len() {
                    return None;
                }
                if s[k] == 0x2C {
                    let n = e_jskip(s, k + 1);
                    proof {
                        if let Some((rest, end)) = spec_arr_items(s@, n as int) {
                            assert(acc@ + (seq![v] + rest) =~= acc@.push(v) + rest);
                        }
                    }
                    acc.push(v);
                    cur = n;
                } else if s[k] == 0x5D {
                    proof {
                        assert(acc@ + seq![v] =~= acc@.push(v));
                    }
                    acc.push(v);
                    return Some((acc, k + 1));
                } else {
                    return None;
                }
            },
            None => {
                return None;
            },
        }
    }
}

/// Parse an array of numbers at `i`.
fn p_jarray(s: &[u8], i: usize) -> (r: Option<(Vec<u32>, usize)>)
    requires
        i <= s@.len(),
    ensures
        match r {
            Some((vs, j)) => spec_jarray(s@, i as int) == Some((vs@, j as int)) && i < j
                <= s@.len(),
            None => spec_jarray(s@, i as int) is None,
        },
{
    if i < s.len() && s[i] == 0x5B {
        let j = e_jskip(s, i + 1);
        if j < s.len() && s[j] == 0x5D {
            let empty: Vec<u32> = Vec::new();
            proof {
                assert(empty@ =~= Seq::<u32>::empty());
            }
            Some((empty, j + 1))
        } else {
            p_arr_items(s, j)
        }
    } else {
        None
    }
}

/// Whether the characters are exactly the key `property`.
fn is_key_property(cs: &Vec<char>) -> (r: bool)
    ensures
        r == (cs@ == key_property()),
{
    let r = cs.len() == 8 && cs[0] == 'p' && cs[1] == 'r' && cs[2] == 'o' && cs[3] == 'p'
        && cs[4] == 'e' && cs[5] == 'r' && cs[6] == 't' && cs[7] == 'y';
    proof {
        if r {
            assert(cs@ =~= key_property());
        }
        if cs@ == key_property() {
            assert(cs@.len() == 8);
            assert(cs@[0] == 'p' && cs@[1] == 'r' && cs@[2] == 'o' && cs@[3] == 'p' && cs@[4]
                == 'e' && cs@[5] == 'r' && cs@[6] == 't' && cs@[7] == 'y');
        }
    }
    r
}

/// Whether the characters are exactly the key `values`.
fn is_key_values(cs: &Vec<char>) -> (r: bool)
    ensures
        r == (cs@ == key_values()),
{
    let r = cs.len() == 6 && cs[0] == 'v' && cs[1] == 'a' && cs[2] == 'l' && cs[3] == 'u'
        && cs[4] == 'e' && cs[5] == 's';
    proof {
        if r {
            assert(cs@ =~= key_values());
        }
        if cs@ == key_values() {
            assert(cs@.len() == 6);
            assert(cs@[0] == 'v' && cs@[1] == 'a' && cs@[2] == 'l' && cs@[3] == 'u' && cs@[4]
                == 'e' && cs@[5] == 's');
        }
    }
    r
}

/// Parse one record line: the property name's characters and the values.
pub(crate) fn parse_line(s: &[u8]) -> (r: Option<(Vec<char>, Vec<u32>)>)
    ensures
        match r {
            Some((cs, vs)) => spec_line(s@) == Some((cs@, vs@)),
            None => spec_line(s@) is None,
        },
{
    let i0 = e_jskip(s, 0);
    if !(i0 < s.len() && s[i0] == 0x7B) {
        return None;
    }
    let k1 = match p_jstring(s, e_jskip(s, i0 + 1)) {
        Some(x) => x,
        None => {
            return None;
        },
    };
    let c = e_jskip(s, k1.1);
    if !(c < s.len() && s[c] == 0x3A) {
        return None;
    }
    let arg = e_jskip(s, c + 1);
    if is_key_property(&k1.0) {
        // name first, then the values array
        let name = match p_jstring(s, arg) {
            Some(x) => x,
            None => {
                return None;
            },
        };
        let c2 = e_jskip(s, name.1);
        if !(c2 < s.len() && s[c2] == 0x2C) {
            return None;
        }
        let k2 = match p_jstring(s, e_jskip(s, c2 + 1)) {
            Some(x) => x,
            None => {
                return None;
            },
        };
        if !is_key_values(&k2.0) {
            return None;
        }
        let d = e_jskip(s, k2.1);
        if !(d < s.len() && s[d] == 0x3A) {
            return None;
        }
        let vals = match p_jarray(s, e_jskip(s, d + 1)) {
            Some(x) => x,
            None => {
                return None;
            },
        };
        let f = e_jskip(s, vals.1);
        if f < s.len() && s[f] == 0x7D && e_jskip(s, f + 1) == s.len() {
            Some((name.0, vals.0))
        } else {
            None
        }
    } else if is_key_values(&k1.0) {
        // values first, then the name
        let vals = match p_jarray(s, arg) {
            Some(x) => x,
            None => {
                return None;
            },
        };
        let c2 = e_jskip(s, vals.1);
        if !(c2 < s.len() && s[c2] == 0x2C) {
            return None;
        }
        let k2 = match p_jstring(s, e_jskip(s, c2 + 1)) {
            Some(x) => x,
            None => {
                return None;
            },
        };
        if !is_key_property(&k2.0) {
            return None;
        }
        let d = e_jskip(s, k2.1);
        if !(d < s.len() && s[d] == 0x3A) {
            return None;
        }
        let name = match p_jstring(s, e_jskip(s, d + 1)) {
            Some(x) => x,
            None => {
                return None;
            },
        };
        let f = e_jskip(s, name.1);
        if f < s.len() && s[f] == 0x7D && e_jskip(s, f + 1) == s.len() {
            Some((name.0, vals.0))
        } else {
            None
        }
    } else {
        None
    }
}


/// A lowercase hex digit character.
pub open spec fn hex_char(v: int) -> char {
    if v < 10 {
        (0x30 + v) as char
    } else {
        (0x57 + v) as char
    }
}

/// The printed form of one character inside a JSON string: quotes and
/// backslashes are escaped, control characters take their short escape or a
/// `\u00XX` form, and everything else stands for itself.
pub open spec fn esc_char(c: char) -> Seq<char> {
    if c == '"' {
        seq!['\\', '"']
    } else if c == '\\' {
        seq!['\\', '\\']
    } else if c == '\u{0008}' {
        seq!['\\', 'b']
    } else if c == '\t' {
        seq!['\\', 't']
    } else if c == '\n' {
        seq!['\\', 'n']
    } else if c == '\u{000C}' {
        seq!['\\', 'f']
    } else if c == '\r' {
        seq!['\\', 'r']
    } else if (c as u32) < 0x20 {
        seq!['\\', 'u', '0', '0', hex_char((c as u32) as int / 16), hex_char((c as u32) as int % 16)]
    } else {
        seq![c]
    }
}

/// The printed form of a whole string body.
pub open spec fn esc_string(s: Seq<char>) -> Seq<char>
    decreases s.len(),
{
    if s.len() == 0 {
        Seq::<char>::empty()
    } else {
        esc_string(s.drop_last()) + esc_char(s.last())
    }
}

/// The decimal digits of a number.
pub open spec fn dec_chars(x: int) -> Seq<char>
    decreases x,
{
    if x < 10 {
        seq![(0x30 + x) as char]
    } else {
        dec_chars(x / 10).push((0x30 + x % 10) as char)
    }
}

/// The printed values: decimal numbers joined by commas.
pub open spec fn vals_chars(vs: Seq<u32>) -> Seq<char>
    decreases vs.len(),
{
    if vs.len() == 0 {
        Seq::<char>::empty()
    } else if vs.len() == 1 {
        dec_chars(vs[0] as int)
    } else {
        vals_chars(vs.drop_last()) + seq![','] + dec_chars(vs.last() as int)
    }
}

/// The printed form of one record line, without the trailing newline.
pub open spec fn line_chars(name: Seq<char>, vs: Seq<u32>) -> Seq<char> {
    seq!['{', '"'] + key_property() + seq!['"', ':', '"'] + esc_string(name) + seq!['"', ',', '"']
        + key_values() + seq!['"', ':', '['] + vals_chars(vs) + seq![']', '}']
}

/// The printed form of a whole document: one line per pair, each ending in
/// a newline.
pub open spec fn doc_chars(pairs: Seq<(Seq<char>, Seq<u32>)>) -> Seq<char>
    decreases pairs.len(),
{
    if pairs.len() == 0 {
        Seq::<char>::empty()
    } else {
        doc_chars(pairs.drop_last()) + line_chars(pairs.last().0, pairs.last().1) + seq!['\n']
    }
}

/// Append the decimal digits of `x`.
pub(crate) fn push_dec(out: &mut Vec<char>, x: u64)
    ensures
        final(out)@ == old(out)@ + dec_chars(x as int),
    decreases x,
{
    if x < 10 {
        let d = (0x30u8 + x as u8) as char;
        proof {
            assert(d == (0x30 + x as int) as char);
            assert(old(out)@ + dec_chars(x as int) =~= old(out)@.push(d));
        }
        out.push(d);
    } else {
        push_dec(out, x / 10);
        let d = (0x30 + (x % 10) as u8) as char;
        proof {
            assert(d == (0x30 + (x as int) % 10) as char);
        }
        out.push(d);
        proof {
            assert(final(out)@ =~= old(out)@ + dec_chars(x as int));
        }
    }
}

/// Append the escaped form of `name`'s characters.
fn push_escaped(out: &mut Vec<char>, name: &str)
    ensures
        final(out)@ == old(out)@ + esc_string(name@),
{
    let n = name.unicode_len();
    let mut i: usize = 0;
    while i < n
        invariant
            0 <= i <= n,
            n == name@.len(),
            out@ == old(out)@ + esc_string(name@.subrange(0, i as int)),
        decreases n - i,
    {
        let c = name.get_char(i);
        let ghost pre = name@.subrange(0, i as int);
        let ghost post = name@.subrange(0, i as int + 1);
        proof {
            assert(post.drop_last() =~= pre);
            assert(post.last() == name@[i as int]);
        }
        if c == '"' {
            out.push('\\');
            out.push('"');
        } else if c == '\\' {
            out.push('\\');
            out.push('\\');
        } else if c == '\u{0008}' {
            out.push('\\');
            out.push('b');
        } else if c == '\t' {
            out.push('\\');
            out.push('t');
        } else if c == '\n' {
            out.push('\\');
            out.push('n');
        } else if c == '\u{000C}' {
            out.push('\\');
            out.push('f');
        } else if c == '\r' {
            out.push('\\');
            out.push('r');
        } else if (c as u32) < 0x20 {
            let hi = ((c as u32) / 16) as u8;
            let lo = ((c as u32) % 16) as u8;
            let hic = if hi < 10 {
                (0x30 + hi) as char
            } else {
                (0x57 + hi) as char
            };
            let loc = if lo < 10 {
                (0x30 + lo) as char
            } else {
                (0x57 + lo) as char
            };
            proof {
                assert(hic == hex_char((c as u32) as int / 16));
                assert(loc == hex_char((c as u32) as int % 16));
            }
            out.push('\\');
            out.push('u');
            out.push('0');
            out.push('0');
            out.push(hic);
            out.push(loc);
        } else {
            out.push(c);
        }
        proof {
            assert(out@ =~= old(out)@ + esc_string(post));
        }
        i = i + 1;
    }
    proof {
        assert(name@.subrange(0, n as int) =~= name@);
    }
}

/// Append one record line, without the trailing newline.
pub(crate) fn print_line(out: &mut Vec<char>, name: &str, values: &Vec<u32>)
    ensures
        final(out)@ == old(out)@ + line_chars(name@, values@),
{
    out.push('{');
    out.push('"');
    out.push('p');
    out.push('r');
    out.push('o');
    out.push('p');
    out.push('e');
    out.push('r');
    out.push('t');
    out.push('y');
    out.push('"');
    out.push(':');
    out.push('"');
    proof {
        assert(out@ =~= old(out)@ + seq!['{', '"'] + key_property() + seq!['"', ':', '"']);
    }
    push_escaped(out, name);
    out.push('"');
    out.push(',');
    out.push('"');
    out.push('v');
    out.push('a');
    out.push('l');
    out.push('u');
    out.push('e');
    out.push('s');
    out.push('"');
    out.push(':');
    out.push('[');
    proof {
        assert(out@ =~= old(out)@ + seq!['{', '"'] + key_property() + seq!['"', ':', '"']
            + esc_string(name@) + seq!['"', ',', '"'] + key_values() + seq!['"', ':', '[']);
    }
    let ghost before_vals = out@;
    let n = values.len();
    let mut i: usize = 0;
    while i < n
        invariant
            0 <= i <= n,
            n == values@.len(),
            out@ == before_vals + vals_chars(values@.subrange(0, i as int)),
        decreases n - i,
    {
        if i > 0 {
            out.push(',');
        }
        push_dec(out, values[i] as u64);
        proof {
            let pre = values@.subrange(0, i as int);
            let post = values@.subrange(0, i as int + 1);
            assert(post.drop_last() =~= pre);
            assert(post.last() == values@[i as int]);
            assert(out@ =~= before_vals + vals_chars(post));
        }
        i = i + 1;
    }
    out.push(']');
    out.push('}');
    proof {
        assert(values@.subrange(0, n as int) =~= values@);
        assert(out@ =~= old(out)@ + line_chars(name@, values@));
    }
}


/// A character the printer emits inside a string without escaping:
/// printable ASCII other than the quote and the backslash.
pub open spec fn plain_char(c: char) -> bool {
    0x20 <= (c as u32) < 0x80 && c != '"' && c != '\\'
}

/// An ASCII code bounds its character between the ASCII extremes.
proof fn lemma_char_ascii_range(c: char)
    requires
        (c as u32) < 0x80,
    ensures
        '\0' <= c <= '\u{7f}',
{
}

/// Every character of a property name is emitted unescaped.
proof fn lemma_name_chars_plain(n: Seq<char>)
    requires
        forall|i: int| 0 <= i < n.len() ==> crate::expression::is_word_char(#[trigger] n[i]),
    ensures
        forall|i: int| 0 <= i < n.len() ==> plain_char(#[trigger] n[i]),
        vstd::utf8::is_ascii_chars(n),
{
    assert forall|i: int| 0 <= i < n.len() implies plain_char(#[trigger] n[i]) by {
        assert(crate::expression::is_word_char(n[i]));
    }
    assert forall|i: int| 0 <= i < n.len() implies '\0' <= #[trigger] n[i] <= '\u{7f}' by {
        assert(plain_char(n[i]));
        lemma_char_ascii_range(n[i]);
    }
}

/// Escaping a name of word characters leaves it unchanged.
proof fn lemma_esc_plain(n: Seq<char>)
    requires
        forall|i: int| 0 <= i < n.len() ==> crate::expression::is_word_char(#[trigger] n[i]),
    ensures
        esc_string(n) == n,
    decreases n.len(),
{
    if n.len() > 0 {
        assert(forall|i: int|
            0 <= i < n.drop_last().len() ==> crate::expression::is_word_char(
                #[trigger] n.drop_last()[i],
            ));
        lemma_esc_plain(n.drop_last());
        let c = n.last();
        assert(crate::expression::is_word_char(c));
        assert(esc_char(c) == seq![c]);
        assert(esc_string(n) =~= n);
    }
}

/// Every digit the decimal printer emits is a digit character.
proof fn lemma_dec_digits(x: int)
    requires
        x >= 0,
    ensures
        forall|i: int|
            0 <= i < dec_chars(x).len() ==> 0x30 <= (#[trigger] dec_chars(x)[i] as u32) <= 0x39,
        dec_chars(x).len() >= 1,
    decreases x,
{
    if x < 10 {
        crate::text::lemma_code_to_char(0x30 + x);
    } else {
        lemma_dec_digits(x / 10);
        crate::text::lemma_code_to_char(0x30 + x % 10);
        assert forall|i: int|
            0 <= i < dec_chars(x).len() implies 0x30 <= (#[trigger] dec_chars(x)[i] as u32)
            <= 0x39 by {
            if i < dec_chars(x).len() - 1 {
                assert(dec_chars(x)[i] == dec_chars(x / 10)[i]);
            }
        }
    }
}

/// A number of ten or more does not print a leading zero.
proof fn lemma_dec_no_leading_zero(x: int)
    requires
        x >= 10,
    ensures
        dec_chars(x)[0] as u32 != 0x30,
    decreases x,
{
    assert(dec_chars(x)[0] == dec_chars(x / 10)[0]);
    if x / 10 >= 10 {
        lemma_dec_no_leading_zero(x / 10);
    } else {
        assert(1 <= x / 10 < 10);
        crate::text::lemma_code_to_char(0x30 + x / 10);
    }
}

/// A run of digit bytes followed by a non-digit scans to exactly its end.
proof fn lemma_digits_end_run(s: Seq<u8>, i: int, j: int)
    requires
        0 <= i <= j <= s.len(),
        forall|k: int| i <= k < j ==> is_digit_byte(#[trigger] s[k]),
        j == s.len() || !is_digit_byte(s[j]),
    ensures
        digits_end(s, i) == j,
    decreases j - i,
{
    if i < j {
        lemma_digits_end_run(s, i + 1, j);
    }
}

/// The decimal digits of `x` at position `i`, followed by a non-digit,
/// parse back to `x`.
proof fn lemma_dec_inv(s: Seq<u8>, i: int, x: u32)
    requires
        0 <= i,
        i + dec_chars(x as int).len() < s.len(),
        forall|k: int|
            0 <= k < dec_chars(x as int).len() ==> s[i + k] == (#[trigger] dec_chars(
                x as int,
            )[k]) as u8,
        !is_digit_byte(s[i + dec_chars(x as int).len()]),
    ensures
        spec_jnumber(s, i) == Some((x, i + dec_chars(x as int).len())),
{
    let d = dec_chars(x as int).len() as int;
    lemma_dec_digits(x as int);
    assert forall|k: int| i <= k < i + d implies is_digit_byte(#[trigger] s[k]) by {
        assert(s[k] == dec_chars(x as int)[k - i] as u8);
        assert(0x30 <= dec_chars(x as int)[k - i] as u32 <= 0x39);
        crate::text::lemma_ascii_char_to_byte(dec_chars(x as int)[k - i]);
    }
    lemma_digits_end_run(s, i, i + d);
    if d > 1 {
        lemma_dec_no_leading_zero(x as int);
        assert(s[i] == dec_chars(x as int)[0] as u8);
        assert(0x30 <= dec_chars(x as int)[0] as u32 <= 0x39);
        crate::text::lemma_ascii_char_to_byte(dec_chars(x as int)[0]);
        assert(s[i] != 0x30);
    }
    lemma_digits_value_dec(s, i, x as int);
}

/// The decimal value of printed digits is the printed number.
proof fn lemma_digits_value_dec(s: Seq<u8>, i: int, x: int)
    requires
        x >= 0,
        0 <= i,
        i + dec_chars(x).len() <= s.len(),
        forall|k: int|
            0 <= k < dec_chars(x).len() ==> s[i + k] == (#[trigger] dec_chars(x)[k]) as u8,
    ensures
        digits_value(s, i, i + dec_chars(x).len()) == x,
    decreases x,
{
    let d = dec_chars(x).len() as int;
    if x < 10 {
        assert(dec_chars(x) == seq![(0x30 + x) as char]);
        assert(dec_chars(x)[0] == (0x30 + x) as char);
        assert(s[i] == dec_chars(x)[0] as u8);
        crate::text::lemma_code_to_char(0x30 + x);
        assert(s[i] == 0x30 + x);
        assert(digits_value(s, i, i) == 0);
        assert(digits_value(s, i, i + 1) == s[i] - 0x30);
    } else {
        assert(dec_chars(x) == dec_chars(x / 10).push((0x30 + x % 10) as char));
        assert(forall|k: int|
            0 <= k < dec_chars(x / 10).len() ==> dec_chars(x)[k] == (#[trigger] dec_chars(
                x / 10,
            )[k]));
        lemma_digits_value_dec(s, i, x / 10);
        assert(s[i + d - 1] == dec_chars(x)[d - 1] as u8);
        assert(dec_chars(x)[d - 1] == (0x30 + x % 10) as char);
        crate::text::lemma_code_to_char(0x30 + x % 10);
        assert(s[i + d - 1] == 0x30 + x % 10);
        assert(digits_value(s, i, i + d) == digits_value(s, i, i + d - 1) * 10 + (s[i + d - 1]
            - 0x30));
    }
}

/// A string body of plainly printable characters, closed by a quote, parses
/// back to those characters.
proof fn lemma_str_body_plain(s: Seq<u8>, i: int, content: Seq<char>)
    requires
        0 <= i,
        i + content.len() < s.len(),
        forall|k: int| 0 <= k < content.len() ==> s[i + k] == (#[trigger] content[k]) as u8,
        forall|k: int| 0 <= k < content.len() ==> plain_char(#[trigger] content[k]),
        s[i + content.len()] == 0x22,
    ensures
        spec_str_body(s, i) == Some((content, i + content.len() + 1)),
    decreases content.len(),
{
    if content.len() == 0 {
        assert(s[i] == 0x22);
    } else {
        let c = content[0];
        assert(plain_char(c));
        assert(s[i] == c as u8);
        crate::text::lemma_ascii_char_to_byte(c);
        assert(s[i] != 0x22 && s[i] != 0x5C && s[i] >= 0x20 && s[i] < 0x80) by {
            crate::text::lemma_code_to_char(0x22);
            crate::text::lemma_code_to_char(0x5C);
        }
        assert(s[i] as char == c);
        let rest = content.drop_first();
        assert(forall|k: int| 0 <= k < rest.len() ==> s[i + 1 + k] == (#[trigger] rest[k]) as u8);
        assert(forall|k: int| 0 <= k < rest.len() ==> plain_char(#[trigger] rest[k]));
        lemma_str_body_plain(s, i + 1, rest);
        assert(seq![c] + rest =~= content);
    }
}


/// Characters a printed record line may hold: ASCII, and never a newline,
/// so splitting the document on newlines recovers the printed lines.
pub open spec fn tame_chars(cs: Seq<char>) -> bool {
    &&& vstd::utf8::is_ascii_chars(cs)
    &&& forall|i: int| 0 <= i < cs.len() ==> (#[trigger] cs[i]) != '\n'
}

/// Tameness is preserved by concatenation.
proof fn lemma_tame_concat(a: Seq<char>, b: Seq<char>)
    requires
        tame_chars(a),
        tame_chars(b),
    ensures
        tame_chars(a + b),
{
    assert forall|i: int| 0 <= i < (a + b).len() implies '\0' <= #[trigger] (a + b)[i]
        <= '\u{7f}' && (a + b)[i] != '\n' by {
        if i < a.len() {
            assert((a + b)[i] == a[i]);
        } else {
            assert((a + b)[i] == b[i - a.len()]);
        }
    }
}

/// The decimal digits of a number are tame.
proof fn lemma_tame_dec(x: int)
    requires
        x >= 0,
    ensures
        tame_chars(dec_chars(x)),
{
    lemma_dec_digits(x);
    assert forall|i: int| 0 <= i < dec_chars(x).len() implies '\0' <= #[trigger] dec_chars(
        x,
    )[i] <= '\u{7f}' && dec_chars(x)[i] != '\n' by {
        lemma_char_ascii_range(dec_chars(x)[i]);
        assert(('\n' as u32) == 0x0A);
    }
}

/// The printed values of an array are tame.
proof fn lemma_tame_vals(vs: Seq<u32>)
    ensures
        tame_chars(vals_chars(vs)),
    decreases vs.len(),
{
    if vs.len() == 0 {
    } else if vs.len() == 1 {
        lemma_tame_dec(vs[0] as int);
    } else {
        lemma_tame_vals(vs.drop_last());
        lemma_tame_dec(vs.last() as int);
        assert(tame_chars(seq![','])) by {
            assert(seq![','][0] == ',');
            lemma_char_ascii_range(',');
        }
        lemma_tame_concat(vals_chars(vs.drop_last()), seq![',']);
        lemma_tame_concat(vals_chars(vs.drop_last()) + seq![','], dec_chars(vs.last() as int));
    }
}

/// A name of word characters is tame.
proof fn lemma_tame_name(n: Seq<char>)
    requires
        forall|i: int| 0 <= i < n.len() ==> crate::expression::is_word_char(#[trigger] n[i]),
    ensures
        tame_chars(n),
{
    lemma_name_chars_plain(n);
    assert forall|i: int| 0 <= i < n.len() implies '\0' <= #[trigger] n[i] <= '\u{7f}' && n[i]
        != '\n' by {
        assert(plain_char(n[i]));
        lemma_char_ascii_range(n[i]);
        assert(('\n' as u32) == 0x0A);
    }
}

/// A whole printed record line is tame, and it closes with a brace.
pub(crate) proof fn lemma_tame_line(name: Seq<char>, vs: Seq<u32>)
    requires
        forall|i: int| 0 <= i < name.len() ==> crate::expression::is_word_char(#[trigger] name[i]),
    ensures
        tame_chars(line_chars(name, vs)),
        line_chars(name, vs).len() > 0,
        line_chars(name, vs).last() == '}',
{
    let open = seq!['{', '"'];
    let mid1 = seq!['"', ':', '"'];
    let mid2 = seq!['"', ',', '"'];
    let mid3 = seq!['"', ':', '['];
    let tail = seq![']', '}'];
    assert(tame_chars(open) && tame_chars(mid1) && tame_chars(mid2) && tame_chars(mid3)
        && tame_chars(tail) && tame_chars(key_property()) && tame_chars(key_values())) by {
        assert forall|cs: Seq<char>|
            cs == open || cs == mid1 || cs == mid2 || cs == mid3 || cs == tail || cs
                == key_property() || cs == key_values() implies tame_chars(cs) by {
            assert forall|i: int| 0 <= i < cs.len() implies '\0' <= #[trigger] cs[i]
                <= '\u{7f}' && cs[i] != '\n' by {
                lemma_char_ascii_range(cs[i]);
                assert(('\n' as u32) == 0x0A);
            }
        }
    }
    lemma_esc_plain(name);
    lemma_tame_name(name);
    lemma_tame_vals(vs);
    lemma_tame_concat(open, key_property());
    lemma_tame_concat(open + key_property(), mid1);
    lemma_tame_concat(open + key_property() + mid1, esc_string(name));
    lemma_tame_concat(open + key_property() + mid1 + esc_string(name), mid2);
    lemma_tame_concat(open + key_property() + mid1 + esc_string(name) + mid2, key_values());
    lemma_tame_concat(
        open + key_property() + mid1 + esc_string(name) + mid2 + key_values(),
        mid3,
    );
    lemma_tame_concat(
        open + key_property() + mid1 + esc_string(name) + mid2 + key_values() + mid3,
        vals_chars(vs),
    );
    lemma_tame_concat(
        open + key_property() + mid1 + esc_string(name) + mid2 + key_values() + mid3
            + vals_chars(vs),
        tail,
    );
    assert(line_chars(name, vs).last() == tail[1]);
}

/// Splitting off the first value: the printed array text starts with its
/// digits and a comma.
proof fn lemma_vals_unfold_front(vs: Seq<u32>)
    requires
        vs.len() >= 2,
    ensures
        vals_chars(vs) == dec_chars(vs[0] as int) + seq![','] + vals_chars(vs.drop_first()),
    decreases vs.len(),
{
    if vs.len() == 2 {
        assert(vs.drop_last() =~= seq![vs[0]]);
        assert(vs.drop_first() =~= seq![vs[1]]);
        assert(vals_chars(vs) =~= dec_chars(vs[0] as int) + seq![','] + vals_chars(
            vs.drop_first(),
        ));
    } else {
        lemma_vals_unfold_front(vs.drop_last());
        assert(vs.drop_last()[0] == vs[0]);
        assert(vs.drop_last().drop_first() =~= vs.drop_first().drop_last());
        assert(vs.drop_first().len() >= 2);
        assert(vs.drop_first().last() == vs.last());
        assert(vals_chars(vs) == vals_chars(vs.drop_last()) + seq![','] + dec_chars(
            vs.last() as int,
        ));
        assert(vals_chars(vs.drop_first()) == vals_chars(vs.drop_first().drop_last())
            + seq![','] + dec_chars(vs.drop_first().last() as int));
        assert(vals_chars(vs) =~= dec_chars(vs[0] as int) + seq![','] + vals_chars(
            vs.drop_first(),
        ));
    }
}

/// The printed items of a non-empty array, closed by a bracket, parse back
/// to the same values.
proof fn lemma_arr_items_inv(s: Seq<u8>, i: int, vs: Seq<u32>)
    requires
        vs.len() >= 1,
        0 <= i,
        i + vals_chars(vs).len() < s.len(),
        forall|k: int|
            0 <= k < vals_chars(vs).len() ==> s[i + k] == (#[trigger] vals_chars(vs)[k]) as u8,
        s[i + vals_chars(vs).len()] == 0x5D,
    ensures
        spec_arr_items(s, i) == Some((vs, i + vals_chars(vs).len() + 1)),
    decreases vs.len(),
{
    let v = vals_chars(vs).len() as int;
    if vs.len() == 1 {
        let d = dec_chars(vs[0] as int).len() as int;
        assert(vals_chars(vs) == dec_chars(vs[0] as int));
        assert(!is_digit_byte(s[i + d]));
        lemma_dec_inv(s, i, vs[0]);
        assert(jskip(s, i + d) == i + d);
        assert(seq![vs[0]] =~= vs);
    } else {
        lemma_vals_unfold_front(vs);
        let head = dec_chars(vs[0] as int);
        let rest = vals_chars(vs.drop_first());
        let d = head.len() as int;
        assert forall|k: int| 0 <= k < d implies s[i + k] == (#[trigger] head[k]) as u8 by {
            assert(vals_chars(vs)[k] == head[k]);
        }
        assert(s[i + d] == (vals_chars(vs)[d]) as u8);
        assert(vals_chars(vs)[d] == ',');
        assert(s[i + d] == 0x2C) by {
            crate::text::lemma_code_to_char(0x2C);
        }
        assert(!is_digit_byte(s[i + d]));
        lemma_dec_inv(s, i, vs[0]);
        assert(jskip(s, i + d) == i + d);
        let n = i + d + 1;
        assert forall|k: int| 0 <= k < rest.len() implies s[n + k] == (#[trigger] rest[k]) as u8
            by {
            assert(vals_chars(vs)[d + 1 + k] == rest[k]);
            assert(s[i + (d + 1 + k)] == vals_chars(vs)[d + 1 + k] as u8);
        }
        assert(s[n + rest.len()] == 0x5D);
        lemma_arr_items_inv(s, n, vs.drop_first());
        lemma_dec_digits(vs.drop_first()[0] as int);
        assert(rest[0] == dec_chars(vs.drop_first()[0] as int)[0]) by {
            if vs.drop_first().len() >= 2 {
                lemma_vals_unfold_front(vs.drop_first());
            }
        }
        assert(0x30 <= s[n] <= 0x39) by {
            crate::text::lemma_ascii_char_to_byte(rest[0]);
        }
        assert(!is_json_ws(s[n]));
        assert(jskip(s, n) == n);
        assert(seq![vs[0]] + vs.drop_first() =~= vs);
    }
}


/// A printed record line parses back to its name and values.
#[verifier::rlimit(100)]
pub(crate) proof fn lemma_parse_print_line(s: Seq<u8>, name: Seq<char>, vs: Seq<u32>)
    requires
        is_valid_name(name),
        s.len() == line_chars(name, vs).len(),
        forall|k: int| 0 <= k < s.len() ==> s[k] == (#[trigger] line_chars(name, vs)[k]) as u8,
    ensures
        spec_line(s) == Some((name, vs)),
{
    let open2 = seq!['{', '"'];
    let mid1 = seq!['"', ':', '"'];
    let mid2 = seq!['"', ',', '"'];
    let mid3 = seq!['"', ':', '['];
    let tail2 = seq![']', '}'];
    let kp = key_property();
    let kv = key_values();
    lemma_esc_plain(name);
    let vc = vals_chars(vs);
    let ln = line_chars(name, vs);
    let e = name.len() as int;
    let v = vc.len() as int;
    assert(ln == open2 + kp + mid1 + name + mid2 + kv + mid3 + vc + tail2);
    assert(ln.len() == 27 + e + v);
    // where each piece of the line stands
    assert(ln[0] == '{' && ln[1] == '"');
    assert(forall|k: int| 0 <= k < 8 ==> ln[2 + k] == (#[trigger] kp[k]));
    assert(ln[10] == '"' && ln[11] == ':' && ln[12] == '"');
    assert(forall|k: int| 0 <= k < e ==> ln[13 + k] == (#[trigger] name[k]));
    assert(ln[13 + e] == '"' && ln[14 + e] == ',' && ln[15 + e] == '"');
    assert(forall|k: int| 0 <= k < 6 ==> ln[16 + e + k] == (#[trigger] kv[k]));
    assert(ln[22 + e] == '"' && ln[23 + e] == ':' && ln[24 + e] == '[');
    assert(forall|k: int| 0 <= k < v ==> ln[25 + e + k] == (#[trigger] vc[k]));
    assert(ln[25 + e + v] == ']' && ln[26 + e + v] == '}');
    // the corresponding bytes
    assert(('{' as u8) == 0x7B && ('"' as u8) == 0x22 && (':' as u8) == 0x3A && (',' as u8)
        == 0x2C && ('[' as u8) == 0x5B && (']' as u8) == 0x5D && ('}' as u8) == 0x7D);
    assert(s[0] == 0x7B && s[1] == 0x22);
    assert(s[10] == 0x22 && s[11] == 0x3A && s[12] == 0x22);
    assert(s[13 + e] == 0x22 && s[14 + e] == 0x2C && s[15 + e] == 0x22);
    assert(s[22 + e] == 0x22 && s[23 + e] == 0x3A && s[24 + e] == 0x5B);
    assert(s[25 + e + v] == 0x5D && s[26 + e + v] == 0x7D);
    // the two keys and the name are plainly printable
    assert(forall|k: int| 0 <= k < 8 ==> plain_char(#[trigger] kp[k])) by {
        assert forall|k: int| 0 <= k < 8 implies plain_char(#[trigger] kp[k]) by {
            assert(k == 0 || k == 1 || k == 2 || k == 3 || k == 4 || k == 5 || k == 6 || k
                == 7);
        }
    }
    assert(forall|k: int| 0 <= k < 6 ==> plain_char(#[trigger] kv[k])) by {
        assert forall|k: int| 0 <= k < 6 implies plain_char(#[trigger] kv[k]) by {
            assert(k == 0 || k == 1 || k == 2 || k == 3 || k == 4 || k == 5);
        }
    }
    lemma_name_chars_plain(name);
    // the first key
    assert(forall|k: int| 0 <= k < 8 ==> s[2 + k] == (#[trigger] kp[k]) as u8);
    lemma_str_body_plain(s, 2, kp);
    assert(jskip(s, 0) == 0 && jskip(s, 1) == 1);
    assert(spec_jstring(s, 1) == Some((kp, 11int)));
    assert(jskip(s, 11) == 11 && jskip(s, 12) == 12);
    assert(kp != kv);
    // the name
    assert(forall|k: int| 0 <= k < e ==> s[13 + k] == (#[trigger] name[k]) as u8);
    lemma_str_body_plain(s, 13, name);
    assert(spec_jstring(s, 12) == Some((name, 14 + e)));
    assert(jskip(s, 14 + e) == 14 + e && jskip(s, 15 + e) == 15 + e);
    // the second key
    assert(forall|k: int| 0 <= k < 6 ==> s[16 + e + k] == (#[trigger] kv[k]) as u8);
    lemma_str_body_plain(s, 16 + e, kv);
    assert(spec_jstring(s, 15 + e) == Some((kv, 23 + e)));
    assert(jskip(s, 23 + e) == 23 + e && jskip(s, 24 + e) == 24 + e);
    // the array
    assert(forall|k: int| 0 <= k < v ==> s[25 + e + k] == (#[trigger] vc[k]) as u8);
    if vs.len() == 0 {
        assert(v == 0);
        assert(jskip(s, 25 + e) == 25 + e);
        assert(spec_jarray(s, 24 + e) == Some((Seq::<u32>::empty(), 26 + e)));
        assert(Seq::<u32>::empty() =~= vs);
    } else {
        assert(vc[0] == dec_chars(vs[0] as int)[0]) by {
            if vs.len() >= 2 {
                lemma_vals_unfold_front(vs);
            }
        }
        lemma_dec_digits(vs[0] as int);
        assert(0x30 <= s[25 + e] <= 0x39) by {
            crate::text::lemma_ascii_char_to_byte(vc[0]);
        }
        assert(!is_json_ws(s[25 + e]) && s[25 + e] != 0x5D);
        assert(jskip(s, 25 + e) == 25 + e);
        lemma_arr_items_inv(s, 25 + e, vs);
        assert(spec_jarray(s, 24 + e) == Some((vs, 26 + e + v)));
    }
    // the closing brace and the end of the line
    assert(jskip(s, 26 + e + v) == 26 + e + v);
    assert(jskip(s, 27 + e + v) == s.len());
    assert(spec_line_tail(s, 12, true) == Some((name, vs)));
}


/// Splitting off the first record: the printed document starts with its
/// line and a newline.
pub(crate) proof fn lemma_doc_unfold_front(pm: Seq<(Seq<char>, Seq<u32>)>)
    requires
        pm.len() >= 1,
    ensures
        doc_chars(pm) == line_chars(pm[0].0, pm[0].1) + seq!['\n'] + doc_chars(pm.drop_first()),
    decreases pm.len(),
{
    if pm.len() == 1 {
        assert(pm.drop_last() =~= Seq::<(Seq<char>, Seq<u32>)>::empty());
        assert(pm.drop_first() =~= Seq::<(Seq<char>, Seq<u32>)>::empty());
        assert(doc_chars(pm) =~= line_chars(pm[0].0, pm[0].1) + seq!['\n'] + doc_chars(
            pm.drop_first(),
        ));
    } else {
        lemma_doc_unfold_front(pm.drop_last());
        assert(pm.drop_last()[0] == pm[0]);
        assert(pm.drop_last().drop_first() =~= pm.drop_first().drop_last());
        assert(pm.drop_first().len() >= 1);
        assert(pm.drop_first().last() == pm.last());
        assert(doc_chars(pm) == doc_chars(pm.drop_last()) + line_chars(
            pm.last().0,
            pm.last().1,
        ) + seq!['\n']);
        assert(doc_chars(pm.drop_first()) == doc_chars(pm.drop_first().drop_last())
            + line_chars(pm.drop_first().last().0, pm.drop_first().last().1) + seq!['\n']);
        assert(doc_chars(pm) =~= line_chars(pm[0].0, pm[0].1) + seq!['\n'] + doc_chars(
            pm.drop_first(),
        ));
    }
}

/// A run of bytes without a newline, ended by one or by the input's end,
/// scans to exactly that end.
pub(crate) proof fn lemma_first_nl_run(s: Seq<u8>, i: int, j: int)
    requires
        0 <= i <= j <= s.len(),
        forall|k: int| i <= k < j ==> (#[trigger] s[k]) != 0x0A,
        j == s.len() || s[j] == 0x0A,
    ensures
        first_nl(s, i) == j,
    decreases j - i,
{
    if i < j {
        lemma_first_nl_run(s, i + 1, j);
    }
}

} // verus!
