use vstd::prelude::*;
use vstd::utf8::{decode_utf8, valid_utf8};

verus! {

pub const TAB: u8 = 9;
pub const NEWLINE: u8 = 10;
pub const SPACE: u8 = 32;
pub const QUOTE: u8 = 34;
pub const HASH: u8 = 35;
pub const PLUS: u8 = 43;
pub const COMMA: u8 = 44;
pub const MINUS: u8 = 45;
pub const DOT: u8 = 46;
pub const SLASH: u8 = 47;
pub const ZERO: u8 = 48;
pub const NINE: u8 = 57;
pub const COLON: u8 = 58;
pub const EQUALS: u8 = 61;
pub const UPPER_E: u8 = 69;
pub const LBRACKET: u8 = 91;
pub const BACKSLASH: u8 = 92;
pub const RBRACKET: u8 = 93;
pub const LOWER_E: u8 = 101;
pub const LBRACE: u8 = 123;
pub const RBRACE: u8 = 125;

pub open spec fn is_digit(s: Seq<u8>, i: int) -> bool {
    0 <= i < s.len() && ZERO <= s[i] <= NINE
}

pub open spec fn is_byte(s: Seq<u8>, i: int, c: u8) -> bool {
    0 <= i < s.len() && s[i] == c
}

/// Scans whitespace and comments from `i`; `in_comment` holds inside a `#` or
/// `//` comment, which runs to the end of its line.
pub open spec fn ws_scan(s: Seq<u8>, i: int, in_comment: bool) -> int
    decreases s.len() - i,
{
    if i < 0 || i >= s.len() {
        i
    } else if in_comment {
        ws_scan(s, i + 1, s[i] != NEWLINE)
    } else if s[i] == SPACE || s[i] == TAB || s[i] == NEWLINE {
        ws_scan(s, i + 1, false)
    } else if s[i] == HASH {
        ws_scan(s, i + 1, true)
    } else if s[i] == SLASH && is_byte(s, i + 1, SLASH) {
        ws_scan(s, i + 2, true)
    } else {
        i
    }
}

/// The end of the maximal run of spaces, tabs, newlines and comments at `i`.
pub open spec fn ws_end(s: Seq<u8>, i: int) -> int {
    ws_scan(s, i, false)
}

/// Scans a separator: whitespace, comments and at most one comma. Returns the
/// end and whether a comma or a newline was seen.
pub open spec fn sep_scan(s: Seq<u8>, i: int, in_comment: bool, seen: bool, comma: bool) -> (
    int,
    bool,
)
    decreases s.len() - i,
{
    if i < 0 || i >= s.len() {
        (i, seen)
    } else if in_comment {
        if s[i] == NEWLINE {
            sep_scan(s, i + 1, false, true, comma)
        } else {
            sep_scan(s, i + 1, true, seen, comma)
        }
    } else if s[i] == SPACE || s[i] == TAB {
        sep_scan(s, i + 1, false, seen, comma)
    } else if s[i] == NEWLINE {
        sep_scan(s, i + 1, false, true, comma)
    } else if s[i] == HASH {
        sep_scan(s, i + 1, true, seen, comma)
    } else if s[i] == SLASH && is_byte(s, i + 1, SLASH) {
        sep_scan(s, i + 2, true, seen, comma)
    } else if s[i] == COMMA && !comma {
        sep_scan(s, i + 1, false, true, true)
    } else {
        (i, seen)
    }
}

/// The end of the separator at `i`, where it holds a comma or a newline.
pub open spec fn sep_end(s: Seq<u8>, i: int) -> Option<int> {
    let (e, seen) = sep_scan(s, i, false, false, false);
    if seen {
        Some(e)
    } else {
        None
    }
}

/// The end of the run of decimal digits at `i`.
pub open spec fn digits_end(s: Seq<u8>, i: int) -> int
    decreases s.len() - i,
{
    if is_digit(s, i) {
        digits_end(s, i + 1)
    } else {
        i
    }
}

/// The number written by the digits `s[i..e]`.
pub open spec fn digits_value(s: Seq<u8>, i: int, e: int) -> int
    decreases e - i,
{
    if e <= i {
        0
    } else {
        digits_value(s, i, e - 1) * 10 + (s[e - 1] - ZERO)
    }
}

/// The position after an optional `+` or `-` at `i`.
pub open spec fn after_sign(s: Seq<u8>, i: int) -> int {
    if is_byte(s, i, PLUS) || is_byte(s, i, MINUS) {
        i + 1
    } else {
        i
    }
}

/// An integer literal at `i`: its value, unbounded, and its end.
pub open spec fn int_literal(s: Seq<u8>, i: int) -> Option<(int, int)> {
    let j = after_sign(s, i);
    let e = digits_end(s, j);
    if e > j {
        let n = digits_value(s, j, e);
        Some((if is_byte(s, i, MINUS) { -n } else { n }, e))
    } else {
        None
    }
}

pub open spec fn fits_i64(n: int) -> bool {
    i64::MIN <= n <= i64::MAX
}

/// The mantissa at `j` (after the sign): digits with an optional fraction, or
/// a point and digits. Gives its end and whether it holds a point.
pub open spec fn mantissa_end(s: Seq<u8>, j: int) -> Option<(int, bool)> {
    if is_digit(s, j) {
        let d = digits_end(s, j);
        if is_byte(s, d, DOT) {
            Some((digits_end(s, d + 1), true))
        } else {
            Some((d, false))
        }
    } else if is_byte(s, j, DOT) && is_digit(s, j + 1) {
        Some((digits_end(s, j + 1), true))
    } else {
        None
    }
}

/// The end of the exponent at `m`, or `m` where no complete exponent stands there.
pub open spec fn exponent_end(s: Seq<u8>, m: int) -> int {
    if is_byte(s, m, LOWER_E) || is_byte(s, m, UPPER_E) {
        let k = after_sign(s, m + 1);
        if is_digit(s, k) {
            digits_end(s, k)
        } else {
            m
        }
    } else {
        m
    }
}

/// The end of a floating-point literal at `i`: it must hold a point or an
/// exponent, so that a plain integer is never taken for one.
pub open spec fn float_end(s: Seq<u8>, i: int) -> Option<int> {
    match mantissa_end(s, after_sign(s, i)) {
        Some((m, point)) => {
            let e = exponent_end(s, m);
            if point || e > m {
                Some(e)
            } else {
                None
            }
        },
        None => None,
    }
}

/// The decoded text of the bytes, where they are valid UTF-8.
pub open spec fn text_of(b: Seq<u8>) -> Option<Seq<char>> {
    if valid_utf8(b) {
        Some(decode_utf8(b))
    } else {
        None
    }
}

/// Scans a string body from `j`, having decoded `acc` so far: `\"` stands for
/// a quote, every other byte for itself. Gives the body and the position after
/// the closing quote, or `None` where the input ends first.
pub open spec fn string_scan(s: Seq<u8>, j: int, acc: Seq<u8>) -> Option<(Seq<u8>, int)>
    decreases s.len() - j,
{
    if j < 0 || j >= s.len() {
        None
    } else if s[j] == BACKSLASH && is_byte(s, j + 1, QUOTE) {
        string_scan(s, j + 2, acc.push(QUOTE))
    } else if s[j] == QUOTE {
        Some((acc, j + 1))
    } else {
        string_scan(s, j + 1, acc.push(s[j]))
    }
}

/// Relies on String::from_utf8: it succeeds exactly on valid UTF-8 and then
/// holds the characters that the bytes encode.
#[verifier::external_body]
pub(crate) fn utf8_text(b: Vec<u8>) -> (r: Option<String>)
    ensures
        r is Some <==> valid_utf8(b@),
        r matches Some(t) ==> t@ == decode_utf8(b@),
{
    String::from_utf8(b).ok()
}

pub proof fn lemma_ws_scan_forward(s: Seq<u8>, i: int, c: bool)
    requires
        0 <= i <= s.len(),
    ensures
        i <= ws_scan(s, i, c) <= s.len(),
    decreases s.len() - i,
{
    if i < s.len() {
        if c {
            lemma_ws_scan_forward(s, i + 1, s[i] != NEWLINE);
        } else if s[i] == SPACE || s[i] == TAB || s[i] == NEWLINE {
            lemma_ws_scan_forward(s, i + 1, false);
        } else if s[i] == HASH {
            lemma_ws_scan_forward(s, i + 1, true);
        } else if s[i] == SLASH && is_byte(s, i + 1, SLASH) {
            lemma_ws_scan_forward(s, i + 2, true);
        }
    }
}

pub proof fn lemma_digits_end(s: Seq<u8>, i: int)
    requires
        0 <= i <= s.len(),
    ensures
        i <= digits_end(s, i) <= s.len(),
        forall|x: int| i <= x < digits_end(s, i) ==> is_digit(s, x),
    decreases s.len() - i,
{
    if is_digit(s, i) {
        lemma_digits_end(s, i + 1);
    }
}

/// Skips spaces, tabs, newlines and comments from `i`.
pub fn skip_ws(s: &[u8], i: usize) -> (r: usize)
    requires
        i <= s.len(),
    ensures
        r == ws_end(s@, i as int),
        i <= r <= s.len(),
{
    let mut k = i;
    let mut c = false;
    while k < s.len()
        invariant
            i <= k <= s.len(),
            ws_scan(s@, k as int, c) == ws_end(s@, i as int),
        ensures
            i <= k <= s.len(),
            ws_scan(s@, k as int, c) == ws_end(s@, i as int),
            ws_scan(s@, k as int, c) == k,
        decreases s.len() - k,
    {
        let b = s[k];
        if c {
            c = b != NEWLINE;
            k = k + 1;
        } else if b == SPACE || b == TAB || b == NEWLINE {
            k = k + 1;
        } else if b == HASH {
            c = true;
            k = k + 1;
        } else if b == SLASH && k + 1 < s.len() && s[k + 1] == SLASH {
            c = true;
            k = k + 2;
        } else {
            break;
        }
    }
    k
}

/// The length of the run of whitespace and comments at the start of `input`.
pub fn json_whitespace(input: &[u8]) -> (r: usize)
    ensures
        r == ws_end(input@, 0),
        r <= input.len(),
{
    skip_ws(input, 0)
}

/// Skips a separator at `i`: whitespace, comments and at most one comma, of
/// which a comma or a newline must be among them.
pub fn skip_separator(s: &[u8], i: usize) -> (r: Option<usize>)
    requires
        i <= s.len(),
    ensures
        r matches Some(e) ==> sep_end(s@, i as int) == Some(e as int) && i < e <= s.len(),
        r is None ==> sep_end(s@, i as int) is None,
{
    let mut k = i;
    let mut c = false;
    let mut seen = false;
    let mut comma = false;
    while k < s.len()
        invariant
            i <= k <= s.len(),
            sep_scan(s@, k as int, c, seen, comma) == sep_scan(s@, i as int, false, false, false),
            seen ==> k > i,
        ensures
            i <= k <= s.len(),
            sep_scan(s@, k as int, c, seen, comma) == sep_scan(s@, i as int, false, false, false),
            seen ==> k > i,
            sep_scan(s@, k as int, c, seen, comma) == (k as int, seen),
        decreases s.len() - k,
    {
        let b = s[k];
        if c {
            if b == NEWLINE {
                c = false;
                seen = true;
            }
            k = k + 1;
        } else if b == SPACE || b == TAB {
            k = k + 1;
        } else if b == NEWLINE {
            seen = true;
            k = k + 1;
        } else if b == HASH {
            c = true;
            k = k + 1;
        } else if b == SLASH && k + 1 < s.len() && s[k + 1] == SLASH {
            c = true;
            k = k + 2;
        } else if b == COMMA && !comma {
            comma = true;
            seen = true;
            k = k + 1;
        } else {
            break;
        }
    }
    if seen {
        Some(k)
    } else {
        None
    }
}

/// The end of the run of digits at `i`.
pub fn skip_digits(s: &[u8], i: usize) -> (r: usize)
    requires
        i <= s.len(),
    ensures
        r == digits_end(s@, i as int),
        i <= r <= s.len(),
{
    let mut k = i;
    while k < s.len() && ZERO <= s[k] && s[k] <= NINE
        invariant
            i <= k <= s.len(),
            digits_end(s@, k as int) == digits_end(s@, i as int),
        decreases s.len() - k,
    {
        k = k + 1;
    }
    k
}

fn skip_sign(s: &[u8], i: usize) -> (r: usize)
    requires
        i <= s.len(),
    ensures
        r == after_sign(s@, i as int),
        i <= r <= s.len(),
{
    if i < s.len() && (s[i] == PLUS || s[i] == MINUS) {
        i + 1
    } else {
        i
    }
}

/// An integer literal at `i` whose value fits in 64 bits, with its end.
pub open spec fn int_value(s: Seq<u8>, i: int) -> Option<(int, int)> {
    match int_literal(s, i) {
        Some((n, e)) => if fits_i64(n) {
            Some((n, e))
        } else {
            None
        },
        None => None,
    }
}

/// Reads an integer literal at `i`: an optional sign and decimal digits.
/// Gives `None` where there is none or its value does not fit in an `i64`.
pub fn scan_int(s: &[u8], i: usize) -> (r: Option<(i64, usize)>)
    requires
        i <= s.len(),
    ensures
        r matches Some((n, e)) ==> int_value(s@, i as int) == Some((n as int, e as int)) && i < e
            <= s.len(),
        r is None ==> int_value(s@, i as int) is None,
{
    let j = skip_sign(s, i);
    let e = skip_digits(s, j);
    if e == j {
        return None;
    }
    let limit: u64 = 9223372036854775808;
    let mut n: u64 = 0;
    let mut over = false;
    let mut k = j;
    proof {
        lemma_digits_end(s@, j as int);
    }
    while k < e
        invariant
            j <= k <= e,
            limit == 9223372036854775808,
            e == digits_end(s@, j as int),
            e <= s.len(),
            forall|x: int| j <= x < e ==> is_digit(s@, x),
            !over ==> n == digits_value(s@, j as int, k as int) && n <= limit,
            over ==> digits_value(s@, j as int, k as int) > limit,
        decreases e - k,
    {
        assert(is_digit(s@, k as int));
        let d = (s[k] - ZERO) as u64;
        let ghost prev = digits_value(s@, j as int, k as int);
        assert(digits_value(s@, j as int, k + 1) == prev * 10 + d);
        if !over {
            if n > 922337203685477580 {
                assert(prev * 10 + d > limit) by (nonlinear_arith)
                    requires
                        prev == n,
                        limit == 9223372036854775808,
                        n > 922337203685477580,
                        d >= 0,
                ;
                over = true;
            } else {
                assert(n * 10 + d <= 9223372036854775809) by (nonlinear_arith)
                    requires
                        n <= 922337203685477580,
                        d <= 9,
                ;
                let m = n * 10 + d;
                if m > limit {
                    over = true;
                } else {
                    n = m;
                }
            }
        } else {
            assert(prev * 10 + d > limit) by (nonlinear_arith)
                requires
                    prev > limit,
                    limit == 9223372036854775808,
                    d >= 0,
            ;
        }
        k = k + 1;
    }
    if over {
        None
    } else if i < s.len() && s[i] == MINUS {
        if n == limit {
            Some((i64::MIN, e))
        } else {
            Some((-(n as i64), e))
        }
    } else if n <= 9223372036854775807 {
        Some((n as i64, e))
    } else {
        None
    }
}

/// Finds the end of a floating-point literal at `i`, which holds a point or
/// an exponent.
pub fn scan_float(s: &[u8], i: usize) -> (r: Option<usize>)
    requires
        i <= s.len(),
    ensures
        r matches Some(e) ==> float_end(s@, i as int) == Some(e as int) && i < e <= s.len(),
        r is None ==> float_end(s@, i as int) is None,
{
    let j = skip_sign(s, i);
    let m: usize;
    let point: bool;
    if j < s.len() && ZERO <= s[j] && s[j] <= NINE {
        let d = skip_digits(s, j);
        if d < s.len() && s[d] == DOT {
            m = skip_digits(s, d + 1);
            point = true;
        } else {
            m = d;
            point = false;
        }
    } else if j < s.len() && j + 1 < s.len() && s[j] == DOT && ZERO <= s[j + 1] && s[j + 1] <= NINE {
        m = skip_digits(s, j + 1);
        point = true;
    } else {
        return None;
    }
    assert(mantissa_end(s@, j as int) == Some((m as int, point)));
    let mut e = m;
    if m < s.len() && (s[m] == LOWER_E || s[m] == UPPER_E) {
        let k = skip_sign(s, m + 1);
        if k < s.len() && ZERO <= s[k] && s[k] <= NINE {
            e = skip_digits(s, k);
        }
    }
    assert(exponent_end(s@, m as int) == e);
    if point || e > m {
        Some(e)
    } else {
        None
    }
}

/// Reads the body of a string whose opening quote ends at `j`: `\\"` stands for
/// a quote and every other byte for itself. Gives the body and the position
/// after the closing quote, or `None` where the input ends first.
pub fn scan_string(s: &[u8], j: usize) -> (r: Option<(Vec<u8>, usize)>)
    requires
        j <= s.len(),
    ensures
        r matches Some((b, e)) ==> string_scan(s@, j as int, Seq::empty()) == Some((b@, e as int))
            && j < e <= s.len(),
        r is None ==> string_scan(s@, j as int, Seq::empty()) is None,
{
    let mut acc: Vec<u8> = Vec::new();
    let mut k = j;
    while k < s.len()
        invariant
            j <= k <= s.len(),
            string_scan(s@, k as int, acc@) == string_scan(s@, j as int, Seq::empty()),
        decreases s.len() - k,
    {
        if s[k] == BACKSLASH && k + 1 < s.len() && s[k + 1] == QUOTE {
            acc.push(QUOTE);
            k = k + 2;
        } else if s[k] == QUOTE {
            return Some((acc, k + 1));
        } else {
            acc.push(s[k]);
            k = k + 1;
        }
    }
    None
}

} // verus!
