use vstd::prelude::*;
use crate::grammar::{
    close_at, false_at, items_at, null_at, object_at, pair_value_at, pairs_at, root_at, true_at,
    value_at, Outcome,
};
use crate::lexer::{
    after_sign, digits_end, digits_value, exponent_end, float_end, int_literal, int_value, is_byte,
    is_digit, mantissa_end, sep_end, sep_scan, string_scan, text_of, ws_end, ws_scan, LBRACE,
    LBRACKET, NEWLINE, SPACE, TAB, HASH, SLASH, RBRACE, QUOTE, COLON, EQUALS,
};
use crate::value::{insert_merged, Json};

verus! {

/// `o` with its positions moved `n` bytes on.
pub open spec fn shifted(o: Outcome, n: int) -> Outcome {
    match o {
        Outcome::Done(v, e) => Outcome::Done(v, e + n),
        Outcome::Malformed(x) => Outcome::Malformed(x + n),
        Outcome::Incomplete => Outcome::Incomplete,
    }
}

proof fn lemma_byte_shift(pre: Seq<u8>, t: Seq<u8>, k: int)
    requires
        0 <= k,
    ensures
        forall|b: u8| #[trigger] is_byte(pre + t, k + pre.len(), b) == is_byte(t, k, b),
        is_digit(pre + t, k + pre.len()) == is_digit(t, k),
{
    if k < t.len() {
        assert((pre + t)[k + pre.len()] == t[k]);
    }
}

proof fn lemma_ws_shift(pre: Seq<u8>, t: Seq<u8>, k: int, c: bool)
    requires
        0 <= k,
    ensures
        ws_scan(pre + t, k + pre.len(), c) == ws_scan(t, k, c) + pre.len(),
    decreases t.len() - k,
{
    lemma_byte_shift(pre, t, k);
    lemma_byte_shift(pre, t, k + 1);
    if k < t.len() {
        assert((pre + t)[k + pre.len()] == t[k]);
        lemma_ws_shift(pre, t, k + 1, false);
        lemma_ws_shift(pre, t, k + 1, true);
        if k + 1 < t.len() {
            lemma_ws_shift(pre, t, k + 2, true);
        }
    }
}

proof fn lemma_sep_shift(pre: Seq<u8>, t: Seq<u8>, k: int, c: bool, seen: bool, comma: bool)
    requires
        0 <= k,
    ensures
        sep_scan(pre + t, k + pre.len(), c, seen, comma) == (
            sep_scan(t, k, c, seen, comma).0 + pre.len(),
            sep_scan(t, k, c, seen, comma).1,
        ),
    decreases t.len() - k,
{
    lemma_byte_shift(pre, t, k);
    lemma_byte_shift(pre, t, k + 1);
    if k < t.len() {
        assert((pre + t)[k + pre.len()] == t[k]);
        lemma_sep_shift(pre, t, k + 1, false, true, comma);
        lemma_sep_shift(pre, t, k + 1, true, seen, comma);
        lemma_sep_shift(pre, t, k + 1, false, seen, comma);
        lemma_sep_shift(pre, t, k + 1, true, seen, comma);
        if k + 1 < t.len() {
            lemma_sep_shift(pre, t, k + 2, true, seen, comma);
        }
        lemma_sep_shift(pre, t, k + 1, false, true, true);
    }
}

proof fn lemma_digits_shift(pre: Seq<u8>, t: Seq<u8>, k: int)
    requires
        0 <= k,
    ensures
        digits_end(pre + t, k + pre.len()) == digits_end(t, k) + pre.len(),
    decreases t.len() - k,
{
    lemma_byte_shift(pre, t, k);
    if is_digit(t, k) {
        lemma_digits_shift(pre, t, k + 1);
    }
}

proof fn lemma_digits_value_shift(pre: Seq<u8>, t: Seq<u8>, j: int, e: int)
    requires
        0 <= j <= e <= t.len(),
    ensures
        digits_value(pre + t, j + pre.len(), e + pre.len()) == digits_value(t, j, e),
    decreases e - j,
{
    if e > j {
        lemma_digits_value_shift(pre, t, j, e - 1);
        assert((pre + t)[e - 1 + pre.len()] == t[e - 1]);
    }
}

proof fn lemma_digits_bound(t: Seq<u8>, k: int)
    requires
        0 <= k,
    ensures
        k <= digits_end(t, k),
    decreases t.len() - k,
{
    if is_digit(t, k) {
        lemma_digits_bound(t, k + 1);
    }
}

proof fn lemma_scalars_shift(pre: Seq<u8>, t: Seq<u8>, k: int)
    requires
        0 <= k <= t.len(),
    ensures
        null_at(pre + t, k + pre.len()) == null_at(t, k),
        true_at(pre + t, k + pre.len()) == true_at(t, k),
        false_at(pre + t, k + pre.len()) == false_at(t, k),
        float_end(pre + t, k + pre.len()) == match float_end(t, k) {
            Some(e) => Some(e + pre.len()),
            None => None,
        },
        int_value(pre + t, k + pre.len()) == match int_value(t, k) {
            Some((v, e)) => Some((v, e + pre.len())),
            None => None,
        },
        float_end(t, k) matches Some(e) ==> k <= e <= t.len(),
{
    let n = pre.len() as int;
    let s = pre + t;
    lemma_byte_shift(pre, t, k);
    lemma_byte_shift(pre, t, k + 1);
    lemma_byte_shift(pre, t, k + 2);
    lemma_byte_shift(pre, t, k + 3);
    lemma_byte_shift(pre, t, k + 4);
    let j = after_sign(t, k);
    assert(after_sign(s, k + n) == j + n);
    lemma_byte_shift(pre, t, j);
    lemma_byte_shift(pre, t, j + 1);
    lemma_digits_shift(pre, t, j);
    lemma_digits_shift(pre, t, j + 1);
    lemma_digits_bound(t, j);
    let d = digits_end(t, j);
    lemma_digits_bound(t, j + 1);
    lemma_digits_bound(t, d + 1);
    lemma_byte_shift(pre, t, d);
    lemma_digits_shift(pre, t, d + 1);
    crate::lexer::lemma_digits_end(t, j);
    if is_byte(t, d, crate::lexer::DOT) {
        crate::lexer::lemma_digits_end(t, d + 1);
    }
    if is_byte(t, j, crate::lexer::DOT) && is_digit(t, j + 1) {
        crate::lexer::lemma_digits_end(t, j + 1);
    }
    lemma_digits_value_shift(pre, t, j, d);
    assert(int_literal(s, k + n) == match int_literal(t, k) {
        Some((v, e)) => Some((v, e + n)),
        None => None,
    });
    assert(mantissa_end(s, j + n) == match mantissa_end(t, j) {
        Some((m, p)) => Some((m + n, p)),
        None => None,
    });
    if let Some((m, _)) = mantissa_end(t, j) {
        lemma_byte_shift(pre, t, m);
        let k2 = after_sign(t, m + 1);
        lemma_byte_shift(pre, t, m + 1);
        assert(after_sign(s, m + 1 + n) == k2 + n);
        lemma_byte_shift(pre, t, k2);
        lemma_digits_shift(pre, t, k2);
        if is_digit(t, k2) {
            crate::lexer::lemma_digits_end(t, k2);
        }
        assert(exponent_end(s, m + n) == exponent_end(t, m) + n);
    }
}

proof fn lemma_string_shift(pre: Seq<u8>, t: Seq<u8>, k: int, acc: Seq<u8>)
    requires
        0 <= k,
    ensures
        string_scan(pre + t, k + pre.len(), acc) == match string_scan(t, k, acc) {
            Some((b, e)) => Some((b, e + pre.len())),
            None => None,
        },
    decreases t.len() - k,
{
    lemma_byte_shift(pre, t, k + 1);
    if k < t.len() {
        assert((pre + t)[k + pre.len()] == t[k]);
        lemma_string_shift(pre, t, k + 1, acc.push(t[k]));
        if k + 1 < t.len() {
            lemma_string_shift(pre, t, k + 2, acc.push(crate::lexer::QUOTE));
        }
    }
}

proof fn lemma_close_shift(pre: Seq<u8>, t: Seq<u8>, o: Outcome, b: u8)
    requires
        o matches Outcome::Done(_, q) ==> 0 <= q,
    ensures
        close_at(pre + t, shifted(o, pre.len() as int), b) == shifted(close_at(t, o, b), pre.len() as int),
{
    if let Outcome::Done(_, q) = o {
        lemma_ws_shift(pre, t, q, false);
        let c = ws_end(t, q);
        if q <= t.len() {
            crate::lexer::lemma_ws_scan_forward(t, q, false);
        }
        lemma_byte_shift(pre, t, c);
    }
}


proof fn lemma_ws_ge(t: Seq<u8>, q: int)
    requires
        0 <= q,
    ensures
        q <= ws_end(t, q),
        q <= t.len() ==> ws_end(t, q) <= t.len(),
{
    if q <= t.len() {
        crate::lexer::lemma_ws_scan_forward(t, q, false);
    }
}

proof fn lemma_value_shift(pre: Seq<u8>, t: Seq<u8>, k: int)
    requires
        0 <= k,
    ensures
        value_at(pre + t, k + pre.len()) == shifted(value_at(t, k), pre.len() as int),
    decreases t.len() - k, 1nat,
{
    let s = pre + t;
    let n = pre.len() as int;
    if k < t.len() {
        lemma_scalars_shift(pre, t, k);
        assert(s[k + n] == t[k]);
        if let Some(e) = float_end(t, k) {
            assert(s.subrange(k + n, e + n) =~= t.subrange(k, e));
        }
        lemma_string_shift(pre, t, k + 1, Seq::empty());
        let p = ws_end(t, k + 1);
        lemma_ws_shift(pre, t, k + 1, false);
        lemma_ws_ge(t, k + 1);
        if k < p <= t.len() {
            lemma_items_shift(pre, t, p, p, Seq::empty());
            lemma_close_shift(pre, t, items_at(t, p, p, Seq::empty()), crate::lexer::RBRACKET);
        }
        lemma_object_shift(pre, t, k);
    }
}

proof fn lemma_object_shift(pre: Seq<u8>, t: Seq<u8>, k: int)
    requires
        0 <= k,
    ensures
        object_at(pre + t, k + pre.len()) == shifted(object_at(t, k), pre.len() as int),
        object_at(t, k) matches Outcome::Done(_, e) ==> 0 <= e,
    decreases t.len() - k, 0nat,
{
    let p = ws_end(t, k + 1);
    lemma_ws_shift(pre, t, k + 1, false);
    if k < p <= t.len() {
        lemma_pairs_shift(pre, t, p, p, Seq::empty());
        lemma_close_shift(pre, t, pairs_at(t, p, p, Seq::empty()), crate::lexer::RBRACE);
        if let Outcome::Done(_, q) = pairs_at(t, p, p, Seq::empty()) {
            lemma_ws_ge(t, q);
        }
    }
}

proof fn lemma_items_shift(pre: Seq<u8>, t: Seq<u8>, q: int, p: int, acc: Seq<Json>)
    requires
        0 <= q,
    ensures
        items_at(pre + t, q + pre.len(), p + pre.len(), acc) == shifted(
            items_at(t, q, p, acc),
            pre.len() as int,
        ),
        items_at(t, q, p, acc) matches Outcome::Done(_, e) ==> q <= e,
    decreases t.len() - p, 2nat,
{
    if q <= p <= t.len() {
        lemma_value_shift(pre, t, p);
        if let Outcome::Done(v, e) = value_at(t, p) {
            if p < e <= t.len() {
                lemma_sep_shift(pre, t, e, false, false, false);
                if let Some(next) = sep_end(t, e) {
                    if e < next <= t.len() {
                        lemma_items_shift(pre, t, e, next, acc.push(v));
                    }
                }
            }
        }
    }
}

proof fn lemma_pair_value_shift(pre: Seq<u8>, t: Seq<u8>, k: int)
    requires
        0 <= k,
    ensures
        pair_value_at(pre + t, k + pre.len()) == shifted(pair_value_at(t, k), pre.len() as int),
    decreases t.len() - k, 1nat,
{
    let w = ws_end(t, k);
    lemma_ws_shift(pre, t, k, false);
    if k <= w <= t.len() {
        lemma_byte_shift(pre, t, w);
        if is_byte(t, w, LBRACE) {
            lemma_object_shift(pre, t, w);
        } else {
            let p = ws_end(t, w + 1);
            lemma_ws_shift(pre, t, w + 1, false);
            if w < p <= t.len() {
                lemma_value_shift(pre, t, p);
            }
        }
    }
}

proof fn lemma_pairs_shift(
    pre: Seq<u8>,
    t: Seq<u8>,
    q: int,
    p: int,
    acc: Seq<(Seq<char>, Json)>,
)
    requires
        0 <= q,
    ensures
        pairs_at(pre + t, q + pre.len(), p + pre.len(), acc) == shifted(
            pairs_at(t, q, p, acc),
            pre.len() as int,
        ),
        pairs_at(t, q, p, acc) matches Outcome::Done(_, e) ==> q <= e,
    decreases t.len() - p, 2nat,
{
    if q <= p <= t.len() {
        lemma_byte_shift(pre, t, p);
        lemma_string_shift(pre, t, p + 1, Seq::empty());
        if is_byte(t, p, crate::lexer::QUOTE) {
            if let Some((raw, k)) = string_scan(t, p + 1, Seq::empty()) {
                if let Some(key) = text_of(raw) {
                    if p < k <= t.len() {
                        lemma_pair_value_shift(pre, t, k);
                        if let Outcome::Done(v, e) = pair_value_at(t, k) {
                            if k < e <= t.len() {
                                lemma_sep_shift(pre, t, e, false, false, false);
                                if let Some(next) = sep_end(t, e) {
                                    if e < next <= t.len() {
                                        lemma_pairs_shift(pre, t, e, next, insert_merged(acc, key, v));
                                    }
                                }
                            }
                        }
                    }
                }
            }
        }
    }
}

/// The value at a position depends only on the bytes from there on: what
/// comes before it moves the positions reported and changes nothing else.
pub proof fn lemma_value_depends_on_rest(pre: Seq<u8>, t: Seq<u8>)
    ensures
        value_at(pre + t, pre.len() as int) == shifted(value_at(t, 0), pre.len() as int),
{
    lemma_value_shift(pre, t, 0);
}

pub open spec fn is_blank(b: u8) -> bool {
    b == SPACE || b == TAB || b == NEWLINE
}

proof fn lemma_blank_run(s: Seq<u8>, i: int, b: int)
    requires
        0 <= i <= b <= s.len(),
        forall|x: int| i <= x < b ==> is_blank(#[trigger] s[x]),
    ensures
        ws_scan(s, i, false) == ws_scan(s, b, false),
    decreases b - i,
{
    if i < b {
        lemma_blank_run(s, i + 1, b);
    }
}

/// Blanks at the start of a document change nothing but the positions reported.
pub proof fn lemma_leading_blanks(r: Seq<u8>, t: Seq<u8>)
    requires
        forall|x: int| 0 <= x < r.len() ==> is_blank(#[trigger] r[x]),
    ensures
        root_at(r + t) == shifted(root_at(t), r.len() as int),
{
    let s = r + t;
    let n = r.len() as int;
    assert forall|x: int| 0 <= x < n implies is_blank(#[trigger] s[x]) by {
        assert(s[x] == r[x]);
    }
    lemma_blank_run(s, 0, n);
    lemma_ws_shift(r, t, 0, false);
    let w = ws_end(t, 0);
    lemma_ws_ge(t, 0);
    lemma_byte_shift(r, t, w);
    lemma_object_shift(r, t, w);
    lemma_pairs_shift(r, t, w, w, Seq::empty());
    let body = if is_byte(t, w, LBRACE) {
        object_at(t, w)
    } else {
        pairs_at(t, w, w, Seq::empty())
    };
    if let Outcome::Done(_, e) = body {
        lemma_ws_shift(r, t, e, false);
    }
}

/// Blanks right after the `[` of an array change nothing but the positions
/// reported.
pub proof fn lemma_blanks_after_bracket(r: Seq<u8>, rest: Seq<u8>)
    requires
        forall|x: int| 0 <= x < r.len() ==> is_blank(#[trigger] r[x]),
    ensures
        value_at(seq![LBRACKET] + r + rest, 0) == shifted(
            value_at(seq![LBRACKET] + rest, 0),
            r.len() as int,
        ),
{
    let pre1 = seq![LBRACKET] + r;
    let pre0 = seq![LBRACKET];
    let s = pre1 + rest;
    let s0 = pre0 + rest;
    let n = pre1.len() as int;
    assert(s[0] == LBRACKET);
    assert(s0[0] == LBRACKET);
    assert forall|x: int| 1 <= x < n implies is_blank(#[trigger] s[x]) by {
        assert(s[x] == r[x - 1]);
    }
    lemma_blank_run(s, 1, n);
    lemma_ws_shift(pre1, rest, 0, false);
    lemma_ws_shift(pre0, rest, 0, false);
    let w = ws_end(rest, 0);
    lemma_ws_ge(rest, 0);
    lemma_items_shift(pre1, rest, w, w, Seq::empty());
    lemma_items_shift(pre0, rest, w, w, Seq::empty());
    let items = items_at(rest, w, w, Seq::empty());
    lemma_close_shift(pre1, rest, items, crate::lexer::RBRACKET);
    lemma_close_shift(pre0, rest, items, crate::lexer::RBRACKET);
    assert(value_at(s, 0) == close_at(s, items_at(s, w + n, w + n, Seq::empty()), crate::lexer::RBRACKET));
    assert(value_at(s0, 0) == close_at(s0, items_at(s0, w + 1, w + 1, Seq::empty()), crate::lexer::RBRACKET));
}


/// `t` holds neither `#` nor `/`, so no comment can start in it.
pub open spec fn without_comment_marks(t: Seq<u8>) -> bool {
    forall|x: int| 0 <= x < t.len() ==> #[trigger] t[x] != HASH && t[x] != SLASH
}

proof fn lemma_brace_byte(t: Seq<u8>, k: int)
    requires
        0 <= k,
    ensures
        forall|b: u8|
            k < t.len() ==> #[trigger] is_byte(t + seq![RBRACE], k, b) == is_byte(t, k, b),
        is_byte(t + seq![RBRACE], t.len() as int, RBRACE),
        is_digit(t + seq![RBRACE], k) == is_digit(t, k),
        forall|b: u8| b != RBRACE ==> #[trigger] is_byte(t + seq![RBRACE], k, b) == is_byte(t, k, b),
{
    let u = t + seq![RBRACE];
    assert(u[t.len() as int] == RBRACE);
    if k < t.len() {
        assert(u[k] == t[k]);
    }
}

proof fn lemma_ws_ext(t: Seq<u8>, k: int)
    requires
        0 <= k <= t.len(),
        without_comment_marks(t),
    ensures
        ws_scan(t + seq![RBRACE], k, false) == ws_scan(t, k, false),
    decreases t.len() - k,
{
    lemma_brace_byte(t, k);
    if k < t.len() {
        assert((t + seq![RBRACE])[k] == t[k]);
        lemma_ws_ext(t, k + 1);
    }
}

proof fn lemma_sep_ext(t: Seq<u8>, k: int, seen: bool, comma: bool)
    requires
        0 <= k <= t.len(),
        without_comment_marks(t),
    ensures
        sep_scan(t + seq![RBRACE], k, false, seen, comma) == sep_scan(t, k, false, seen, comma),
    decreases t.len() - k,
{
    lemma_brace_byte(t, k);
    if k < t.len() {
        assert((t + seq![RBRACE])[k] == t[k]);
        lemma_sep_ext(t, k + 1, seen, comma);
        lemma_sep_ext(t, k + 1, true, comma);
        lemma_sep_ext(t, k + 1, true, true);
    }
}

proof fn lemma_digits_ext(t: Seq<u8>, k: int)
    requires
        0 <= k,
    ensures
        digits_end(t + seq![RBRACE], k) == digits_end(t, k),
    decreases t.len() - k,
{
    lemma_brace_byte(t, k);
    if is_digit(t, k) {
        lemma_digits_ext(t, k + 1);
    }
}

proof fn lemma_digits_value_ext(t: Seq<u8>, j: int, e: int)
    requires
        0 <= j <= e <= t.len(),
    ensures
        digits_value(t + seq![RBRACE], j, e) == digits_value(t, j, e),
    decreases e - j,
{
    if e > j {
        lemma_digits_value_ext(t, j, e - 1);
        assert((t + seq![RBRACE])[e - 1] == t[e - 1]);
    }
}

proof fn lemma_scalars_ext(t: Seq<u8>, k: int)
    requires
        0 <= k <= t.len(),
    ensures
        null_at(t + seq![RBRACE], k) == null_at(t, k),
        true_at(t + seq![RBRACE], k) == true_at(t, k),
        false_at(t + seq![RBRACE], k) == false_at(t, k),
        float_end(t + seq![RBRACE], k) == float_end(t, k),
        int_value(t + seq![RBRACE], k) == int_value(t, k),
        int_value(t, k) matches Some((_, e)) ==> e <= t.len(),
        float_end(t, k) matches Some(e) ==> k <= e <= t.len(),
{
    let u = t + seq![RBRACE];
    lemma_brace_byte(t, k);
    lemma_brace_byte(t, k + 1);
    lemma_brace_byte(t, k + 2);
    lemma_brace_byte(t, k + 3);
    lemma_brace_byte(t, k + 4);
    let j = after_sign(t, k);
    assert(after_sign(u, k) == j);
    lemma_brace_byte(t, j);
    lemma_brace_byte(t, j + 1);
    lemma_digits_ext(t, j);
    lemma_digits_ext(t, j + 1);
    crate::lexer::lemma_digits_end(t, j);
    let d = digits_end(t, j);
    lemma_brace_byte(t, d);
    lemma_digits_ext(t, d + 1);
    lemma_digits_value_ext(t, j, d);
    if is_byte(t, d, crate::lexer::DOT) {
        crate::lexer::lemma_digits_end(t, d + 1);
    }
    if is_byte(t, j, crate::lexer::DOT) && is_digit(t, j + 1) {
        crate::lexer::lemma_digits_end(t, j + 1);
    }
    assert(int_literal(u, k) == int_literal(t, k));
    assert(mantissa_end(u, j) == mantissa_end(t, j));
    if let Some((m, _)) = mantissa_end(t, j) {
        lemma_brace_byte(t, m);
        lemma_brace_byte(t, m + 1);
        let k2 = after_sign(t, m + 1);
        assert(after_sign(u, m + 1) == k2);
        lemma_brace_byte(t, k2);
        lemma_digits_ext(t, k2);
        if is_digit(t, k2) {
            crate::lexer::lemma_digits_end(t, k2);
        }
        assert(exponent_end(u, m) == exponent_end(t, m));
    }
}

proof fn lemma_string_ext(t: Seq<u8>, k: int, acc: Seq<u8>)
    requires
        0 <= k,
    ensures
        string_scan(t + seq![RBRACE], k, acc) == string_scan(t, k, acc),
        string_scan(t, k, acc) matches Some((_, e)) ==> k < e <= t.len(),
    decreases t.len() + 1 - k,
{
    let u = t + seq![RBRACE];
    lemma_brace_byte(t, k + 1);
    if k < t.len() {
        assert(u[k] == t[k]);
        lemma_string_ext(t, k + 1, acc.push(t[k]));
        lemma_string_ext(t, k + 2, acc.push(QUOTE));
    } else if k == t.len() {
        assert(u[k] == RBRACE);
        assert(string_scan(u, k + 1, acc.push(RBRACE)) is None);
    }
}

proof fn lemma_value_ext(t: Seq<u8>, k: int)
    requires
        0 <= k <= t.len(),
        without_comment_marks(t),
    ensures
        value_at(t, k) matches Outcome::Malformed(x) ==> k <= x,
        value_at(t, k) matches Outcome::Done(_, e) ==> e <= t.len(),
        value_at(t, k) is Done || value_at(t, k) == Outcome::Malformed(k) ==> value_at(
            t + seq![RBRACE],
            k,
        ) == value_at(t, k),
    decreases t.len() - k, 1nat,
{
    let u = t + seq![RBRACE];
    lemma_brace_byte(t, k);
    lemma_scalars_ext(t, k);
    if k == t.len() {
        assert(u[k] == RBRACE);
    } else {
        assert(u[k] == t[k]);
        if let Some(e) = float_end(t, k) {
            assert(u.subrange(k, e) =~= t.subrange(k, e));
        }
        lemma_string_ext(t, k + 1, Seq::empty());
        let p = ws_end(t, k + 1);
        lemma_ws_ext(t, k + 1);
        lemma_ws_ge(t, k + 1);
        if k < p <= t.len() {
            lemma_items_ext(t, p, p, Seq::empty());
            if let Outcome::Done(_, q) = items_at(t, p, p, Seq::empty()) {
                lemma_ws_ext(t, q);
                lemma_ws_ge(t, q);
                lemma_brace_byte(t, ws_end(t, q));
            }
        }
        lemma_object_ext(t, k);
    }
}

proof fn lemma_object_ext(t: Seq<u8>, k: int)
    requires
        0 <= k < t.len(),
        without_comment_marks(t),
    ensures
        object_at(t, k) matches Outcome::Malformed(x) ==> k < x,
        object_at(t, k) matches Outcome::Done(_, e) ==> e <= t.len(),
        object_at(t, k) is Done ==> object_at(t + seq![RBRACE], k) == object_at(t, k),
    decreases t.len() - k, 0nat,
{
    let p = ws_end(t, k + 1);
    lemma_ws_ext(t, k + 1);
    lemma_ws_ge(t, k + 1);
    if k < p <= t.len() {
        lemma_pairs_ext(t, p, p, Seq::empty());
        if let Outcome::Done(_, q) = pairs_at(t, p, p, Seq::empty()) {
            lemma_ws_ext(t, q);
            lemma_ws_ge(t, q);
            lemma_brace_byte(t, ws_end(t, q));
        }
    }
}

proof fn lemma_items_ext(t: Seq<u8>, q: int, p: int, acc: Seq<Json>)
    requires
        0 <= q,
        without_comment_marks(t),
    ensures
        items_at(t, q, p, acc) matches Outcome::Malformed(x) ==> p <= x,
        items_at(t, q, p, acc) matches Outcome::Done(_, e) ==> q <= e <= t.len(),
        items_at(t, q, p, acc) is Done ==> items_at(t + seq![RBRACE], q, p, acc) == items_at(
            t,
            q,
            p,
            acc,
        ),
    decreases t.len() - p, 2nat,
{
    if q <= p <= t.len() {
        lemma_value_ext(t, p);
        if let Outcome::Done(v, e) = value_at(t, p) {
            if p < e <= t.len() {
                lemma_sep_ext(t, e, false, false);
                lemma_sep_scan_bound(t, e, false, false, false);
                if let Some(next) = sep_end(t, e) {
                    if e < next <= t.len() {
                        lemma_items_ext(t, e, next, acc.push(v));
                    }
                }
            }
        }
    }
}

proof fn lemma_sep_scan_bound(t: Seq<u8>, k: int, c: bool, seen: bool, comma: bool)
    requires
        0 <= k <= t.len(),
    ensures
        k <= sep_scan(t, k, c, seen, comma).0 <= t.len(),
    decreases t.len() - k,
{
    if k < t.len() {
        lemma_sep_scan_bound(t, k + 1, false, true, comma);
        lemma_sep_scan_bound(t, k + 1, true, seen, comma);
        lemma_sep_scan_bound(t, k + 1, false, seen, comma);
        lemma_sep_scan_bound(t, k + 1, false, true, true);
        if k + 1 < t.len() {
            lemma_sep_scan_bound(t, k + 2, true, seen, comma);
        }
    }
}

proof fn lemma_pair_value_ext(t: Seq<u8>, k: int)
    requires
        0 <= k <= t.len(),
        without_comment_marks(t),
    ensures
        pair_value_at(t, k) matches Outcome::Malformed(x) ==> k <= x,
        pair_value_at(t, k) matches Outcome::Done(_, e) ==> e <= t.len(),
        pair_value_at(t, k) is Done ==> pair_value_at(t + seq![RBRACE], k) == pair_value_at(t, k),
    decreases t.len() - k, 1nat,
{
    let w = ws_end(t, k);
    lemma_ws_ext(t, k);
    lemma_ws_ge(t, k);
    lemma_brace_byte(t, w);
    if k <= w < t.len() {
        if is_byte(t, w, LBRACE) {
            lemma_object_ext(t, w);
        } else {
            let p = ws_end(t, w + 1);
            lemma_ws_ext(t, w + 1);
            lemma_ws_ge(t, w + 1);
            if w < p <= t.len() {
                lemma_value_ext(t, p);
            }
        }
    }
}

proof fn lemma_pairs_ext(t: Seq<u8>, q: int, p: int, acc: Seq<(Seq<char>, Json)>)
    requires
        0 <= q,
        without_comment_marks(t),
    ensures
        pairs_at(t, q, p, acc) matches Outcome::Malformed(x) ==> p <= x,
        pairs_at(t, q, p, acc) matches Outcome::Done(_, e) ==> q <= e <= t.len(),
        pairs_at(t, q, p, acc) is Done ==> pairs_at(t + seq![RBRACE], q, p, acc) == pairs_at(
            t,
            q,
            p,
            acc,
        ),
    decreases t.len() - p, 2nat,
{
    if q <= p <= t.len() {
        lemma_brace_byte(t, p);
        lemma_string_ext(t, p + 1, Seq::empty());
        if is_byte(t, p, QUOTE) {
            if let Some((raw, k)) = string_scan(t, p + 1, Seq::empty()) {
                if let Some(key) = text_of(raw) {
                    if p < k <= t.len() {
                        lemma_pair_value_ext(t, k);
                        if let Outcome::Done(v, e) = pair_value_at(t, k) {
                            if k < e <= t.len() {
                                lemma_sep_ext(t, e, false, false);
                                lemma_sep_scan_bound(t, e, false, false, false);
                                if let Some(next) = sep_end(t, e) {
                                    if e < next <= t.len() {
                                        lemma_pairs_ext(t, e, next, insert_merged(acc, key, v));
                                    }
                                }
                            }
                        }
                    }
                }
            }
        }
    }
}


/// The braces round a top-level object may be left out: pairs without braces
/// (and without comment marks, so that the closing brace cannot fall into a
/// comment) give the same object as the same pairs wrapped in braces.
pub proof fn lemma_root_braces_optional(t: Seq<u8>)
    requires
        without_comment_marks(t),
        !is_byte(t, ws_end(t, 0), LBRACE),
        root_at(t) matches Outcome::Done(_, e) && e == t.len(),
    ensures
        root_at(seq![LBRACE] + t + seq![RBRACE]) == Outcome::Done(
            root_at(t)->Done_0,
            t.len() + 2int,
        ),
{
    let u = t + seq![RBRACE];
    let pre = seq![LBRACE];
    let s = pre + u;
    assert(seq![LBRACE] + t + seq![RBRACE] =~= s);
    assert(s[0] == LBRACE);
    let w = ws_end(t, 0);
    lemma_ws_ge(t, 0);
    lemma_ws_ext(t, 0);
    lemma_ws_shift(pre, u, 0, false);
    lemma_pairs_ext(t, w, w, Seq::empty());
    lemma_pairs_shift(pre, u, w, w, Seq::empty());
    let e0 = pairs_at(t, w, w, Seq::empty())->Done_1;
    lemma_ws_ext(t, e0);
    lemma_ws_shift(pre, u, e0, false);
    assert(s[t.len() + 1int] == RBRACE);
}


/// The separator after a key may be `:` or `=` alike; and before a braced
/// object it may be left out, which moves the positions reported back by one
/// and changes nothing else. `pre` ends where the key does.
pub proof fn lemma_separator_forms(pre: Seq<u8>, rest: Seq<u8>)
    ensures
        pair_value_at(pre + seq![COLON] + rest, pre.len() as int) == pair_value_at(
            pre + seq![EQUALS] + rest,
            pre.len() as int,
        ),
        is_byte(rest, 0, LBRACE) ==> pair_value_at(pre + seq![COLON] + rest, pre.len() as int)
            == shifted(pair_value_at(pre + rest, pre.len() as int), 1),
{
    let n = pre.len() as int;
    let pc = pre + seq![COLON];
    let pe = pre + seq![EQUALS];
    let sc = pc + rest;
    let se = pe + rest;
    assert(pre + seq![COLON] + rest =~= sc);
    assert(pre + seq![EQUALS] + rest =~= se);
    assert(sc[n] == COLON);
    assert(se[n] == EQUALS);
    let w = ws_end(rest, 0);
    lemma_ws_ge(rest, 0);
    lemma_ws_shift(pc, rest, 0, false);
    lemma_ws_shift(pe, rest, 0, false);
    lemma_value_shift(pc, rest, w);
    lemma_value_shift(pe, rest, w);
    if is_byte(rest, 0, LBRACE) {
        let s0 = pre + rest;
        assert(s0[n] == LBRACE);
        assert(rest[0] == LBRACE);
        lemma_object_shift(pre, rest, 0);
        lemma_object_shift(pc, rest, 0);
        assert(value_at(rest, 0) == object_at(rest, 0));
    }
}

} // verus!
