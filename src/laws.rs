use vstd::prelude::*;
use vstd::utf8::{decode_utf8, valid_utf8};
use crate::grammar::{close_at, object_at, pairs_at, root_at, value_at, Outcome};
use crate::lexer::{
    digits_end, digits_value, is_byte, is_digit, sep_end, sep_scan, string_scan, COMMA, DOT, HASH, LBRACE,
    LBRACKET, MINUS, NEWLINE, NINE, PLUS, QUOTE, RBRACE, SLASH, SPACE, TAB, ZERO, BACKSLASH, float_end,
    ws_end, text_of,
};
use crate::value::{insert_merged, key_index, merge, merge_entries, Json};

verus! {

proof fn lemma_digits_to_end(s: Seq<u8>, j: int)
    requires
        0 <= j <= s.len(),
        forall|x: int| j <= x < s.len() ==> is_digit(s, x),
    ensures
        digits_end(s, j) == s.len(),
    decreases s.len() - j,
{
    if j < s.len() {
        lemma_digits_to_end(s, j + 1);
    }
}

proof fn lemma_digits_value_shift(s: Seq<u8>, d: Seq<u8>, k: int, e: int)
    requires
        0 <= k,
        k <= e <= s.len(),
        s.subrange(k, s.len() as int) == d,
    ensures
        digits_value(s, k, e) == digits_value(d, 0, e - k),
    decreases e - k,
{
    if e > k {
        lemma_digits_value_shift(s, d, k, e - 1);
        assert(s[e - 1] == d[e - 1 - k]);
    }
}

/// An integer literal (an optional minus and decimal digits) whose value fits
/// in 64 bits reads back as exactly that integer, and takes up the whole text.
pub proof fn lemma_integer_literal(digits: Seq<u8>, negative: bool)
    requires
        digits.len() > 0,
        forall|x: int| 0 <= x < digits.len() ==> ZERO <= #[trigger] digits[x] <= NINE,
        i64::MIN <= (if negative {
            -digits_value(digits, 0, digits.len() as int)
        } else {
            digits_value(digits, 0, digits.len() as int)
        }) <= i64::MAX,
    ensures
        ({
            let s = if negative {
                seq![MINUS] + digits
            } else {
                digits
            };
            let n = digits_value(digits, 0, digits.len() as int);
            value_at(s, 0) == Outcome::Done(
                Json::Int(if negative {
                    -n
                } else {
                    n
                }),
                s.len() as int,
            )
        }),
{
    let s = if negative {
        seq![MINUS] + digits
    } else {
        digits
    };
    let j: int = if negative {
        1
    } else {
        0
    };
    assert(s.subrange(j, s.len() as int) =~= digits);
    assert forall|x: int| j <= x < s.len() implies is_digit(s, x) by {
        assert(s[x] == digits[x - j]);
    }
    lemma_digits_to_end(s, j);
    lemma_digits_value_shift(s, digits, j, s.len() as int);
    assert(is_digit(s, j));
}

/// A floating-point literal that takes up the whole text reads back as that
/// text.
pub proof fn lemma_float_literal(s: Seq<u8>)
    requires
        float_end(s, 0) == Some(s.len() as int),
        valid_utf8(s),
    ensures
        value_at(s, 0) == Outcome::Done(Json::Float(decode_utf8(s)), s.len() as int),
{
    assert(s.subrange(0, s.len() as int) =~= s);
    assert(s[0] == PLUS || s[0] == MINUS || s[0] == DOT || (ZERO <= s[0] <= NINE));
}

proof fn lemma_string_body(s: Seq<u8>, c: Seq<u8>, j: int, acc: Seq<u8>)
    requires
        s == seq![QUOTE] + c + seq![QUOTE],
        1 <= j <= c.len() + 1,
        forall|x: int| 0 <= x < c.len() ==> #[trigger] c[x] != QUOTE,
        c.len() > 0 ==> c.last() != BACKSLASH,
    ensures
        string_scan(s, j, acc) == Some((acc + c.subrange(j - 1, c.len() as int), s.len() as int)),
    decreases c.len() + 1 - j,
{
    if j <= c.len() {
        assert(s[j] == c[j - 1]);
        if j + 1 <= c.len() {
            assert(s[j + 1] == c[j]);
        }
        lemma_string_body(s, c, j + 1, acc.push(c[j - 1]));
        assert(acc.push(c[j - 1]) + c.subrange(j, c.len() as int) =~= acc + c.subrange(
            j - 1,
            c.len() as int,
        ));
    } else {
        assert(acc + c.subrange(j - 1, c.len() as int) =~= acc);
    }
}

/// A quoted string whose content holds no quote (and does not end in a
/// backslash, which would escape the closing quote) reads back as its content.
pub proof fn lemma_string_literal(c: Seq<u8>)
    requires
        forall|x: int| 0 <= x < c.len() ==> #[trigger] c[x] != QUOTE,
        c.len() > 0 ==> c.last() != BACKSLASH,
        valid_utf8(c),
    ensures
        value_at(seq![QUOTE] + c + seq![QUOTE], 0) == Outcome::Done(
            Json::Str(decode_utf8(c)),
            c.len() + 2int,
        ),
{
    let s = seq![QUOTE] + c + seq![QUOTE];
    lemma_string_body(s, c, 1, Seq::empty());
    assert(Seq::<u8>::empty() + c.subrange(0, c.len() as int) =~= c);
    assert(s[0] == QUOTE);
}

proof fn lemma_no_closing_quote(s: Seq<u8>, j: int, acc: Seq<u8>)
    requires
        1 <= j,
        forall|x: int| 1 <= x < s.len() ==> #[trigger] s[x] != QUOTE,
    ensures
        string_scan(s, j, acc) is None,
    decreases s.len() - j,
{
    if j < s.len() {
        if s[j] == BACKSLASH && j + 1 < s.len() {
            assert(s[j + 1] != QUOTE);
        }
        lemma_no_closing_quote(s, j + 1, acc.push(s[j]));
    }
}

/// A string whose closing quote never comes is incomplete, not malformed.
pub proof fn lemma_unterminated_string(s: Seq<u8>)
    requires
        s.len() > 0,
        s[0] == QUOTE,
        forall|x: int| 1 <= x < s.len() ==> #[trigger] s[x] != QUOTE,
    ensures
        value_at(s, 0) == Outcome::Incomplete,
{
    lemma_no_closing_quote(s, 1, Seq::empty());
}

/// A byte that begins no rule (no literal, number, string, array or object)
/// makes the value malformed at once.
pub proof fn lemma_no_rule_matches(s: Seq<u8>)
    requires
        s.len() > 0,
        s[0] != 110 && s[0] != 116 && s[0] != 102,
        s[0] != PLUS && s[0] != MINUS && s[0] != DOT && !(ZERO <= s[0] <= NINE),
        s[0] != QUOTE && s[0] != LBRACKET && s[0] != LBRACE,
    ensures
        value_at(s, 0) == Outcome::Malformed(0),
{
}

proof fn lemma_seen_stays(s: Seq<u8>, i: int, c: bool, comma: bool)
    ensures
        sep_scan(s, i, c, true, comma).1,
    decreases s.len() - i,
{
    if 0 <= i < s.len() {
        lemma_seen_stays(s, i + 1, false, comma);
        lemma_seen_stays(s, i + 1, true, comma);
        lemma_seen_stays(s, i + 1, false, true);
    }
}

pub open spec fn is_skip_byte(b: u8) -> bool {
    b == SPACE || b == TAB || b == NEWLINE || b == HASH || b == SLASH || b == COMMA
}

/// A newline between two items separates them as a comma does: both end the
/// separator right after themselves where no further blank, comment or comma
/// follows.
pub proof fn lemma_newline_is_comma(s: Seq<u8>, i: int)
    requires
        0 <= i,
        i + 1 < s.len(),
        s[i] == NEWLINE || s[i] == COMMA,
        !is_skip_byte(s[i + 1]),
    ensures
        sep_end(s, i) == Some(i + 1),
{
    assert(sep_scan(s, i + 1, false, true, s[i] == COMMA) == (i + 1, true));
}

/// Any newline or comma makes a separator, whatever surrounds it.
pub proof fn lemma_newline_separates(s: Seq<u8>, i: int)
    requires
        0 <= i < s.len(),
        s[i] == NEWLINE || s[i] == COMMA,
    ensures
        sep_end(s, i) is Some,
{
    lemma_seen_stays(s, i + 1, false, s[i] == COMMA);
}

proof fn lemma_blanks_only(s: Seq<u8>, i: int, j: int)
    requires
        0 <= i <= j < s.len(),
        forall|x: int| i <= x < j ==> s[x] == SPACE || s[x] == TAB,
        !is_skip_byte(s[j]),
    ensures
        sep_scan(s, i, false, false, false) == (j, false),
    decreases j - i,
{
    if i < j {
        lemma_blanks_only(s, i + 1, j);
    }
}

/// Spaces and tabs alone, with no comma and no newline, are no separator.
pub proof fn lemma_blanks_do_not_separate(s: Seq<u8>, i: int, j: int)
    requires
        0 <= i <= j < s.len(),
        forall|x: int| i <= x < j ==> s[x] == SPACE || s[x] == TAB,
        !is_skip_byte(s[j]),
    ensures
        sep_end(s, i) is None,
{
    lemma_blanks_only(s, i, j);
}


/// No two entries share a key.
pub open spec fn keys_unique(es: Seq<(Seq<char>, Json)>) -> bool {
    forall|x: int, y: int| 0 <= x < y < es.len() ==> es[x].0 != es[y].0
}

/// The value held under `k`.
pub open spec fn lookup(es: Seq<(Seq<char>, Json)>, k: Seq<char>) -> Option<Json> {
    let i = key_index(es, k);
    if 0 <= i < es.len() {
        Some(es[i].1)
    } else {
        None
    }
}

proof fn lemma_key_index(es: Seq<(Seq<char>, Json)>, k: Seq<char>)
    ensures
        -1 <= key_index(es, k) < es.len(),
        key_index(es, k) >= 0 ==> es[key_index(es, k)].0 == k,
        key_index(es, k) >= 0 ==> forall|x: int| key_index(es, k) < x < es.len() ==> es[x].0 != k,
        key_index(es, k) == -1 ==> forall|x: int| 0 <= x < es.len() ==> es[x].0 != k,
    decreases es.len(),
{
    if es.len() > 0 {
        let d = es.drop_last();
        lemma_key_index(d, k);
        assert forall|x: int| 0 <= x < d.len() implies d[x] == es[x] by {}
    }
}

proof fn lemma_key_index_same_keys(es: Seq<(Seq<char>, Json)>, fs: Seq<(Seq<char>, Json)>, k: Seq<char>)
    requires
        es.len() == fs.len(),
        forall|x: int| 0 <= x < es.len() ==> es[x].0 == fs[x].0,
    ensures
        key_index(es, k) == key_index(fs, k),
    decreases es.len(),
{
    if es.len() > 0 {
        lemma_key_index_same_keys(es.drop_last(), fs.drop_last(), k);
    }
}

proof fn lemma_insert_lookup(es: Seq<(Seq<char>, Json)>, k: Seq<char>, v: Json, k2: Seq<char>)
    ensures
        lookup(insert_merged(es, k, v), k2) == if k2 == k {
            match lookup(es, k) {
                Some(x) => Some(merge(x, v)),
                None => Some(v),
            }
        } else {
            lookup(es, k2)
        },
        keys_unique(es) ==> keys_unique(insert_merged(es, k, v)),
{
    lemma_key_index(es, k);
    lemma_key_index(es, k2);
    let i = key_index(es, k);
    let r = insert_merged(es, k, v);
    if 0 <= i < es.len() {
        lemma_key_index_same_keys(es, r, k2);
    } else {
        assert(r.drop_last() =~= es);
        lemma_key_index(r, k2);
    }
}

proof fn lemma_merge_entries_unique(a: Seq<(Seq<char>, Json)>, b: Seq<(Seq<char>, Json)>)
    requires
        keys_unique(a),
    ensures
        keys_unique(merge_entries(a, b)),
    decreases b.len(),
{
    if b.len() > 0 {
        lemma_merge_entries_unique(a, b.drop_last());
        lemma_insert_lookup(merge_entries(a, b.drop_last()), b.last().0, b.last().1, b.last().0);
    }
}

/// Merging object entries `b` into `a` patches `a` field by field: a key of one
/// side only keeps its value, a key of both holds the merge of the two values;
/// and keys stay unique.
pub proof fn lemma_merge_patches(a: Seq<(Seq<char>, Json)>, b: Seq<(Seq<char>, Json)>, k: Seq<char>)
    requires
        keys_unique(b),
    ensures
        lookup(merge_entries(a, b), k) == match (lookup(a, k), lookup(b, k)) {
            (Some(x), Some(y)) => Some(merge(x, y)),
            (Some(x), None) => Some(x),
            (None, y) => y,
        },
        keys_unique(a) ==> keys_unique(merge_entries(a, b)),
    decreases b.len(),
{
    if keys_unique(a) {
        lemma_merge_entries_unique(a, b);
    }
    if b.len() > 0 {
        let b2 = b.drop_last();
        let (lk, lv) = b.last();
        assert(keys_unique(b2));
        lemma_merge_patches(a, b2, k);
        lemma_merge_patches(a, b2, lk);
        lemma_insert_lookup(merge_entries(a, b2), lk, lv, k);
        lemma_key_index(b2, lk);
        lemma_key_index(b2, k);
        lemma_key_index(b, k);
        if k != lk {
            assert(key_index(b, k) == key_index(b2, k));
        }
    }
}


proof fn lemma_pairs_unique(s: Seq<u8>, q: int, p: int, acc: Seq<(Seq<char>, Json)>)
    requires
        keys_unique(acc),
    ensures
        pairs_at(s, q, p, acc) matches Outcome::Done(Json::Object(es), _) ==> keys_unique(es),
    decreases s.len() - p,
{
    if 0 <= q <= p <= s.len() && is_byte(s, p, QUOTE) {
        match string_scan(s, p + 1, Seq::empty()) {
            Some((raw, k)) => match text_of(raw) {
                Some(key) => if p < k <= s.len() {
                    let pv = crate::grammar::pair_value_at(s, k);
                    if let Outcome::Done(v, e) = pv {
                        lemma_insert_lookup(acc, key, v, key);
                        let acc2 = insert_merged(acc, key, v);
                        if let Some(next) = sep_end(s, e) {
                            if k < e < next <= s.len() {
                                lemma_pairs_unique(s, e, next, acc2);
                            }
                        }
                    }
                },
                None => {},
            },
            None => {},
        }
    }
}

/// Every object that the grammar builds, braced or at the root of a
/// document, holds each key once.
pub proof fn lemma_objects_have_unique_keys(s: Seq<u8>, i: int)
    ensures
        object_at(s, i) matches Outcome::Done(Json::Object(es), _) ==> keys_unique(es),
        root_at(s) matches Outcome::Done(Json::Object(es), _) ==> keys_unique(es),
{
    let p = ws_end(s, i + 1);
    lemma_pairs_unique(s, p, p, Seq::empty());
    let w = ws_end(s, 0);
    lemma_pairs_unique(s, w, w, Seq::empty());
    let w1 = ws_end(s, w + 1);
    lemma_pairs_unique(s, w1, w1, Seq::empty());
}

} // verus!
