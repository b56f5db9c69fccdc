use vstd::prelude::*;
use crate::lexer::{
    float_end, int_value, is_byte, sep_end, string_scan, text_of, ws_end, COLON, EQUALS, LBRACE,
    LBRACKET, QUOTE, RBRACE, RBRACKET,
};
use crate::value::{insert_merged, Json};

verus! {

/// What a parsing step gives: a value and the position after it; a mismatch
/// at a position; or the input ending inside a token.
pub enum Outcome {
    Done(Json, int),
    Malformed(int),
    Incomplete,
}

pub open spec fn null_at(s: Seq<u8>, i: int) -> bool {
    is_byte(s, i, 110) && is_byte(s, i + 1, 117) && is_byte(s, i + 2, 108) && is_byte(s, i + 3, 108)
}

pub open spec fn true_at(s: Seq<u8>, i: int) -> bool {
    is_byte(s, i, 116) && is_byte(s, i + 1, 114) && is_byte(s, i + 2, 117) && is_byte(s, i + 3, 101)
}

pub open spec fn false_at(s: Seq<u8>, i: int) -> bool {
    is_byte(s, i, 102) && is_byte(s, i + 1, 97) && is_byte(s, i + 2, 108) && is_byte(s, i + 3, 115)
        && is_byte(s, i + 4, 101)
}

/// A quoted string at `i`, which holds the opening quote.
pub open spec fn string_at(s: Seq<u8>, i: int) -> Outcome {
    match string_scan(s, i + 1, Seq::empty()) {
        None => Outcome::Incomplete,
        Some((raw, e)) => match text_of(raw) {
            Some(t) => Outcome::Done(Json::Str(t), e),
            None => Outcome::Malformed(i),
        },
    }
}

/// Where `o` ended at `q`: skips whitespace and expects the byte `b` there.
pub open spec fn close_at(s: Seq<u8>, o: Outcome, b: u8) -> Outcome {
    match o {
        Outcome::Done(v, q) => {
            let c = ws_end(s, q);
            if is_byte(s, c, b) {
                Outcome::Done(v, c + 1)
            } else {
                Outcome::Malformed(c)
            }
        },
        _ => o,
    }
}

/// The value at `i`. The rules are tried in order: null, booleans, float,
/// integer, string, array, object.
pub open spec fn value_at(s: Seq<u8>, i: int) -> Outcome
    decreases s.len() - i, 1nat,
{
    if i < 0 || i >= s.len() {
        Outcome::Malformed(i)
    } else if null_at(s, i) {
        Outcome::Done(Json::Null, i + 4)
    } else if true_at(s, i) {
        Outcome::Done(Json::Boolean(true), i + 4)
    } else if false_at(s, i) {
        Outcome::Done(Json::Boolean(false), i + 5)
    } else if float_end(s, i) is Some {
        let e = float_end(s, i)->0;
        match text_of(s.subrange(i, e)) {
            Some(t) => Outcome::Done(Json::Float(t), e),
            None => Outcome::Malformed(i),
        }
    } else if int_value(s, i) is Some {
        let (n, e) = int_value(s, i)->0;
        Outcome::Done(Json::Int(n), e)
    } else if s[i] == QUOTE {
        string_at(s, i)
    } else if s[i] == LBRACKET {
        let p = ws_end(s, i + 1);
        if i < p <= s.len() {
            close_at(s, items_at(s, p, p, Seq::empty()), RBRACKET)
        } else {
            Outcome::Malformed(i)
        }
    } else if s[i] == LBRACE {
        object_at(s, i)
    } else {
        Outcome::Malformed(i)
    }
}

/// The braced object at `i`, which holds `{`.
pub open spec fn object_at(s: Seq<u8>, i: int) -> Outcome
    decreases s.len() - i, 0nat,
{
    let p = ws_end(s, i + 1);
    if 0 <= i < p <= s.len() {
        close_at(s, pairs_at(s, p, p, Seq::empty()), RBRACE)
    } else {
        Outcome::Malformed(i)
    }
}

/// The array elements from `p`, after the elements `acc` whose last one ended
/// at `q`. The list ends where no value starts at `p`, or where no separator
/// follows a value; it gives `Array` and the end of its last element. Positions
/// only move forward, which the guards record.
pub open spec fn items_at(s: Seq<u8>, q: int, p: int, acc: Seq<Json>) -> Outcome
    decreases s.len() - p, 2nat,
{
    if !(0 <= q <= p <= s.len()) {
        Outcome::Malformed(p)
    } else {
        match value_at(s, p) {
            Outcome::Done(v, e) => if p < e <= s.len() {
                match sep_end(s, e) {
                    Some(next) => if e < next <= s.len() {
                        items_at(s, e, next, acc.push(v))
                    } else {
                        Outcome::Malformed(e)
                    },
                    None => Outcome::Done(Json::Array(acc.push(v)), e),
                }
            } else {
                Outcome::Malformed(p)
            },
            Outcome::Malformed(x) => if x == p {
                Outcome::Done(Json::Array(acc), q)
            } else {
                Outcome::Malformed(x)
            },
            Outcome::Incomplete => Outcome::Incomplete,
        }
    }
}

/// What follows a key that ended at `k`: a braced object, or `:` or `=` and a value.
pub open spec fn pair_value_at(s: Seq<u8>, k: int) -> Outcome
    decreases s.len() - k, 1nat,
{
    let w = ws_end(s, k);
    if !(0 <= k <= w <= s.len()) {
        Outcome::Malformed(k)
    } else if is_byte(s, w, LBRACE) {
        object_at(s, w)
    } else if is_byte(s, w, COLON) || is_byte(s, w, EQUALS) {
        let p = ws_end(s, w + 1);
        if w < p <= s.len() {
            value_at(s, p)
        } else {
            Outcome::Malformed(w)
        }
    } else {
        Outcome::Malformed(w)
    }
}

/// The key/value pairs from `p`, after the entries `acc` (merged so far) of
/// pairs whose last one ended at `q`. A repeated key merges into its entry.
/// The list ends where no key starts at `p`, or where no separator follows a
/// pair; it gives `Object` and the end of its last pair.
pub open spec fn pairs_at(s: Seq<u8>, q: int, p: int, acc: Seq<(Seq<char>, Json)>) -> Outcome
    decreases s.len() - p, 2nat,
{
    if !(0 <= q <= p <= s.len()) {
        Outcome::Malformed(p)
    } else if !is_byte(s, p, QUOTE) {
        Outcome::Done(Json::Object(acc), q)
    } else {
        match string_scan(s, p + 1, Seq::empty()) {
            None => Outcome::Incomplete,
            Some((raw, k)) => match text_of(raw) {
                None => Outcome::Done(Json::Object(acc), q),
                Some(key) => if p < k <= s.len() {
                    match pair_value_at(s, k) {
                        Outcome::Done(v, e) => if k < e <= s.len() {
                            let acc2 = insert_merged(acc, key, v);
                            match sep_end(s, e) {
                                Some(next) => if e < next <= s.len() {
                                    pairs_at(s, e, next, acc2)
                                } else {
                                    Outcome::Malformed(e)
                                },
                                None => Outcome::Done(Json::Object(acc2), e),
                            }
                        } else {
                            Outcome::Malformed(k)
                        },
                        other => other,
                    }
                } else {
                    Outcome::Malformed(p)
                },
            },
        }
    }
}

/// The document: whitespace, then a braced object or a list of pairs without
/// braces, then whitespace. The position given is where that whitespace ends.
pub open spec fn root_at(s: Seq<u8>) -> Outcome {
    let w = ws_end(s, 0);
    let body = if is_byte(s, w, LBRACE) {
        object_at(s, w)
    } else {
        pairs_at(s, w, w, Seq::empty())
    };
    match body {
        Outcome::Done(v, e) => Outcome::Done(v, ws_end(s, e)),
        other => other,
    }
}

} // verus!
