use vstd::prelude::*;
use crate::grammar::{
    close_at, false_at, items_at, null_at, object_at, pair_value_at, pairs_at, root_at, string_at,
    true_at, value_at, Outcome,
};
use crate::lexer::{
    is_byte, lemma_ws_scan_forward, scan_float, scan_int, scan_string, skip_separator, skip_ws, utf8_text, ws_end, COLON,
    EQUALS, LBRACE, LBRACKET, QUOTE, RBRACE, RBRACKET,
};
use crate::value::{insert_entry, view_entries, view_items, Json, JsonValue};

verus! {

/// The result of a parsing step: a value and the position after it; a
/// mismatch at a position; or the input ending inside a token.
#[derive(Debug, PartialEq)]
pub enum Parsed {
    Done(JsonValue, usize),
    Malformed(usize),
    Incomplete,
}

impl Parsed {
    pub open spec fn view(&self) -> Outcome {
        match self {
            Parsed::Done(v, e) => Outcome::Done(v@, *e as int),
            Parsed::Malformed(x) => Outcome::Malformed(*x as int),
            Parsed::Incomplete => Outcome::Incomplete,
        }
    }
}

/// Why a document was refused.
#[derive(Debug, PartialEq, Eq)]
pub enum ParseError {
    /// No rule matches the input at this position.
    Malformed(usize),
    /// The input ends inside a token: more bytes may complete it.
    Incomplete,
    /// A document was read, but more than whitespace follows from this position.
    TrailingData(usize),
}

fn byte_is(s: &[u8], i: usize, b: u8) -> (r: bool)
    ensures
        r == is_byte(s@, i as int, b),
{
    i < s.len() && s[i] == b
}

fn close(s: &[u8], v: JsonValue, q: usize, b: u8) -> (r: Parsed)
    requires
        q <= s.len(),
    ensures
        r@ == close_at(s@, Outcome::Done(v@, q as int), b),
        r matches Parsed::Done(_, e) ==> q < e <= s.len(),
{
    let c = skip_ws(s, q);
    if byte_is(s, c, b) {
        Parsed::Done(v, c + 1)
    } else {
        Parsed::Malformed(c)
    }
}

fn copy_range(s: &[u8], i: usize, e: usize) -> (r: Vec<u8>)
    requires
        i <= e <= s.len(),
    ensures
        r@ == s@.subrange(i as int, e as int),
{
    let mut v: Vec<u8> = Vec::new();
    let mut k = i;
    while k < e
        invariant
            i <= k <= e <= s.len(),
            v@ == s@.subrange(i as int, k as int),
        decreases e - k,
    {
        v.push(s[k]);
        k = k + 1;
        assert(v@ =~= s@.subrange(i as int, k as int));
    }
    v
}

fn parse_string(s: &[u8], i: usize) -> (r: Parsed)
    requires
        i < s.len(),
    ensures
        r@ == string_at(s@, i as int),
        r matches Parsed::Done(_, e) ==> i < e <= s.len(),
{
    match scan_string(s, i + 1) {
        None => Parsed::Incomplete,
        Some((raw, e)) => match utf8_text(raw) {
            Some(t) => Parsed::Done(JsonValue::String(t), e),
            None => Parsed::Malformed(i),
        },
    }
}

/// Parses the value at `i`.
pub fn parse_value(s: &[u8], i: usize) -> (r: Parsed)
    requires
        i <= s.len(),
    ensures
        r@ == value_at(s@, i as int),
        r matches Parsed::Done(_, e) ==> i < e <= s.len(),
    decreases s.len() - i, 1nat,
{
    if i >= s.len() {
        return Parsed::Malformed(i);
    }
    let n = s.len() - i;
    if n >= 4 && s[i] == 110 && s[i + 1] == 117 && s[i + 2] == 108 && s[i + 3] == 108 {
        return Parsed::Done(JsonValue::Null, i + 4);
    }
    if n >= 4 && s[i] == 116 && s[i + 1] == 114 && s[i + 2] == 117 && s[i + 3] == 101 {
        return Parsed::Done(JsonValue::Boolean(true), i + 4);
    }
    if n >= 5 && s[i] == 102 && s[i + 1] == 97 && s[i + 2] == 108 && s[i + 3] == 115 && s[i + 4]
        == 101 {
        return Parsed::Done(JsonValue::Boolean(false), i + 5);
    }
    assert(!null_at(s@, i as int) && !true_at(s@, i as int) && !false_at(s@, i as int));
    if let Some(e) = scan_float(s, i) {
        let text = copy_range(s, i, e);
        return match utf8_text(text) {
            Some(t) => Parsed::Done(JsonValue::Float(t), e),
            None => Parsed::Malformed(i),
        };
    }
    if let Some((v, e)) = scan_int(s, i) {
        return Parsed::Done(JsonValue::Int(v), e);
    }
    proof {
        lemma_ws_scan_forward(s@, i + 1, false);
    }
    if s[i] == QUOTE {
        parse_string(s, i)
    } else if s[i] == LBRACKET {
        parse_array(s, i)
    } else if s[i] == LBRACE {
        parse_object(s, i)
    } else {
        Parsed::Malformed(i)
    }
}

/// Parses the array at `i`, which holds `[`.
fn parse_array(s: &[u8], i: usize) -> (r: Parsed)
    requires
        i < s.len(),
        s@[i as int] == LBRACKET,
    ensures
        r@ == close_at(s@, items_at(s@, ws_end(s@, i + 1), ws_end(s@, i + 1), Seq::empty()), RBRACKET),
        r matches Parsed::Done(_, e) ==> i < e <= s.len(),
    decreases s.len() - i, 0nat,
{
    let p0 = skip_ws(s, i + 1);
    let mut acc: Vec<JsonValue> = Vec::new();
    let mut q = p0;
    let mut p = p0;
    assert(view_items(acc@) =~= Seq::<Json>::empty());
    loop
        invariant
            i < p0 <= q <= p <= s.len(),
            p0 == ws_end(s@, i + 1),
            items_at(s@, q as int, p as int, view_items(acc@)) == items_at(
                s@,
                p0 as int,
                p0 as int,
                Seq::empty(),
            ),
        decreases s.len() - p,
    {
        let ghost old_acc = acc@;
        match parse_value(s, p) {
            Parsed::Done(v, e) => {
                let ghost vv = v@;
                acc.push(v);
                assert(acc@.drop_last() =~= old_acc);
                assert(view_items(acc@) == view_items(old_acc).push(vv));
                match skip_separator(s, e) {
                    Some(next) => {
                        q = e;
                        p = next;
                    },
                    None => {
                        return close(s, JsonValue::Array(acc), e, RBRACKET);
                    },
                }
            },
            Parsed::Malformed(x) => {
                if x == p {
                    return close(s, JsonValue::Array(acc), q, RBRACKET);
                } else {
                    return Parsed::Malformed(x);
                }
            },
            Parsed::Incomplete => {
                return Parsed::Incomplete;
            },
        }
    }
}

/// Parses the braced object at `i`, which holds `{`.
fn parse_object(s: &[u8], i: usize) -> (r: Parsed)
    requires
        i < s.len(),
    ensures
        r@ == object_at(s@, i as int),
        r matches Parsed::Done(_, e) ==> i < e <= s.len(),
    decreases s.len() - i, 0nat,
{
    let p = skip_ws(s, i + 1);
    match parse_pairs(s, p) {
        Parsed::Done(v, q) => close(s, v, q, RBRACE),
        other => other,
    }
}

/// Parses the value of a pair whose key ended at `k`.
fn parse_pair_value(s: &[u8], k: usize) -> (r: Parsed)
    requires
        k <= s.len(),
    ensures
        r@ == pair_value_at(s@, k as int),
        r matches Parsed::Done(_, e) ==> k < e <= s.len(),
    decreases s.len() - k, 1nat,
{
    let w = skip_ws(s, k);
    if byte_is(s, w, LBRACE) {
        parse_object(s, w)
    } else if byte_is(s, w, COLON) || byte_is(s, w, EQUALS) {
        let p = skip_ws(s, w + 1);
        parse_value(s, p)
    } else {
        Parsed::Malformed(w)
    }
}

/// Parses the key/value pairs from `p0`, merging repeated keys. Gives an
/// `Object` and the end of its last pair.
pub fn parse_pairs(s: &[u8], p0: usize) -> (r: Parsed)
    requires
        p0 <= s.len(),
    ensures
        r@ == pairs_at(s@, p0 as int, p0 as int, Seq::empty()),
        r matches Parsed::Done(_, e) ==> p0 <= e <= s.len(),
    decreases s.len() - p0, 2nat,
{
    let mut acc: Vec<(String, JsonValue)> = Vec::new();
    let mut q = p0;
    let mut p = p0;
    assert(view_entries(acc@) =~= Seq::<(Seq<char>, Json)>::empty());
    loop
        invariant
            p0 <= q <= p <= s.len(),
            pairs_at(s@, q as int, p as int, view_entries(acc@)) == pairs_at(
                s@,
                p0 as int,
                p0 as int,
                Seq::empty(),
            ),
        decreases s.len() - p,
    {
        if !byte_is(s, p, QUOTE) {
            return Parsed::Done(JsonValue::Object(acc), q);
        }
        let (raw, k) = match scan_string(s, p + 1) {
            None => {
                return Parsed::Incomplete;
            },
            Some(found) => found,
        };
        let key = match utf8_text(raw) {
            None => {
                return Parsed::Done(JsonValue::Object(acc), q);
            },
            Some(t) => t,
        };
        match parse_pair_value(s, k) {
            Parsed::Done(v, e) => {
                insert_entry(&mut acc, key, v);
                match skip_separator(s, e) {
                    Some(next) => {
                        q = e;
                        p = next;
                    },
                    None => {
                        return Parsed::Done(JsonValue::Object(acc), e);
                    },
                }
            },
            other => {
                return other;
            },
        }
    }
}


/// Parses the value at the start of `input`.
pub fn json_value(input: &[u8]) -> (r: Parsed)
    ensures
        r@ == value_at(input@, 0),
{
    parse_value(input, 0)
}

/// Parses a document: whitespace, a braced object or pairs without braces,
/// whitespace. The position given is where that whitespace ends.
pub fn json_value_root(input: &[u8]) -> (r: Parsed)
    ensures
        r@ == root_at(input@),
        r matches Parsed::Done(_, e) ==> e <= input.len(),
{
    let w = skip_ws(input, 0);
    let body = if byte_is(input, w, LBRACE) {
        parse_object(input, w)
    } else {
        parse_pairs(input, w)
    };
    match body {
        Parsed::Done(v, e) => Parsed::Done(v, skip_ws(input, e)),
        other => other,
    }
}

/// Parses a whole document, which must take up all of `input`.
pub fn parse(input: &[u8]) -> (r: Result<JsonValue, ParseError>)
    ensures
        r matches Ok(v) ==> root_at(input@) == Outcome::Done(v@, input.len() as int),
        r matches Err(ParseError::TrailingData(e)) ==> root_at(input@) matches Outcome::Done(
            _,
            x,
        ) && x == e && e < input.len(),
        r matches Err(ParseError::Malformed(x)) ==> root_at(input@) == Outcome::Malformed(x as int),
        r matches Err(ParseError::Incomplete) ==> root_at(input@) == Outcome::Incomplete,
{
    match json_value_root(input) {
        Parsed::Done(v, e) => if e == input.len() {
            Ok(v)
        } else {
            Err(ParseError::TrailingData(e))
        },
        Parsed::Malformed(x) => Err(ParseError::Malformed(x)),
        Parsed::Incomplete => Err(ParseError::Incomplete),
    }
}

} // verus!
