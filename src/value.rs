use vstd::prelude::*;

verus! {

broadcast use {
    vstd::std_specs::vec::axiom_vec_index_decreases,
    vstd::std_specs::vec::axiom_vec_decreases_to_view,
    vstd::seq::axiom_seq_subrange_decreases,
    vstd::seq::axiom_seq_index_decreases,
};

/// The mathematical value of a parsed document.
pub enum Json {
    Null,
    Boolean(bool),
    Int(int),
    /// The literal text of a floating-point number.
    Float(Seq<char>),
    Str(Seq<char>),
    Array(Seq<Json>),
    /// Entries in the order in which their keys first appeared.
    Object(Seq<(Seq<char>, Json)>),
}

/// A parsed value. Object entries keep the order in which their keys first
/// appeared, and no key occurs twice.
#[derive(Debug, PartialEq)]
pub enum JsonValue {
    Null,
    Boolean(bool),
    Int(i64),
    /// The literal text of a floating-point number, as written in the input.
    Float(String),
    String(String),
    Array(Vec<JsonValue>),
    Object(Vec<(String, JsonValue)>),
}

impl JsonValue {
    /// The mathematical value that this one stands for.
    pub open spec fn view(&self) -> Json
        decreases self,
    {
        match self {
            JsonValue::Null => Json::Null,
            JsonValue::Boolean(b) => Json::Boolean(*b),
            JsonValue::Int(i) => Json::Int(*i as int),
            JsonValue::Float(s) => Json::Float(s@),
            JsonValue::String(s) => Json::Str(s@),
            JsonValue::Array(v) => Json::Array(view_items(v@)),
            JsonValue::Object(v) => Json::Object(view_entries(v@)),
        }
    }
}

/// The values of the array items, in order.
pub open spec fn view_items(s: Seq<JsonValue>) -> Seq<Json>
    decreases s,
{
    if s.len() == 0 {
        Seq::empty()
    } else {
        view_items(s.drop_last()).push(s.last().view())
    }
}

/// The keys and values of the object entries, in order.
pub open spec fn view_entries(s: Seq<(String, JsonValue)>) -> Seq<(Seq<char>, Json)>
    decreases s,
{
    if s.len() == 0 {
        Seq::empty()
    } else {
        view_entries(s.drop_last()).push((s.last().0@, s.last().1.view()))
    }
}


pub proof fn lemma_view_entries(s: Seq<(String, JsonValue)>)
    ensures
        view_entries(s).len() == s.len(),
        forall|i: int|
            0 <= i < s.len() ==> #[trigger] view_entries(s)[i] == (s[i].0@, s[i].1@),
    decreases s.len(),
{
    if s.len() > 0 {
        lemma_view_entries(s.drop_last());
    }
}

/// The index of the last entry with key `k`, or -1 where there is none.
pub open spec fn key_index(es: Seq<(Seq<char>, Json)>, k: Seq<char>) -> int
    decreases es.len(),
{
    if es.len() == 0 {
        -1
    } else if es.last().0 == k {
        es.len() - 1
    } else {
        key_index(es.drop_last(), k)
    }
}

/// Adds the entry `(k, v)`: merged into the entry of key `k` where there is one,
/// appended otherwise.
pub open spec fn insert_merged(es: Seq<(Seq<char>, Json)>, k: Seq<char>, v: Json) -> Seq<
    (Seq<char>, Json),
>
    decreases v, 1nat,
{
    let i = key_index(es, k);
    if 0 <= i < es.len() {
        es.update(i, (k, merge(es[i].1, v)))
    } else {
        es.push((k, v))
    }
}

/// Adds the entries of `b`, in order, to `a`.
pub open spec fn merge_entries(a: Seq<(Seq<char>, Json)>, b: Seq<(Seq<char>, Json)>) -> Seq<
    (Seq<char>, Json),
>
    decreases b, 0nat,
{
    if b.len() == 0 {
        a
    } else {
        insert_merged(merge_entries(a, b.drop_last()), b.last().0, b.last().1)
    }
}

/// Two objects merge key by key; in every other case the later value wins.
pub open spec fn merge(old: Json, new: Json) -> Json
    decreases new, 0nat,
{
    match (old, new) {
        (Json::Object(a), Json::Object(b)) => Json::Object(merge_entries(a, b)),
        _ => new,
    }
}

/// Adds `(k, v)` to the entries `a`, merging `v` into the value already held
/// under `k`, if any.
pub fn insert_entry(a: &mut Vec<(String, JsonValue)>, k: String, v: JsonValue)
    ensures
        view_entries(final(a)@) == insert_merged(view_entries(old(a)@), k@, v@),
    decreases v, 1nat,
{
    let ghost es = view_entries(a@);
    proof {
        lemma_view_entries(a@);
    }
    let mut i: usize = a.len();
    assert(es.take(i as int) =~= es);
    while i > 0
        invariant
            i <= a.len(),
            a@ == old(a)@,
            es == view_entries(a@),
            es.len() == a.len(),
            key_index(es, k@) == key_index(es.take(i as int), k@),
        ensures
            i > 0 ==> key_index(es, k@) == i - 1 && a@[i - 1].0@ == k@,
            i == 0 ==> key_index(es, k@) == -1,
        decreases i,
    {
        assert(es.take(i as int).drop_last() =~= es.take(i - 1));
        assert(es.take(i as int).last() == es[i - 1]);
        proof {
            lemma_view_entries(a@);
        }
        assert(es[i - 1] == (a@[i - 1].0@, a@[i - 1].1@));
        if a[i - 1].0 == k {
            break;
        }
        i = i - 1;
    }
    if i > 0 {
        let idx = i - 1;
        let (ok, ov) = a.remove(idx);
        let nv = merge_json(ov, v);
        a.insert(idx, (ok, nv));
        proof {
            lemma_view_entries(a@);
            assert(view_entries(a@) =~= es.update(idx as int, (k@, merge(es[idx as int].1, v@))));
        }
    } else {
        assert(es.take(0) =~= Seq::<(Seq<char>, Json)>::empty());
        a.push((k, v));
        proof {
            lemma_view_entries(a@);
            assert(view_entries(a@) =~= es.push((k@, v@)));
        }
    }
}

/// Adds the entries of `b`, in order, to `a`, merging values of equal keys.
pub fn merge_all(a: &mut Vec<(String, JsonValue)>, b: Vec<(String, JsonValue)>)
    ensures
        view_entries(final(a)@) == merge_entries(view_entries(old(a)@), view_entries(b@)),
    decreases b@, 0nat,
{
    let mut b = b;
    let ghost b0 = b@;
    match b.pop() {
        None => {
            assert(b0.len() == 0);
        },
        Some(last) => {
            proof {
                assert(b@ =~= b0.drop_last());
                assert(decreases_to!(b0 => b@));
                assert(decreases_to!(b0 => b0[b0.len() - 1]));
                assert(decreases_to!(b0[b0.len() - 1] => last.1));
                lemma_view_entries(b0);
                assert(view_entries(b0).drop_last() =~= view_entries(b@));
            }
            merge_all(a, b);
            let (k, v) = last;
            insert_entry(a, k, v);
        },
    }
}

/// Merges `new` into `old`: objects key by key, recursively; otherwise `new`.
pub fn merge_json(old: JsonValue, new: JsonValue) -> (r: JsonValue)
    ensures
        r@ == merge(old@, new@),
    decreases new, 0nat,
{
    let ghost new0 = new;
    match old {
        JsonValue::Object(mut a) => match new {
            JsonValue::Object(b) => {
                proof {
                    assert(decreases_to!(new0 => new0->Object_0));
                    assert(decreases_to!(new0->Object_0 => new0->Object_0@));
                }
                merge_all(&mut a, b);
                JsonValue::Object(a)
            },
            other => other,
        },
        _ => new,
    }
}

} // verus!
