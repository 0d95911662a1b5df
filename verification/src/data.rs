//! Values that templates render: strings, booleans, null, numbers, lists and
//! records (maps from field names to values, ordered by name).
use vstd::prelude::*;
use crate::kv::{find_key, kv_find, kv_get, kv_view};
use crate::number::{number_text, number_text_exec, number_truthy, number_truthy_exec, Number, NumberM};
use crate::text::{chars_of, push_all, push_str, string_of};
pub use crate::kdl::parse_kdl;

verus! {

#[derive(Debug)]
pub enum Value {
    Str(String),
    Bool(bool),
    Null,
    Num(Number),
    Lst(Vec<Value>),
    Rec(Vec<(String, Value)>),
}

pub enum ValueM {
    Str(Seq<char>),
    Bool(bool),
    Null,
    Num(NumberM),
    Lst(Seq<ValueM>),
    Rec(Seq<(Seq<char>, ValueM)>),
}

pub open spec fn value_view(v: Value) -> ValueM
    decreases v,
{
    match v {
        Value::Str(s) => ValueM::Str(s@),
        Value::Bool(b) => ValueM::Bool(b),
        Value::Null => ValueM::Null,
        Value::Num(n) => ValueM::Num(n@),
        Value::Lst(l) => ValueM::Lst(values_view(l@)),
        Value::Rec(r) => ValueM::Rec(entries_view(r@)),
    }
}

pub open spec fn values_view(s: Seq<Value>) -> Seq<ValueM>
    decreases s,
{
    if s.len() == 0 {
        Seq::empty()
    } else {
        values_view(s.drop_last()).push(value_view(s.last()))
    }
}

pub open spec fn entries_view(s: Seq<(String, Value)>) -> Seq<(Seq<char>, ValueM)>
    decreases s,
{
    if s.len() == 0 {
        Seq::empty()
    } else {
        entries_view(s.drop_last()).push((s.last().0@, value_view(s.last().1)))
    }
}

impl View for Value {
    type V = ValueM;

    open spec fn view(&self) -> ValueM {
        value_view(*self)
    }
}

pub proof fn lemma_values_view(s: Seq<Value>)
    ensures
        values_view(s).len() == s.len(),
        forall|i: int|
            #![trigger values_view(s)[i]]
            #![trigger s[i]]
            0 <= i < s.len() ==> values_view(s)[i] == value_view(s[i]),
    decreases s.len(),
{
    if s.len() > 0 {
        lemma_values_view(s.drop_last());
        assert forall|i: int| 0 <= i < s.len() implies values_view(s)[i] == value_view(s[i]) by {
            if i < s.len() - 1 {
                assert(s.drop_last()[i] == s[i]);
            }
        }
    }
}

pub proof fn lemma_entries_view(s: Seq<(String, Value)>)
    ensures
        entries_view(s).len() == s.len(),
        forall|i: int|
            #![trigger entries_view(s)[i]]
            #![trigger s[i]]
            0 <= i < s.len() ==> entries_view(s)[i] == (s[i].0@, value_view(s[i].1)),
        entries_view(s) == kv_view(s),
    decreases s.len(),
{
    if s.len() > 0 {
        lemma_entries_view(s.drop_last());
        assert forall|i: int| 0 <= i < s.len() implies entries_view(s)[i] == (
            s[i].0@,
            value_view(s[i].1),
        ) by {
            if i < s.len() - 1 {
                assert(s.drop_last()[i] == s[i]);
            }
        }
    }
    assert(entries_view(s) =~= kv_view(s));
}

/// Whether a value counts as true in `<:if`.
pub open spec fn truthy_of(v: ValueM) -> bool {
    match v {
        ValueM::Str(s) => s.len() > 0,
        ValueM::Bool(b) => b,
        ValueM::Null => false,
        ValueM::Num(n) => number_truthy(n),
        ValueM::Lst(l) => l.len() > 0,
        ValueM::Rec(r) => r.len() > 0,
    }
}

/// A field of a record.
pub open spec fn field_of(v: ValueM, field: Seq<char>) -> Option<ValueM> {
    match v {
        ValueM::Rec(r) => kv_get(r, field),
        _ => None,
    }
}

pub open spec fn args_key() -> Seq<char> {
    "_args"@
}

/// The list that `[n]` indexes: a list, or the `_args` of a record.
pub open spec fn indexed_list(v: ValueM) -> Option<Seq<ValueM>> {
    match v {
        ValueM::Rec(r) => match kv_get(r, args_key()) {
            Some(ValueM::Lst(l)) => Some(l),
            _ => None,
        },
        ValueM::Lst(l) => Some(l),
        _ => None,
    }
}

/// `[n]`: the n-th item, counted from the end when negative.
pub open spec fn index_of(v: ValueM, n: int) -> Option<ValueM> {
    match indexed_list(v) {
        None => None,
        Some(l) => {
            let idx = if n < 0 {
                l.len() + n
            } else {
                n
            };
            if 0 <= idx < l.len() {
                Some(l[idx])
            } else {
                None
            }
        },
    }
}

pub open spec fn remove_key(r: Seq<(Seq<char>, ValueM)>, k: Seq<char>) -> Seq<(Seq<char>, ValueM)> {
    match find_key(r, k) {
        Some(i) => r.remove(i),
        None => r,
    }
}

/// A record's `_args` taken out: its only item, the list itself when it
/// holds several, or the record without it when it is empty.
pub open spec fn collapse_of(v: ValueM) -> ValueM {
    match v {
        ValueM::Rec(r) => {
            let rest = remove_key(r, args_key());
            match kv_get(r, args_key()) {
                Some(ValueM::Lst(args)) => if args.len() == 1 {
                    args[0]
                } else if args.len() > 1 {
                    ValueM::Lst(args)
                } else {
                    ValueM::Rec(rest)
                },
                _ => ValueM::Rec(rest),
            }
        },
        _ => v,
    }
}

/// `items.join(", ")` of already rendered items.
pub open spec fn join_comma(s: Seq<Seq<char>>) -> Seq<char>
    decreases s.len(),
{
    if s.len() == 0 {
        Seq::empty()
    } else if s.len() == 1 {
        s[0]
    } else {
        join_comma(s.drop_last()) + ", "@ + s.last()
    }
}

pub open spec fn bool_text(b: bool) -> Seq<char> {
    if b {
        "True"@
    } else {
        "False"@
    }
}

/// How a value is printed into a page.
pub open spec fn text_of(v: ValueM) -> Seq<char>
    decreases v,
{
    match v {
        ValueM::Str(s) => s,
        ValueM::Bool(b) => bool_text(b),
        ValueM::Null => Seq::empty(),
        ValueM::Num(n) => number_text(n),
        ValueM::Lst(items) => "["@ + join_comma(items_text(items)) + "]"@,
        ValueM::Rec(r) => "{"@ + join_comma(fields_text(r)) + "}"@,
    }
}

pub open spec fn items_text(items: Seq<ValueM>) -> Seq<Seq<char>>
    decreases items,
{
    if items.len() == 0 {
        Seq::empty()
    } else {
        items_text(items.drop_last()).push(text_of(items.last()))
    }
}

pub open spec fn fields_text(r: Seq<(Seq<char>, ValueM)>) -> Seq<Seq<char>>
    decreases r,
{
    if r.len() == 0 {
        Seq::empty()
    } else {
        fields_text(r.drop_last()).push("\""@ + r.last().0 + "\": "@ + text_of(r.last().1))
    }
}

/// A copy of a value.
#[verifier::loop_isolation(false)]
pub fn copy_value(v: &Value) -> (r: Value)
    ensures
        r@ == v@,
    decreases v,
{
    match v {
        Value::Str(s) => Value::Str(s.clone()),
        Value::Bool(b) => Value::Bool(*b),
        Value::Null => Value::Null,
        Value::Num(n) => Value::Num(n.clone()),
        Value::Lst(l) => {
            let mut out: Vec<Value> = Vec::new();
            let mut i: usize = 0;
            proof {
                lemma_values_view(l@);
            }
            while i < l.len()
                invariant
                    i <= l@.len(),
                    values_view(l@).len() == l@.len(),
                    forall|j: int| 0 <= j < l@.len() ==> values_view(l@)[j] == value_view(#[trigger] l@[j]),
                    values_view(out@) == values_view(l@).take(i as int),
                decreases l@.len() - i,
            {
                let c = copy_value(&l[i]);
                let ghost prev = out@;
                out.push(c);
                assert(out@.drop_last() == prev);
                assert(values_view(l@).take(i + 1) =~= values_view(l@).take(i as int).push(
                    values_view(l@)[i as int],
                ));
                i = i + 1;
            }
            assert(values_view(l@).take(i as int) =~= values_view(l@));
            Value::Lst(out)
        },
        Value::Rec(r) => {
            let mut out: Vec<(String, Value)> = Vec::new();
            let mut i: usize = 0;
            proof {
                lemma_entries_view(r@);
            }
            while i < r.len()
                invariant
                    i <= r@.len(),
                    entries_view(r@).len() == r@.len(),
                    forall|j: int|
                        0 <= j < r@.len() ==> entries_view(r@)[j] == (
                            (#[trigger] r@[j]).0@,
                            value_view(r@[j].1),
                        ),
                    entries_view(out@) == entries_view(r@).take(i as int),
                decreases r@.len() - i,
            {
                let c = copy_value(&r[i].1);
                let k = r[i].0.clone();
                let ghost prev = out@;
                out.push((k, c));
                assert(out@.drop_last() == prev);
                assert(entries_view(r@).take(i + 1) =~= entries_view(r@).take(i as int).push(
                    entries_view(r@)[i as int],
                ));
                i = i + 1;
            }
            assert(entries_view(r@).take(i as int) =~= entries_view(r@));
            Value::Rec(out)
        },
    }
}

impl Value {
    /// Whether the value counts as true.
    pub fn truthy(&self) -> (b: bool)
        ensures
            b == truthy_of(self@),
    {
        match self {
            Value::Str(s) => {
                let c = chars_of(s.as_str());
                c.len() > 0
            },
            Value::Bool(b) => *b,
            Value::Null => false,
            Value::Num(n) => number_truthy_exec(n),
            Value::Lst(l) => {
                proof {
                    lemma_values_view(l@);
                }
                l.len() > 0
            },
            Value::Rec(r) => {
                proof {
                    lemma_entries_view(r@);
                }
                r.len() > 0
            },
        }
    }

    /// A field of a record.
    pub fn get(&self, field: &str) -> (r: Option<Value>)
        ensures
            match r {
                Some(v) => field_of(self@, field@) == Some(v@),
                None => field_of(self@, field@) is None,
            },
    {
        match self {
            Value::Rec(r) => {
                proof {
                    lemma_entries_view(r@);
                }
                let fc = chars_of(field);
                match kv_find(r, &fc) {
                    Some(i) => {
                        assert(kv_view(r@)[i as int] == (r@[i as int].0@, value_view(r@[i as int].1)));
                        Some(copy_value(&r[i].1))
                    },
                    None => None,
                }
            },
            _ => None,
        }
    }

    /// The n-th item of a list (or of a record's `_args`), counted from the
    /// end when `n` is negative.
    pub fn index_num(&self, n: i64) -> (r: Option<Value>)
        ensures
            match r {
                Some(v) => index_of(self@, n as int) == Some(v@),
                None => index_of(self@, n as int) is None,
            },
    {
        let list: &Vec<Value> = match self {
            Value::Rec(r) => {
                proof {
                    lemma_entries_view(r@);
                }
                let key = chars_of("_args");
                match kv_find(r, &key) {
                    Some(i) => {
                        assert(kv_view(r@)[i as int] == (r@[i as int].0@, value_view(r@[i as int].1)));
                        match &r[i].1 {
                            Value::Lst(l) => l,
                            _ => {
                                return None;
                            },
                        }
                    },
                    None => {
                        return None;
                    },
                }
            },
            Value::Lst(l) => l,
            _ => {
                return None;
            },
        };
        proof {
            lemma_values_view(list@);
        }
        let len = list.len() as u64;
        let idx: u64 = if n < 0 {
            let abs: u64 = if n == i64::MIN {
                9223372036854775808u64
            } else {
                (0 - n) as u64
            };
            if abs > len {
                return None;
            }
            len - abs
        } else {
            n as u64
        };
        if idx < len {
            Some(copy_value(&list[idx as usize]))
        } else {
            None
        }
    }

    /// Takes out a record's `_args`.
    pub fn collapse_args(self) -> (r: Value)
        ensures
            r@ == collapse_of(self@),
    {
        match self {
            Value::Rec(r) => {
                proof {
                    lemma_entries_view(r@);
                }
                let mut r = r;
                let key = chars_of("_args");
                let ghost rv = kv_view(r@);
                match kv_find(&r, &key) {
                    Some(i) => {
                        let (_k, removed) = r.remove(i);
                        proof {
                            lemma_entries_view(r@);
                            assert(kv_view(r@) =~= rv.remove(i as int));
                        }
                        match removed {
                            Value::Lst(args) => {
                                proof {
                                    lemma_values_view(args@);
                                }
                                if args.len() == 1 {
                                    let mut args = args;
                                    args.pop().unwrap()
                                } else if args.len() > 1 {
                                    Value::Lst(args)
                                } else {
                                    Value::Rec(r)
                                }
                            },
                            _ => Value::Rec(r),
                        }
                    },
                    None => Value::Rec(r),
                }
            },
            other => other,
        }
    }
}

fn join_comma_exec(items: &Vec<Vec<char>>) -> (r: Vec<char>)
    ensures
        r@ == join_comma(items@.map_values(|v: Vec<char>| v@)),
{
    let ghost s = items@.map_values(|v: Vec<char>| v@);
    let mut out: Vec<char> = Vec::new();
    let mut k: usize = 0;
    while k < items.len()
        invariant
            k <= items@.len(),
            s == items@.map_values(|v: Vec<char>| v@),
            out@ == join_comma(s.take(k as int)),
        decreases items@.len() - k,
    {
        assert(s.take(k + 1).drop_last() =~= s.take(k as int));
        if k > 0 {
            push_str(&mut out, ", ");
        }
        push_all(&mut out, &items[k]);
        k = k + 1;
    }
    assert(s.take(k as int) =~= s);
    out
}

/// Renders a value as text.
#[verifier::loop_isolation(false)]
pub fn value_text(v: &Value) -> (r: Vec<char>)
    ensures
        r@ == text_of(v@),
    decreases v,
{
    match v {
        Value::Str(s) => chars_of(s.as_str()),
        Value::Bool(b) => {
            if *b {
                chars_of("True")
            } else {
                chars_of("False")
            }
        },
        Value::Null => Vec::new(),
        Value::Num(n) => number_text_exec(n),
        Value::Lst(l) => {
            proof {
                lemma_values_view(l@);
            }
            let mut parts: Vec<Vec<char>> = Vec::new();
            let mut i: usize = 0;
            while i < l.len()
                invariant
                    i <= l@.len(),
                    values_view(l@).len() == l@.len(),
                    forall|j: int| 0 <= j < l@.len() ==> values_view(l@)[j] == value_view(#[trigger] l@[j]),
                    parts@.map_values(|p: Vec<char>| p@) == items_text(values_view(l@).take(i as int)),
                decreases l@.len() - i,
            {
                let t = value_text(&l[i]);
                let ghost prev = parts@;
                parts.push(t);
                assert(values_view(l@).take(i + 1).drop_last() =~= values_view(l@).take(i as int));
                assert(parts@.map_values(|p: Vec<char>| p@) =~= prev.map_values(|p: Vec<char>| p@).push(t@));
                i = i + 1;
            }
            assert(values_view(l@).take(i as int) =~= values_view(l@));
            let mut out = chars_of("[");
            let j = join_comma_exec(&parts);
            push_all(&mut out, &j);
            push_str(&mut out, "]");
            out
        },
        Value::Rec(r) => {
            proof {
                lemma_entries_view(r@);
            }
            let mut parts: Vec<Vec<char>> = Vec::new();
            let mut i: usize = 0;
            while i < r.len()
                invariant
                    i <= r@.len(),
                    entries_view(r@).len() == r@.len(),
                    forall|j: int|
                        0 <= j < r@.len() ==> entries_view(r@)[j] == (
                            (#[trigger] r@[j]).0@,
                            value_view(r@[j].1),
                        ),
                    parts@.map_values(|p: Vec<char>| p@) == fields_text(entries_view(r@).take(i as int)),
                decreases r@.len() - i,
            {
                let t = value_text(&r[i].1);
                let mut f = chars_of("\"");
                push_str(&mut f, r[i].0.as_str());
                push_str(&mut f, "\": ");
                push_all(&mut f, &t);
                let ghost prev = parts@;
                parts.push(f);
                assert(entries_view(r@).take(i + 1).drop_last() =~= entries_view(r@).take(i as int));
                assert(parts@.map_values(|p: Vec<char>| p@) =~= prev.map_values(|p: Vec<char>| p@).push(f@));
                i = i + 1;
            }
            assert(entries_view(r@).take(i as int) =~= entries_view(r@));
            let mut out = chars_of("{");
            let j = join_comma_exec(&parts);
            push_all(&mut out, &j);
            push_str(&mut out, "}");
            out
        },
    }
}

impl Value {
    /// The text of a value, as printed into a page.
    pub fn to_text(&self) -> (s: String)
        ensures
            s@ == text_of(self@),
    {
        let v = value_text(self);
        string_of(&v)
    }
}

/// The text of a number: an integer without a decimal point, any other
/// number as written shortest.
pub fn format_number(n: &Number) -> (r: String)
    ensures
        r@ == number_text(n@),
{
    let t = number_text_exec(n);
    string_of(&t)
}

} // verus!
