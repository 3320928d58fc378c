//! JSON values.

use crate::float::Float;
use crate::text;
use serde_json::Value;
use vstd::prelude::*;

verus! {

/// A JSON number: an unsigned or a negative integer, or the bits of a binary64
/// number.
#[derive(Clone, Copy, Debug, PartialEq, Eq, Structural)]
pub enum Number {
    Unsigned(u64),
    Negative(i64),
    Binary(u64),
}

#[derive(Debug, PartialEq, Eq)]
pub enum Json {
    Null,
    Bool(bool),
    Number(Number),
    Text(String),
    List(Vec<Json>),
    Object(Vec<(String, Json)>),
}

/// What a JSON value says. The fields of an object have no order.
pub enum Tree {
    Null,
    Bool(bool),
    Number(Number),
    Text(Seq<char>),
    List(Seq<Tree>),
    Object(Map<Seq<char>, Tree>),
}

/// An object of the fields of a list; of two with one name the later counts.
pub open spec fn fields(s: Seq<(Seq<char>, Tree)>) -> Map<Seq<char>, Tree>
    decreases s.len(),
{
    if s.len() == 0 {
        Map::empty()
    } else {
        fields(s.drop_last()).insert(s.last().0, s.last().1)
    }
}

pub open spec fn object(s: Seq<(Seq<char>, Tree)>) -> Tree {
    Tree::Object(fields(s))
}

pub open spec fn value_of(j: Json) -> Tree
    decreases j,
{
    match j {
        Json::Null => Tree::Null,
        Json::Bool(b) => Tree::Bool(b),
        Json::Number(n) => Tree::Number(n),
        Json::Text(s) => Tree::Text(s@),
        Json::List(v) => Tree::List(values_of(v@)),
        Json::Object(v) => object(pairs_of(v@)),
    }
}

pub open spec fn values_of(s: Seq<Json>) -> Seq<Tree>
    decreases s,
{
    if s.len() == 0 {
        Seq::empty()
    } else {
        values_of(s.drop_last()).push(value_of(s.last()))
    }
}

pub open spec fn pairs_of(s: Seq<(String, Json)>) -> Seq<(Seq<char>, Tree)>
    decreases s,
{
    if s.len() == 0 {
        Seq::empty()
    } else {
        pairs_of(s.drop_last()).push((s.last().0@, value_of(s.last().1)))
    }
}

/// The fields of a list, seen.
pub open spec fn seen(v: Seq<(String, Json)>) -> Seq<(Seq<char>, Tree)> {
    v.map_values(|f: (String, Json)| (f.0@, value_of(f.1)))
}

/// The values of a list, seen.
pub open spec fn values(v: Seq<Json>) -> Seq<Tree> {
    v.map_values(|j: Json| value_of(j))
}

impl View for Json {
    type V = Tree;

    open spec fn view(&self) -> Tree {
        value_of(*self)
    }
}

proof fn lemma_pairs(s: Seq<(String, Json)>)
    ensures
        pairs_of(s) == seen(s),
    decreases s.len(),
{
    if s.len() > 0 {
        lemma_pairs(s.drop_last());
        assert(seen(s) =~= seen(s.drop_last()).push((s.last().0@, value_of(s.last().1))));
    } else {
        assert(seen(s) =~= Seq::empty());
    }
}

proof fn lemma_object(v: Vec<(String, Json)>)
    ensures
        value_of(Json::Object(v)) == object(seen(v@)),
{
    lemma_pairs(v@);
}

proof fn lemma_values(s: Seq<Json>)
    ensures
        values_of(s) == values(s),
    decreases s.len(),
{
    if s.len() > 0 {
        lemma_values(s.drop_last());
        assert(values(s) =~= values(s.drop_last()).push(value_of(s.last())));
    } else {
        assert(values(s) =~= Seq::empty());
    }
}

proof fn lemma_list(v: Vec<Json>)
    ensures
        value_of(Json::List(v)) == Tree::List(values(v@)),
{
    lemma_values(v@);
}

impl Clone for Json {
    fn clone(&self) -> (r: Json)
        ensures
            r@ == self@,
        decreases self,
    {
        match self {
            Json::Null => Json::Null,
            Json::Bool(b) => Json::Bool(*b),
            Json::Number(n) => Json::Number(*n),
            Json::Text(s) => Json::Text(s.clone()),
            Json::List(v) => {
                let mut out: Vec<Json> = Vec::new();
                let mut i: usize = 0;
                while i < v.len()
                    invariant
                        i <= v@.len(),
                        out@.len() == i,
                        *self == Json::List(*v),
                        forall|k: int|
                            0 <= k < i ==> value_of(#[trigger] out@[k]) == value_of(v@[k]),
                    decreases v@.len() - i,
                {
                    assert(decreases_to!(*self => self->List_0));
                    assert(decreases_to!(*v => v@));
                    assert(decreases_to!(v@ => v@[i as int]));
                    out.push(v[i].clone());
                    i += 1;
                }
                proof {
                    lemma_list(*v);
                    lemma_list(out);
                    assert(values(out@) =~= values(v@));
                }
                Json::List(out)
            },
            Json::Object(v) => {
                let mut out: Vec<(String, Json)> = Vec::new();
                let mut i: usize = 0;
                while i < v.len()
                    invariant
                        i <= v@.len(),
                        out@.len() == i,
                        *self == Json::Object(*v),
                        forall|k: int|
                            0 <= k < i ==> (#[trigger] out@[k]).0@ == v@[k].0@ && value_of(
                                out@[k].1,
                            ) == value_of(v@[k].1),
                    decreases v@.len() - i,
                {
                    assert(decreases_to!(*self => self->Object_0));
                    assert(decreases_to!(*v => v@));
                    assert(decreases_to!(v@ => v@[i as int]));
                    assert(decreases_to!(v@[i as int] => v@[i as int].1));
                    out.push((v[i].0.clone(), v[i].1.clone()));
                    i += 1;
                }
                proof {
                    lemma_object(*v);
                    lemma_object(out);
                    assert(seen(out@) =~= seen(v@));
                }
                Json::Object(out)
            },
        }
    }
}

pub open spec fn number(n: u64) -> Tree {
    Tree::Number(Number::Unsigned(n))
}

pub open spec fn maybe_number(n: Option<u32>) -> Tree {
    match n {
        Some(n) => number(n as u64),
        None => Tree::Null,
    }
}

pub open spec fn maybe_text(s: Option<Seq<char>>) -> Tree {
    match s {
        Some(s) => Tree::Text(s),
        None => Tree::Null,
    }
}

/// A list of texts.
pub open spec fn text_list(s: Seq<Seq<char>>) -> Tree {
    Tree::List(s.map_values(|t: Seq<char>| Tree::Text(t)))
}

pub fn string(s: &str) -> (r: Json)
    ensures
        r@ == Tree::Text(s@),
{
    Json::Text(s.to_string())
}

pub fn unsigned(n: u64) -> (r: Json)
    ensures
        r@ == number(n),
{
    Json::Number(Number::Unsigned(n))
}

/// A number of binary64, by its bits.
pub open spec fn float_number(bits: u64) -> Tree {
    Tree::Number(Number::Binary(bits))
}

pub fn binary(bits: u64) -> (r: Json)
    ensures
        r@ == float_number(bits),
{
    Json::Number(Number::Binary(bits))
}

pub fn maybe_unsigned(n: Option<u32>) -> (r: Json)
    ensures
        r@ == maybe_number(n),
{
    match n {
        Some(n) => unsigned(n as u64),
        None => Json::Null,
    }
}

pub fn maybe_string(s: &Option<String>) -> (r: Json)
    ensures
        r@ == maybe_text(
            match *s {
                Some(t) => Some(t@),
                None => None,
            },
        ),
{
    match s {
        Some(s) => string(s.as_str()),
        None => Json::Null,
    }
}

pub fn array(v: Vec<Json>) -> (r: Json)
    ensures
        r@ == Tree::List(values(v@)),
{
    proof {
        lemma_list(v);
    }
    Json::List(v)
}

pub fn strings(v: &Vec<String>) -> (r: Json)
    ensures
        r@ == text_list(text::string_texts(v@)),
{
    let mut out: Vec<Json> = Vec::new();
    let mut i: usize = 0;
    while i < v.len()
        invariant
            i <= v.len(),
            out@.len() == i,
            forall|k: int| 0 <= k < i ==> (#[trigger] out@[k])@ == Tree::Text(v@[k]@),
        decreases v.len() - i,
    {
        out.push(string(v[i].as_str()));
        i += 1;
    }
    assert(values(out@) =~= text::string_texts(v@).map_values(|t: Seq<char>| Tree::Text(t)));
    array(out)
}

/// How the elements of a list look as JSON.
pub trait Shape<T> {
    spec fn tree(&self, x: T) -> Tree;

    fn shape(&self, x: &T) -> (r: Json)
        ensures
            r@ == self.tree(*x),
    ;
}

/// A list, each element in its shape.
pub fn shaped<T, S: Shape<T>>(v: &Vec<T>, s: &S) -> (r: Json)
    ensures
        r@ == Tree::List(v@.map_values(|x: T| s.tree(x))),
{
    let mut out: Vec<Json> = Vec::new();
    let n = v.len();
    let mut i: usize = 0;
    while i < n
        invariant
            i <= n == v@.len(),
            out@.len() == i,
            forall|k: int| 0 <= k < i ==> (#[trigger] out@[k])@ == s.tree(v@[k]),
        decreases n - i,
    {
        out.push(s.shape(&v[i]));
        i += 1;
    }
    assert(values(out@) =~= v@.map_values(|x: T| s.tree(x)));
    array(out)
}

/// A number of binary64 where it is finite, else nothing.
pub open spec fn finite_number(f: Float) -> Tree {
    if f.is_finite() {
        float_number(f.bits)
    } else {
        Tree::Null
    }
}

pub fn float(f: Float) -> (r: Json)
    ensures
        r@ == finite_number(f),
{
    if f.finite() {
        binary(f.bits)
    } else {
        Json::Null
    }
}

/// An object under construction.
pub struct Fields {
    pub list: Vec<(String, Json)>,
}

impl View for Fields {
    type V = Seq<(Seq<char>, Tree)>;

    open spec fn view(&self) -> Seq<(Seq<char>, Tree)> {
        seen(self.list@)
    }
}

impl Fields {
    pub fn new() -> (r: Fields)
        ensures
            r@ == Seq::<(Seq<char>, Tree)>::empty(),
    {
        let r = Fields { list: Vec::new() };
        assert(r@ =~= Seq::empty());
        r
    }

    pub fn put(&mut self, name: &str, value: Json)
        ensures
            final(self)@ == old(self)@.push((name@, value@)),
    {
        let ghost before = self@;
        self.list.push((name.to_string(), value));
        assert(self@ =~= before.push((name@, value@)));
    }

    pub fn finish(self) -> (r: Json)
        ensures
            r@ == object(self@),
    {
        proof {
            lemma_object(self.list);
        }
        Json::Object(self.list)
    }
}

// --- taking values apart ----------------------------------------------------------

/// The field of a name, where the value is an object that has one.
pub open spec fn field(v: Tree, name: Seq<char>) -> Option<Tree> {
    match v {
        Tree::Object(m) => if m.contains_key(name) {
            Some(m[name])
        } else {
            None
        },
        _ => None,
    }
}

/// The value as an unsigned integer, where it is one.
pub open spec fn as_unsigned(v: Tree) -> Option<u64> {
    match v {
        Tree::Number(Number::Unsigned(n)) => Some(n),
        _ => None,
    }
}

/// A field that no later one of its name hides is found.
pub proof fn lemma_field_at(s: Seq<(Seq<char>, Tree)>, i: int)
    requires
        0 <= i < s.len(),
        forall|k: int| i < k < s.len() ==> (#[trigger] s[k]).0 != s[i].0,
    ensures
        fields(s).contains_key(s[i].0),
        fields(s)[s[i].0] == s[i].1,
    decreases s.len(),
{
    if i < s.len() - 1 {
        let t = s.drop_last();
        assert(s[s.len() - 1].0 != s[i].0);
        assert forall|k: int| i < k < t.len() implies (#[trigger] t[k]).0 != t[i].0 by {
            assert(s[k].0 != s[i].0);
        }
        lemma_field_at(t, i);
    }
}

proof fn lemma_field_absent(s: Seq<(Seq<char>, Tree)>, name: Seq<char>)
    requires
        forall|k: int| 0 <= k < s.len() ==> (#[trigger] s[k]).0 != name,
    ensures
        !fields(s).contains_key(name),
    decreases s.len(),
{
    if s.len() > 0 {
        let t = s.drop_last();
        assert(s[s.len() - 1].0 != name);
        assert forall|k: int| 0 <= k < t.len() implies (#[trigger] t[k]).0 != name by {
            assert(s[k].0 != name);
        }
        lemma_field_absent(t, name);
    }
}

fn place(v: &Vec<(String, Json)>, name: &str) -> (r: Option<usize>)
    ensures
        match r {
            Some(i) => i < v@.len() && fields(seen(v@)).contains_key(name@) && fields(
                seen(v@),
            )[name@] == value_of(v@[i as int].1),
            None => !fields(seen(v@)).contains_key(name@),
        },
{
    let ghost s = seen(v@);
    let mut i: usize = v.len();
    while i > 0
        invariant
            i <= v.len(),
            s == seen(v@),
            forall|k: int| i <= k < s.len() ==> (#[trigger] s[k]).0 != name@,
        decreases i,
    {
        i -= 1;
        assert(s[i as int] == (v@[i as int].0@, value_of(v@[i as int].1)));
        if text::same_str(v[i].0.as_str(), name) {
            proof {
                lemma_field_at(s, i as int);
            }
            return Some(i);
        }
    }
    proof {
        lemma_field_absent(s, name@);
    }
    None
}

impl Json {
    pub fn get(&self, name: &str) -> (r: Option<&Json>)
        ensures
            match r {
                Some(j) => field(self@, name@) == Some(j@),
                None => field(self@, name@) is None,
            },
    {
        match self {
            Json::Object(v) => {
                proof {
                    lemma_object(*v);
                }
                match place(v, name) {
                    Some(i) => Some(&v[i].1),
                    None => None,
                }
            },
            _ => None,
        }
    }

    /// The field of a name, taken out of the object.
    pub fn take(self, name: &str) -> (r: Option<Json>)
        ensures
            match r {
                Some(j) => field(self@, name@) == Some(j@),
                None => field(self@, name@) is None,
            },
    {
        match self {
            Json::Object(v) => {
                proof {
                    lemma_object(v);
                }
                match place(&v, name) {
                    Some(i) => {
                        let mut v = v;
                        let f = v.swap_remove(i);
                        Some(f.1)
                    },
                    None => None,
                }
            },
            _ => None,
        }
    }

    /// The object with a field set; anything else stays as it is.
    pub fn with(self, name: &str, value: Json) -> (r: Json)
        ensures
            r@ == with_field(self@, name@, value@),
    {
        match self {
            Json::Object(v) => {
                proof {
                    lemma_object(v);
                }
                let mut v = v;
                let ghost before = seen(v@);
                v.push((name.to_string(), value));
                proof {
                    lemma_object(v);
                    assert(seen(v@) =~= before.push((name@, value@)));
                    assert(before.push((name@, value@)).drop_last() =~= before);
                }
                Json::Object(v)
            },
            other => other,
        }
    }

    pub fn as_u64(&self) -> (r: Option<u64>)
        ensures
            r == as_unsigned(self@),
    {
        match self {
            Json::Number(Number::Unsigned(n)) => Some(*n),
            _ => None,
        }
    }

    /// The texts of a list; what is not a text is passed over.
    pub fn texts(&self) -> (r: Vec<String>)
        ensures
            text::string_texts(r@) == texts_of(self@),
    {
        let mut out: Vec<String> = Vec::new();
        assert(text::string_texts(out@) =~= Seq::empty());
        match self {
            Json::List(v) => {
                proof {
                    lemma_list(*v);
                }
                let ghost all = values(v@);
                let mut i: usize = 0;
                assert(all.take(0) =~= Seq::empty());
                while i < v.len()
                    invariant
                        i <= v.len(),
                        all == values(v@),
                        text::string_texts(out@) == list_texts(all.take(i as int)),
                    decreases v.len() - i,
                {
                    assert(all.take(i + 1).drop_last() =~= all.take(i as int));
                    assert(all.take(i + 1).last() == value_of(v@[i as int]));
                    let ghost before = text::string_texts(out@);
                    match &v[i] {
                        Json::Text(s) => {
                            out.push(s.clone());
                            assert(text::string_texts(out@) =~= before.push(s@));
                        },
                        _ => {},
                    }
                    i += 1;
                }
                assert(all.take(all.len() as int) =~= all);
            },
            _ => {},
        }
        out
    }
}

/// The value with a field set, where it is an object.
pub open spec fn with_field(v: Tree, name: Seq<char>, f: Tree) -> Tree {
    match v {
        Tree::Object(m) => Tree::Object(m.insert(name, f)),
        _ => v,
    }
}

pub open spec fn list_texts(s: Seq<Tree>) -> Seq<Seq<char>>
    decreases s.len(),
{
    if s.len() == 0 {
        Seq::empty()
    } else {
        let before = list_texts(s.drop_last());
        match s.last() {
            Tree::Text(t) => before.push(t),
            _ => before,
        }
    }
}

/// The texts that a value lists.
pub open spec fn texts_of(v: Tree) -> Seq<Seq<char>> {
    match v {
        Tree::List(s) => list_texts(s),
        _ => Seq::empty(),
    }
}

/// Fields behind others leave those of other names as they are.
pub proof fn lemma_fields_behind(s: Seq<(Seq<char>, Tree)>, t: Seq<(Seq<char>, Tree)>, name: Seq<char>)
    requires
        forall|j: int| 0 <= j < t.len() ==> (#[trigger] t[j]).0 != name,
    ensures
        fields(s + t).contains_key(name) == fields(s).contains_key(name),
        fields(s).contains_key(name) ==> fields(s + t)[name] == fields(s)[name],
    decreases t.len(),
{
    if t.len() > 0 {
        assert((s + t).drop_last() =~= s + t.drop_last());
        assert((s + t).last() == t.last());
        assert(t[t.len() - 1].0 != name);
        assert forall|j: int| 0 <= j < t.drop_last().len() implies (
        #[trigger] t.drop_last()[j]).0 != name by {
            assert(t[j].0 != name);
        }
        lemma_fields_behind(s, t.drop_last(), name);
    } else {
        assert(s + t =~= s);
    }
}

// --- reading ----------------------------------------------------------------------

/// What a text says when it is read as JSON, where it is JSON.
pub uninterp spec fn read_value(s: Seq<char>) -> Option<Tree>;

/// The value of `serde_json`, carried from its parser to `plain`.
#[verifier::external_type_specification]
#[verifier::external_body]
pub struct ExSerdeValue(serde_json::Value);

/// What a value of `serde_json` holds.
pub uninterp spec fn held(v: serde_json::Value) -> Tree;

/// Calls `serde_json::from_str`, which gives a value or an error. Which it is,
/// and what the value holds, depends on the text alone and goes by the name
/// `read_value`.
#[verifier::external_body]
fn from_str(s: &str) -> (r: Option<Value>)
    ensures
        match r {
            Some(v) => read_value(s@) == Some(held(v)),
            None => read_value(s@) is None,
        },
{
    serde_json::from_str(s).ok()
}

/// Turns a `serde_json::Value` into a value of this crate, one for one: each
/// variant into the variant of its name, a number into the kind it is stored
/// as. What it holds goes by the name `held`.
#[verifier::external_body]
fn plain(v: Value) -> (r: Json)
    ensures
        r@ == held(v),
{
    match v {
        Value::Null => Json::Null,
        Value::Bool(b) => Json::Bool(b),
        Value::Number(n) => Json::Number(match (n.as_u64(), n.as_i64()) {
            (Some(u), _) => Number::Unsigned(u),
            (_, Some(i)) => Number::Negative(i),
            _ => Number::Binary(n.as_f64().unwrap_or_default().to_bits()),
        }),
        Value::String(s) => Json::Text(s),
        Value::Array(l) => Json::List(l.into_iter().map(plain).collect()),
        Value::Object(m) => Json::Object(m.into_iter().map(|(k, v)| (k, plain(v))).collect()),
    }
}

/// Reads a text as JSON, where it is JSON.
pub(crate) fn parse(s: &str) -> (r: Option<Json>)
    ensures
        match r {
            Some(j) => read_value(s@) == Some(j@),
            None => read_value(s@) is None,
        },
{
    match from_str(s) {
        Some(v) => Some(plain(v)),
        None => None,
    }
}

} // verus!
