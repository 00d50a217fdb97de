use vstd::prelude::*;
use vstd::string::*;

use crate::ast::{asts_view, lemma_asts_view, lemma_whens_view, whens_view, AstNode, BinOp, SAst, SWhen, WhenClause};
use crate::decimal::{
    dec_order, spec_decimal_add, spec_decimal_div, spec_decimal_mul, spec_decimal_parse,
    spec_decimal_sub, spec_decimal_text, spec_round_away, spec_to_i32, Dec, DecView,
};
use crate::text::{chars_equal_str, chars_of, concat2, concat3, owned, push_char, string_of_chars};
use crate::DsqlexError;

verus! {

// ── values ──

/// A value an expression evaluates to.
#[derive(Debug, Clone)]
pub enum Value {
    Decimal(Dec),
    String(String),
    Bool(bool),
    Null,
}

/// The mathematical model of a value.
pub enum SValue {
    Decimal(DecView),
    Str(Seq<char>),
    Bool(bool),
    Null,
}

impl View for Value {
    type V = SValue;

    open spec fn view(&self) -> SValue {
        match self {
            Value::Decimal(d) => SValue::Decimal(d@),
            Value::String(s) => SValue::Str(s@),
            Value::Bool(b) => SValue::Bool(*b),
            Value::Null => SValue::Null,
        }
    }
}

/// The text of a value: decimals as `Decimal` writes them, booleans as
/// `TRUE`/`FALSE`, null as `NULL`.
pub open spec fn value_text(v: SValue) -> Seq<char> {
    match v {
        SValue::Decimal(d) => spec_decimal_text(d),
        SValue::Str(s) => s,
        SValue::Bool(b) => if b {
            "TRUE"@
        } else {
            "FALSE"@
        },
        SValue::Null => "NULL"@,
    }
}

impl Value {
    /// A string value.
    pub fn string(s: &str) -> (r: Value)
        ensures
            r@ == SValue::Str(s@),
    {
        Value::String(owned(s))
    }

    /// The text of a string value; `None` for other values.
    pub fn as_str(&self) -> (r: Option<&str>)
        ensures
            match self@ {
                SValue::Str(s) => r matches Some(t) && t@ == s,
                _ => r is None,
            },
    {
        match self {
            Value::String(s) => Some(s.as_str()),
            _ => None,
        }
    }

    /// A copy of this value.
    pub fn duplicate(&self) -> (r: Value)
        ensures
            r@ == self@,
    {
        match self {
            Value::Decimal(d) => Value::Decimal(*d),
            Value::String(s) => Value::String(s.clone()),
            Value::Bool(b) => Value::Bool(*b),
            Value::Null => Value::Null,
        }
    }

    /// The value written out: decimals as `Decimal` writes them, booleans as
    /// `TRUE`/`FALSE`, null as `NULL`.
    pub fn to_display_string(&self) -> (r: String)
        ensures
            r@ == value_text(self@),
    {
        match self {
            Value::Decimal(d) => d.to_text(),
            Value::String(s) => s.clone(),
            Value::Bool(b) => if *b {
                owned("TRUE")
            } else {
                owned("FALSE")
            },
            Value::Null => owned("NULL"),
        }
    }
}

/// Structural equality of values, decimals compared by numeric value.
pub open spec fn same_value(a: SValue, b: SValue) -> bool {
    match (a, b) {
        (SValue::Decimal(x), SValue::Decimal(y)) => dec_order(x, y) == 0,
        (SValue::Str(x), SValue::Str(y)) => x == y,
        (SValue::Bool(x), SValue::Bool(y)) => x == y,
        (SValue::Null, SValue::Null) => true,
        _ => false,
    }
}

/// Two values are equal when they are of one kind and hold equal contents;
/// decimals are equal when their numeric values are.
impl PartialEq for Value {
    fn eq(&self, other: &Value) -> (r: bool) {
        match (self, other) {
            (Value::Decimal(x), Value::Decimal(y)) => {
                let b = x.eq(y);
                assert(b == (dec_order(x@, y@) == 0));
                b
            },
            (Value::String(x), Value::String(y)) => {
                let b = x.eq(y);
                assert(b == (x@ == y@));
                b
            },
            (Value::Bool(x), Value::Bool(y)) => *x == *y,
            (Value::Null, Value::Null) => true,
            _ => false,
        }
    }
}

impl vstd::std_specs::cmp::PartialEqSpecImpl for Value {
    open spec fn obeys_eq_spec() -> bool {
        true
    }

    open spec fn eq_spec(&self, other: &Value) -> bool {
        same_value(self@, other@)
    }
}

// ── contexts ──

/// Named values, and named nested contexts reached by dotted paths.
#[derive(Debug)]
pub struct Context {
    fields: Vec<(String, Value)>,
    nested: Vec<(String, Context)>,
}

/// The model of a context: its entries in order of first insertion. A name
/// stands for the first entry that carries it.
pub struct CtxView {
    pub fields: Seq<(Seq<char>, SValue)>,
    pub nested: Seq<(Seq<char>, CtxView)>,
}

pub closed spec fn ctx_view(c: Context) -> CtxView
    decreases c,
{
    CtxView { fields: fields_view(c.fields@), nested: nested_view(c.nested@) }
}

pub open spec fn fields_view(s: Seq<(String, Value)>) -> Seq<(Seq<char>, SValue)> {
    s.map_values(|p: (String, Value)| (p.0@, p.1@))
}

pub closed spec fn nested_view(s: Seq<(String, Context)>) -> Seq<(Seq<char>, CtxView)>
    decreases s,
{
    if s.len() == 0 {
        Seq::empty()
    } else {
        nested_view(s.drop_last()).push((s.last().0@, ctx_view(s.last().1)))
    }
}

impl View for Context {
    type V = CtxView;

    open spec fn view(&self) -> CtxView {
        ctx_view(*self)
    }
}

proof fn lemma_fields_view_push(s: Seq<(String, Value)>, e: (String, Value))
    ensures
        fields_view(s.push(e)) == fields_view(s).push((e.0@, e.1@)),
{
    assert(fields_view(s.push(e)) =~= fields_view(s).push((e.0@, e.1@)));
}

proof fn lemma_nested_view(s: Seq<(String, Context)>)
    ensures
        nested_view(s).len() == s.len(),
        forall|i: int|
            0 <= i < s.len() ==> #[trigger] nested_view(s)[i] == (s[i].0@, ctx_view(s[i].1)),
    decreases s.len(),
{
    if s.len() > 0 {
        lemma_nested_view(s.drop_last());
    }
}

proof fn lemma_nested_view_push(s: Seq<(String, Context)>, e: (String, Context))
    ensures
        nested_view(s.push(e)) == nested_view(s).push((e.0@, ctx_view(e.1))),
{
    assert(s.push(e).drop_last() =~= s);
}

proof fn lemma_nested_view_update(s: Seq<(String, Context)>, i: int, e: (String, Context))
    requires
        0 <= i < s.len(),
    ensures
        nested_view(s.update(i, e)) == nested_view(s).update(i, (e.0@, ctx_view(e.1))),
{
    lemma_nested_view(s);
    lemma_nested_view(s.update(i, e));
    assert(nested_view(s.update(i, e)) =~= nested_view(s).update(i, (e.0@, ctx_view(e.1))));
}

/// Index of the first entry named `k` at or after `i`.
pub open spec fn find_key<V>(s: Seq<(Seq<char>, V)>, k: Seq<char>, i: int) -> Option<int>
    decreases s.len() - i,
{
    if i < 0 || i >= s.len() {
        None
    } else if s[i].0 == k {
        Some(i)
    } else {
        find_key(s, k, i + 1)
    }
}

/// What the name `k` stands for among the entries `s`.
pub open spec fn lookup<V>(s: Seq<(Seq<char>, V)>, k: Seq<char>) -> Option<V> {
    match find_key(s, k, 0) {
        Some(i) => Some(s[i].1),
        None => None,
    }
}

/// The entries after giving `k` the meaning `v`: its first entry is
/// replaced, or a new entry is appended.
pub open spec fn assign<V>(s: Seq<(Seq<char>, V)>, k: Seq<char>, v: V) -> Seq<(Seq<char>, V)> {
    match find_key(s, k, 0) {
        Some(i) => s.update(i, (k, v)),
        None => s.push((k, v)),
    }
}

proof fn lemma_find_key_bounds<V>(s: Seq<(Seq<char>, V)>, k: Seq<char>, i: int)
    requires
        0 <= i,
    ensures
        find_key(s, k, i) matches Some(j) ==> i <= j < s.len() && s[j].0 == k && forall|m: int|
            i <= m < j ==> s[m].0 != k,
        find_key(s, k, i) is None ==> forall|m: int| i <= m < s.len() ==> s[m].0 != k,
    decreases s.len() - i,
{
    if i < s.len() && s[i].0 != k {
        lemma_find_key_bounds(s, k, i + 1);
    }
}

proof fn lemma_find_key_unique<V>(s: Seq<(Seq<char>, V)>, k: Seq<char>, i: int, j: int)
    requires
        0 <= i <= j < s.len(),
        s[j].0 == k,
        forall|m: int| i <= m < j ==> s[m].0 != k,
    ensures
        find_key(s, k, i) == Some(j),
    decreases j - i,
{
    if i < j {
        lemma_find_key_unique(s, k, i + 1, j);
    }
}

/// Looking a name up after an assignment gives the assigned meaning for
/// that name and the old meaning for every other name.
pub proof fn law_lookup_after_assign<V>(s: Seq<(Seq<char>, V)>, k: Seq<char>, v: V, k2: Seq<char>)
    ensures
        lookup(assign(s, k, v), k2) == if k2 == k {
            Some(v)
        } else {
            lookup(s, k2)
        },
{
    let t = assign(s, k, v);
    lemma_find_key_bounds(s, k, 0);
    lemma_find_key_bounds(s, k2, 0);
    lemma_find_key_bounds(t, k2, 0);
    match find_key(s, k, 0) {
        Some(i) => {
            if k2 == k {
                lemma_find_key_unique(t, k2, 0, i);
            } else {
                match find_key(s, k2, 0) {
                    Some(j) => {
                        lemma_find_key_unique(t, k2, 0, j);
                    },
                    None => {},
                }
            }
        },
        None => {
            if k2 == k {
                lemma_find_key_unique(t, k2, 0, s.len() as int);
            } else {
                match find_key(s, k2, 0) {
                    Some(j) => {
                        lemma_find_key_unique(t, k2, 0, j);
                    },
                    None => {},
                }
            }
        },
    }
}

impl Context {
    /// An empty context.
    pub fn new() -> (r: Context)
        ensures
            r@.fields == Seq::<(Seq<char>, SValue)>::empty(),
            r@.nested == Seq::<(Seq<char>, CtxView)>::empty(),
    {
        let r = Context { fields: Vec::new(), nested: Vec::new() };
        proof {
            assert(fields_view(r.fields@) =~= Seq::<(Seq<char>, SValue)>::empty());
            assert(nested_view(r.nested@) =~= Seq::<(Seq<char>, CtxView)>::empty());
        }
        r
    }

    /// The value named `name`, if any.
    pub fn get_field(&self, name: &str) -> (r: Option<&Value>)
        ensures
            match lookup(self@.fields, name@) {
                Some(v) => r matches Some(x) && x@ == v,
                None => r is None,
            },
    {
        let ghost fs = self@.fields;
        let wanted = owned(name);
        let mut i: usize = 0;
        while i < self.fields.len()
            invariant
                i <= self.fields.len(),
                fs == fields_view(self.fields@),
                fs == self@.fields,
                find_key(fs, name@, 0) == find_key(fs, name@, i as int),
                wanted@ == name@,
            decreases self.fields.len() - i,
        {
            if self.fields[i].0 == wanted {
                return Some(&self.fields[i].1);
            }
            i += 1;
        }
        None
    }

    /// The nested context named `name`, if any.
    pub fn get_nested(&self, name: &str) -> (r: Option<&Context>)
        ensures
            match lookup(self@.nested, name@) {
                Some(c) => r matches Some(x) && x@ == c,
                None => r is None,
            },
    {
        let ghost ns = self@.nested;
        proof {
            lemma_nested_view(self.nested@);
        }
        let wanted = owned(name);
        let mut i: usize = 0;
        while i < self.nested.len()
            invariant
                i <= self.nested.len(),
                ns == nested_view(self.nested@),
                ns == self@.nested,
                ns.len() == self.nested@.len(),
                forall|j: int|
                    0 <= j < self.nested@.len() ==> #[trigger] ns[j] == (
                        self.nested@[j].0@,
                        ctx_view(self.nested@[j].1),
                    ),
                find_key(ns, name@, 0) == find_key(ns, name@, i as int),
                wanted@ == name@,
            decreases self.nested.len() - i,
        {
            if self.nested[i].0 == wanted {
                return Some(&self.nested[i].1);
            }
            i += 1;
        }
        None
    }

    /// Gives `key` the value `val`, replacing any value it had.
    pub fn set(&mut self, key: &str, val: Value)
        ensures
            final(self)@.fields == assign(old(self)@.fields, key@, val@),
            final(self)@.nested == old(self)@.nested,
    {
        let ghost fs = self@.fields;
        let ghost vv = val@;
        let wanted = owned(key);
        let mut i: usize = 0;
        while i < self.fields.len()
            invariant
                i <= self.fields.len(),
                fs == fields_view(self.fields@),
                self@.fields == fs,
                self@.nested == old(self)@.nested,
                fs == old(self)@.fields,
                find_key(fs, key@, 0) == find_key(fs, key@, i as int),
                wanted@ == key@,
                vv == val@,
            decreases self.fields.len() - i,
        {
            if self.fields[i].0 == wanted {
                self.fields.set(i, (owned(key), val));
                proof {
                    assert(fields_view(self.fields@) =~= fs.update(i as int, (key@, vv)));
                }
                return;
            }
            i += 1;
        }
        self.fields.push((owned(key), val));
        proof {
            assert(fields_view(self.fields@) =~= fs.push((key@, vv)));
        }
    }

    /// Gives `key` the nested context `ctx`, replacing any it had.
    pub fn set_nested(&mut self, key: &str, ctx: Context)
        ensures
            final(self)@.nested == assign(old(self)@.nested, key@, ctx@),
            final(self)@.fields == old(self)@.fields,
    {
        let ghost ns = self@.nested;
        let ghost cv = ctx@;
        proof {
            lemma_nested_view(self.nested@);
        }
        let wanted = owned(key);
        let mut i: usize = 0;
        while i < self.nested.len()
            invariant
                i <= self.nested.len(),
                ns == nested_view(self.nested@),
                self@.nested == ns,
                self@.fields == old(self)@.fields,
                ns == old(self)@.nested,
                ns.len() == self.nested@.len(),
                forall|j: int|
                    0 <= j < self.nested@.len() ==> #[trigger] ns[j] == (
                        self.nested@[j].0@,
                        ctx_view(self.nested@[j].1),
                    ),
                find_key(ns, key@, 0) == find_key(ns, key@, i as int),
                wanted@ == key@,
                cv == ctx@,
            decreases self.nested.len() - i,
        {
            if self.nested[i].0 == wanted {
                let ghost before = self.nested@;
                self.nested.set(i, (owned(key), ctx));
                proof {
                    lemma_nested_view_update(before, i as int, self.nested@[i as int]);
                    assert(self.nested@ == before.update(i as int, self.nested@[i as int]));
                }
                return;
            }
            i += 1;
        }
        let ghost before = self.nested@;
        let e = (owned(key), ctx);
        self.nested.push(e);
        proof {
            lemma_nested_view_push(before, e);
        }
    }

    /// Gives `key` the decimal written in `val`.
    pub fn set_decimal(&mut self, key: &str, val: &str)
        requires
            spec_decimal_parse(val@) is Ok,
        ensures
            final(self)@.fields == assign(
                old(self)@.fields,
                key@,
                SValue::Decimal(spec_decimal_parse(val@)->Ok_0),
            ),
            final(self)@.nested == old(self)@.nested,
    {
        let d = Dec::parse(val).unwrap();
        self.set(key, Value::Decimal(d));
    }

    /// Gives `key` the decimal written in `val` if `val` is one, and tells
    /// whether it was; otherwise the context is unchanged.
    pub fn try_set_decimal(&mut self, key: &str, val: &str) -> (r: bool)
        ensures
            r == (spec_decimal_parse(val@) is Ok),
            r ==> final(self)@.fields == assign(
                old(self)@.fields,
                key@,
                SValue::Decimal(spec_decimal_parse(val@)->Ok_0),
            ),
            !r ==> final(self)@ == old(self)@,
            final(self)@.nested == old(self)@.nested,
    {
        match Dec::parse(val) {
            Some(_) => {
                self.set_decimal(key, val);
                true
            },
            None => false,
        }
    }

    /// Gives `key` the string `val`.
    pub fn set_string(&mut self, key: &str, val: &str)
        ensures
            final(self)@.fields == assign(old(self)@.fields, key@, SValue::Str(val@)),
            final(self)@.nested == old(self)@.nested,
    {
        self.set(key, Value::string(val));
    }

    /// Gives `key` the boolean `val`.
    pub fn set_bool(&mut self, key: &str, val: bool)
        ensures
            final(self)@.fields == assign(old(self)@.fields, key@, SValue::Bool(val)),
            final(self)@.nested == old(self)@.nested,
    {
        self.set(key, Value::Bool(val));
    }

    /// Gives `key` the value NULL.
    pub fn set_null(&mut self, key: &str)
        ensures
            final(self)@.fields == assign(old(self)@.fields, key@, SValue::Null),
            final(self)@.nested == old(self)@.nested,
    {
        self.set(key, Value::Null);
    }

    /// A copy of this context.
    pub fn duplicate(&self) -> (r: Context)
        ensures
            r@ == self@,
        decreases self,
    {
        let mut fields: Vec<(String, Value)> = Vec::new();
        let mut i: usize = 0;
        while i < self.fields.len()
            invariant
                i <= self.fields.len(),
                fields_view(fields@) == fields_view(self.fields@).take(i as int),
            decreases self.fields.len() - i,
        {
            let k = self.fields[i].0.clone();
            let v = self.fields[i].1.duplicate();
            assert(k@ == self.fields@[i as int].0@);
            let ghost before = fields@;
            fields.push((k, v));
            assert(fields@ == before.push((k, v)));
            proof {
                lemma_fields_view_push(before, (k, v));
                assert(fields_view(self.fields@)[i as int] == (k@, v@));
                assert(fields_view(fields@) =~= fields_view(self.fields@).take(i + 1));
            }
            i += 1;
        }
        let mut nested: Vec<(String, Context)> = Vec::new();
        let mut j: usize = 0;
        proof {
            lemma_nested_view(self.nested@);
            assert(nested_view(nested@) =~= nested_view(self.nested@).take(0));
        }
        while j < self.nested.len()
            invariant
                j <= self.nested.len(),
                nested_view(nested@) == nested_view(self.nested@).take(j as int),
                nested_view(self.nested@).len() == self.nested@.len(),
                forall|m: int|
                    0 <= m < self.nested@.len() ==> #[trigger] nested_view(self.nested@)[m] == (
                        self.nested@[m].0@,
                        ctx_view(self.nested@[m].1),
                    ),
            decreases self.nested.len() - j,
        {
            proof {
                assert(decreases_to!(self.nested => self.nested@));
                assert(decreases_to!(self.nested@ => self.nested@[j as int]));
                assert(decreases_to!(self.nested@[j as int] => self.nested@[j as int].1));
            }
            let sub = self.nested[j].1.duplicate();
            let e = (self.nested[j].0.clone(), sub);
            let ghost before = nested@;
            nested.push(e);
            proof {
                lemma_nested_view_push(before, e);
                assert(nested_view(nested@) =~= nested_view(self.nested@).take(j + 1));
            }
            j += 1;
        }
        let r = Context { fields, nested };
        proof {
            assert(fields_view(self.fields@).take(self.fields.len() as int) =~= fields_view(
                self.fields@,
            ));
            assert(nested_view(self.nested@).take(self.nested.len() as int) =~= nested_view(
                self.nested@,
            ));
        }
        r
    }
}


// ── outside text operations ──

/// What `str::to_uppercase` gives.
pub uninterp spec fn spec_to_upper(s: Seq<char>) -> Seq<char>;

/// What `str::to_lowercase` gives.
pub uninterp spec fn spec_to_lower(s: Seq<char>) -> Seq<char>;

/// What compiling a regular expression with `regex::Regex::new` and
/// searching a text with `is_match` gives: `None` when the expression does
/// not compile.
pub uninterp spec fn spec_regex_search(re: Seq<char>, text: Seq<char>) -> Option<bool>;

/// `str::to_uppercase`; the result is named.
#[verifier::external_body]
fn to_upper(s: &str) -> (r: String)
    ensures
        r@ == spec_to_upper(s@),
{
    s.to_uppercase()
}

/// `str::to_lowercase`; the result is named.
#[verifier::external_body]
fn to_lower(s: &str) -> (r: String)
    ensures
        r@ == spec_to_lower(s@),
{
    s.to_lowercase()
}

/// `regex::Regex::is_match` on the expression `re`, compiled with
/// `regex::Regex::new`: `None` when it does not compile. The result is
/// named, not described.
#[verifier::external_body]
fn regex_search(re: &str, text: &str) -> (r: Option<bool>)
    ensures
        r == spec_regex_search(re@, text@),
{
    match regex::Regex::new(re) {
        Ok(compiled) => Some(compiled.is_match(text)),
        Err(_) => None,
    }
}

// ── helpers, stated ──

/// Everything but NULL and FALSE counts as true.
pub open spec fn truthy(v: SValue) -> bool {
    !(v is Null || v == SValue::Bool(false))
}

/// A value as a decimal, or the error message.
pub open spec fn to_decimal(v: SValue) -> Result<DecView, Seq<char>> {
    match v {
        SValue::Decimal(d) => Ok(d),
        SValue::Str(s) => match spec_decimal_parse(s) {
            Ok(d) => Ok(d),
            Err(_) => Err("Cannot convert '"@ + s + "' to decimal"@),
        },
        SValue::Bool(_) => Err("Cannot convert boolean to decimal"@),
        SValue::Null => Err("Cannot convert NULL to decimal"@),
    }
}

/// Lexicographic order of two texts by character code: -1, 0 or 1.
pub open spec fn text_order(a: Seq<char>, b: Seq<char>) -> int
    decreases a.len(),
{
    if a.len() == 0 {
        if b.len() == 0 {
            0
        } else {
            -1
        }
    } else if b.len() == 0 {
        1
    } else if a[0] < b[0] {
        -1
    } else if a[0] > b[0] {
        1
    } else {
        text_order(a.drop_first(), b.drop_first())
    }
}

/// The order of two values: -1 (less), 0 (equal), 1 (greater), -2 (not
/// comparable). Decimals compare by value; strings that both read as
/// decimals compare as decimals, other strings by text; a string compares
/// with a decimal only if it reads as one; NULL equals only NULL; other
/// mixtures compare by their text.
pub open spec fn compare_values(l: SValue, r: SValue) -> int {
    match (l, r) {
        (SValue::Null, SValue::Null) => 0,
        (SValue::Null, _) => -2,
        (_, SValue::Null) => -2,
        (SValue::Decimal(a), SValue::Decimal(b)) => dec_order(a, b),
        (SValue::Str(a), SValue::Str(b)) => match (spec_decimal_parse(a), spec_decimal_parse(b)) {
            (Ok(da), Ok(db)) => dec_order(da, db),
            _ => text_order(a, b),
        },
        (SValue::Bool(a), SValue::Bool(b)) => if a == b {
            0
        } else if !a {
            -1
        } else {
            1
        },
        (SValue::Decimal(a), SValue::Str(s)) => match spec_decimal_parse(s) {
            Ok(d) => dec_order(a, d),
            Err(_) => -2,
        },
        (SValue::Str(s), SValue::Decimal(b)) => match spec_decimal_parse(s) {
            Ok(d) => dec_order(d, b),
            Err(_) => -2,
        },
        _ => text_order(value_text(l), value_text(r)),
    }
}

/// What `=` decides: two strings are equal when their texts are, two
/// decimals when their values are; other pairs when they compare equal.
pub open spec fn values_equal(l: SValue, r: SValue) -> bool {
    match (l, r) {
        (SValue::Str(a), SValue::Str(b)) => a == b,
        (SValue::Decimal(a), SValue::Decimal(b)) => dec_order(a, b) == 0,
        _ => compare_values(l, r) == 0,
    }
}

pub open spec fn is_regex_special(c: char) -> bool {
    c == '.' || c == '+' || c == '*' || c == '?' || c == '^' || c == '$' || c == '{' || c == '}'
        || c == '(' || c == ')' || c == '|' || c == '[' || c == ']' || c == '\\'
}

/// The regular expression text for one character of a LIKE pattern
/// (`.` in a regular expression does not match a newline).
pub open spec fn like_piece(c: char) -> Seq<char> {
    if c == '%' {
        ".*"@
    } else if c == '_' {
        "."@
    } else if is_regex_special(c) {
        seq!['\\', c]
    } else {
        seq![c]
    }
}

pub open spec fn like_body(p: Seq<char>) -> Seq<char>
    decreases p.len(),
{
    if p.len() == 0 {
        Seq::empty()
    } else {
        like_body(p.drop_last()) + like_piece(p.last())
    }
}

/// The case-insensitive, anchored regular expression of a LIKE pattern:
/// `%` becomes `.*` and `_` becomes `.`, so they match any run of
/// characters and any one character other than a newline; every other
/// character matches itself.
pub open spec fn like_regex(p: Seq<char>) -> Seq<char> {
    "(?i)^"@ + like_body(p) + "$"@
}

/// Whether `text` matches the LIKE `pattern` (false if its expression does
/// not compile).
pub open spec fn like_matches(text: Seq<char>, pattern: Seq<char>) -> bool {
    match spec_regex_search(like_regex(pattern), text) {
        Some(b) => b,
        None => false,
    }
}

// ── evaluation, stated ──

/// What the evaluator asks its caller for.
pub enum SRequest {
    /// The value of a name that the context does not hold.
    Field(Seq<char>),
    /// An event's value: its type, subtype and the context to use.
    Event(Seq<char>, Seq<char>, CtxView),
}

/// Why evaluation stopped.
pub enum Stop {
    Fail(Seq<char>),
    Need(SRequest),
}

/// The model of an evaluation environment: which resolvers there are, the
/// names already being resolved, and the answers to the requests so far,
/// in the order they were asked.
#[verifier::ext_equal]
pub struct EnvView {
    pub has_resolver: bool,
    pub has_event_resolver: bool,
    pub visited: Seq<Seq<char>>,
    pub answers: Seq<Result<SValue, Seq<char>>>,
}

/// A result (or the reason evaluation stopped) and the number of answers
/// used up so far.
pub type Outcome = (Result<SValue, Stop>, nat);

/// Request number `k`: its answer if there is one, otherwise a stop that
/// asks for it.
pub open spec fn answer(env: EnvView, k: nat, req: SRequest) -> Outcome {
    if k < env.answers.len() {
        (
            match env.answers[k as int] {
                Ok(v) => Ok(v),
                Err(m) => Err(Stop::Fail(m)),
            },
            k + 1,
        )
    } else {
        (Err(Stop::Need(req)), k)
    }
}

/// Position of the first `.` at or after `i`.
pub open spec fn first_dot(s: Seq<char>, i: int) -> Option<int>
    decreases s.len() - i,
{
    if i < 0 || i >= s.len() {
        None
    } else if s[i] == '.' {
        Some(i)
    } else {
        first_dot(s, i + 1)
    }
}

pub proof fn lemma_first_dot(s: Seq<char>, i: int)
    requires
        0 <= i,
    ensures
        first_dot(s, i) matches Some(d) ==> i <= d < s.len() && s[d] == '.' && forall|m: int|
            i <= m < d ==> s[m] != '.',
        first_dot(s, i) is None ==> forall|m: int| i <= m < s.len() ==> s[m] != '.',
    decreases s.len() - i,
{
    if i < s.len() && s[i] != '.' {
        lemma_first_dot(s, i + 1);
    }
}

/// The value of a name: the field of that name; else, for `a.rest`, the
/// value of `rest` in the nested context `a`; else the resolver's answer;
/// else an error.
pub open spec fn resolve(name: Seq<char>, ctx: CtxView, env: EnvView, k: nat) -> Outcome
    decreases name.len(),
{
    match lookup(ctx.fields, name) {
        Some(v) => (Ok(v), k),
        None => {
            let d = first_dot(name, 0);
            if d is Some && lookup(ctx.nested, name.subrange(0, d->0)) is Some {
                proof {
                    lemma_first_dot(name, 0);
                }
                resolve(
                    name.subrange(d->0 + 1, name.len() as int),
                    lookup(ctx.nested, name.subrange(0, d->0))->0,
                    env,
                    k,
                )
            } else if env.has_resolver {
                answer(env, k, SRequest::Field(name))
            } else {
                (Err(Stop::Fail("Unknown field: "@ + name)), k)
            }
        },
    }
}

/// An optional decimal result; `None` means the operation overflowed.
pub open spec fn checked(r: Option<DecView>, overflow: Seq<char>) -> Result<SValue, Stop> {
    match r {
        Some(d) => Ok(SValue::Decimal(d)),
        None => Err(Stop::Fail(overflow)),
    }
}

/// A binary operator (other than AND / OR) on two values.
pub open spec fn binop_value(op: BinOp, lv: SValue, rv: SValue) -> Result<SValue, Stop> {
    if op == BinOp::Plus || op == BinOp::Minus || op == BinOp::Multiply || op == BinOp::Divide {
        match to_decimal(lv) {
            Err(m) => Err(Stop::Fail(m)),
            Ok(ld) => match to_decimal(rv) {
                Err(m) => Err(Stop::Fail(m)),
                Ok(rd) => {
                    if op == BinOp::Plus {
                        checked(spec_decimal_add(ld, rd), "Addition overflowed"@)
                    } else if op == BinOp::Minus {
                        checked(spec_decimal_sub(ld, rd), "Subtraction overflowed"@)
                    } else if op == BinOp::Multiply {
                        checked(spec_decimal_mul(ld, rd), "Multiplication overflowed"@)
                    } else if rd.magnitude == 0 {
                        Err(Stop::Fail("Division by zero"@))
                    } else {
                        checked(spec_decimal_div(ld, rd), "Division overflowed"@)
                    }
                },
            },
        }
    } else if op == BinOp::Eq {
        Ok(SValue::Bool(values_equal(lv, rv)))
    } else if op == BinOp::Neq {
        Ok(SValue::Bool(!values_equal(lv, rv)))
    } else if op == BinOp::Lt {
        Ok(SValue::Bool(compare_values(lv, rv) == -1))
    } else if op == BinOp::Gt {
        Ok(SValue::Bool(compare_values(lv, rv) == 1))
    } else if op == BinOp::Lte {
        Ok(SValue::Bool(compare_values(lv, rv) == 0 || compare_values(lv, rv) == -1))
    } else {
        Ok(SValue::Bool(compare_values(lv, rv) == 0 || compare_values(lv, rv) == 1))
    }
}

/// The value of an expression in a context and environment, starting with
/// answer number `k`.
pub open spec fn eval(n: SAst, ctx: CtxView, env: EnvView, k: nat) -> Outcome
    decreases n, 0int,
{
    match n {
        SAst::Select(inner) => eval(*inner, ctx, env, k),
        SAst::NumberLit(d) => (Ok(SValue::Decimal(d)), k),
        SAst::StringLit(s) => (Ok(SValue::Str(s)), k),
        SAst::BoolLit(b) => (Ok(SValue::Bool(b)), k),
        SAst::NullLit => (Ok(SValue::Null), k),
        SAst::Identifier(name) => resolve(name, ctx, env, k),
        SAst::BinaryOp { op, left, right } => {
            let (lr, k1) = eval(*left, ctx, env, k);
            match lr {
                Err(s) => (Err(s), k1),
                Ok(lv) => {
                    if op == BinOp::And {
                        if !truthy(lv) {
                            (Ok(lv), k1)
                        } else {
                            eval(*right, ctx, env, k1)
                        }
                    } else if op == BinOp::Or {
                        if truthy(lv) {
                            (Ok(lv), k1)
                        } else {
                            eval(*right, ctx, env, k1)
                        }
                    } else {
                        let (rr, k2) = eval(*right, ctx, env, k1);
                        match rr {
                            Err(s) => (Err(s), k2),
                            Ok(rv) => (binop_value(op, lv, rv), k2),
                        }
                    }
                },
            }
        },
        SAst::CaseExpr { whens, else_clause } => {
            let (wr, k1) = eval_whens(whens, 0, ctx, env, k);
            match wr {
                Err(s) => (Err(s), k1),
                Ok(Some(v)) => (Ok(v), k1),
                Ok(None) => match else_clause {
                    Some(e) => eval(*e, ctx, env, k1),
                    None => (Ok(SValue::Null), k1),
                },
            }
        },
        SAst::FunctionCall { name, args } => eval_call(name, args, ctx, env, k),
        SAst::InExpr { expr, items } => {
            let (er, k1) = eval(*expr, ctx, env, k);
            match er {
                Err(s) => (Err(s), k1),
                Ok(v) => {
                    let (fr, k2) = eval_in(v, items, 0, ctx, env, k1);
                    match fr {
                        Err(s) => (Err(s), k2),
                        Ok(found) => (Ok(SValue::Bool(found)), k2),
                    }
                },
            }
        },
        SAst::NotInExpr { expr, items } => {
            let (er, k1) = eval(*expr, ctx, env, k);
            match er {
                Err(s) => (Err(s), k1),
                Ok(v) => {
                    let (fr, k2) = eval_in(v, items, 0, ctx, env, k1);
                    match fr {
                        Err(s) => (Err(s), k2),
                        Ok(found) => (Ok(SValue::Bool(!found)), k2),
                    }
                },
            }
        },
        SAst::LikeExpr { expr, pattern } => {
            let (er, k1) = eval(*expr, ctx, env, k);
            match er {
                Err(s) => (Err(s), k1),
                Ok(v) => {
                    let (pr, k2) = eval(*pattern, ctx, env, k1);
                    match pr {
                        Err(s) => (Err(s), k2),
                        Ok(pv) => if v is Null || pv is Null {
                            (Ok(SValue::Null), k2)
                        } else {
                            (Ok(SValue::Bool(like_matches(value_text(v), value_text(pv)))), k2)
                        },
                    }
                },
            }
        },
        SAst::NotLikeExpr { expr, pattern } => {
            let (er, k1) = eval(*expr, ctx, env, k);
            match er {
                Err(s) => (Err(s), k1),
                Ok(v) => {
                    let (pr, k2) = eval(*pattern, ctx, env, k1);
                    match pr {
                        Err(s) => (Err(s), k2),
                        Ok(pv) => if v is Null || pv is Null {
                            (Ok(SValue::Null), k2)
                        } else {
                            (Ok(SValue::Bool(!like_matches(value_text(v), value_text(pv)))), k2)
                        },
                    }
                },
            }
        },
    }
}

/// The `WHEN` arms from number `i` on: the result of the first whose
/// condition is true, `None` if none is.
pub open spec fn eval_whens(whens: Seq<SWhen>, i: int, ctx: CtxView, env: EnvView, k: nat) -> (
    Result<Option<SValue>, Stop>,
    nat,
)
    decreases whens, whens.len() - i,
{
    if i < 0 || i >= whens.len() {
        (Ok(None), k)
    } else {
        let (cr, k1) = eval(whens[i].condition, ctx, env, k);
        match cr {
            Err(s) => (Err(s), k1),
            Ok(c) => if truthy(c) {
                let (rr, k2) = eval(whens[i].result, ctx, env, k1);
                match rr {
                    Err(s) => (Err(s), k2),
                    Ok(v) => (Ok(Some(v)), k2),
                }
            } else {
                eval_whens(whens, i + 1, ctx, env, k1)
            },
        }
    }
}

/// Whether some item from number `i` on compares equal to `v` (items are
/// evaluated until one does).
pub open spec fn eval_in(v: SValue, items: Seq<SAst>, i: int, ctx: CtxView, env: EnvView, k: nat) -> (
    Result<bool, Stop>,
    nat,
)
    decreases items, items.len() - i,
{
    if i < 0 || i >= items.len() {
        (Ok(false), k)
    } else {
        let (ir, k1) = eval(items[i], ctx, env, k);
        match ir {
            Err(s) => (Err(s), k1),
            Ok(iv) => if compare_values(v, iv) == 0 {
                (Ok(true), k1)
            } else {
                eval_in(v, items, i + 1, ctx, env, k1)
            },
        }
    }
}

/// The first argument from number `i` on that is not NULL, else NULL.
pub open spec fn eval_coalesce(args: Seq<SAst>, i: int, ctx: CtxView, env: EnvView, k: nat) -> Outcome
    decreases args, args.len() - i,
{
    if i < 0 || i >= args.len() {
        (Ok(SValue::Null), k)
    } else {
        let (ar, k1) = eval(args[i], ctx, env, k);
        match ar {
            Err(s) => (Err(s), k1),
            Ok(v) => if !(v is Null) {
                (Ok(v), k1)
            } else {
                eval_coalesce(args, i + 1, ctx, env, k1)
            },
        }
    }
}

/// The texts of the arguments from number `i` on, appended to `acc`.
pub open spec fn eval_concat(
    args: Seq<SAst>,
    i: int,
    acc: Seq<char>,
    ctx: CtxView,
    env: EnvView,
    k: nat,
) -> (Result<Seq<char>, Stop>, nat)
    decreases args, args.len() - i,
{
    if i < 0 || i >= args.len() {
        (Ok(acc), k)
    } else {
        let (ar, k1) = eval(args[i], ctx, env, k);
        match ar {
            Err(s) => (Err(s), k1),
            Ok(v) => eval_concat(args, i + 1, acc + value_text(v), ctx, env, k1),
        }
    }
}

/// UPPER and LOWER: one argument; NULL stays NULL; a string is converted
/// by `convert`, any other value gives its text unchanged.
pub open spec fn case_change(name: Seq<char>, upper: bool, args: Seq<SAst>, ctx: CtxView, env: EnvView, k: nat) -> Outcome
    decreases args, args.len() + 1,
{
    if args.len() != 1 {
        (Err(Stop::Fail(name + " requires exactly 1 argument"@)), k)
    } else {
        let (ar, k1) = eval(args[0], ctx, env, k);
        match ar {
            Err(s) => (Err(s), k1),
            Ok(v) => match v {
                SValue::Null => (Ok(SValue::Null), k1),
                SValue::Str(s) => (
                    Ok(SValue::Str(if upper {
                        spec_to_upper(s)
                    } else {
                        spec_to_lower(s)
                    })),
                    k1,
                ),
                _ => (Ok(SValue::Str(value_text(v))), k1),
            },
        }
    }
}

/// ROUND(value, precision): NULL stays NULL; the precision must be a
/// decimal whose integer part fits an `i32` (a negative one, taken as an
/// unsigned number, leaves the value as it is).
pub open spec fn eval_round(args: Seq<SAst>, ctx: CtxView, env: EnvView, k: nat) -> Outcome
    decreases args, args.len() + 1,
{
    if args.len() != 2 {
        (Err(Stop::Fail("ROUND requires exactly 2 arguments"@)), k)
    } else {
        let (r0, k1) = eval(args[0], ctx, env, k);
        match r0 {
            Err(s) => (Err(s), k1),
            Ok(v) => if v is Null {
                (Ok(SValue::Null), k1)
            } else {
                match to_decimal(v) {
                    Err(m) => (Err(Stop::Fail(m)), k1),
                    Ok(d) => {
                        let (r1, k2) = eval(args[1], ctx, env, k1);
                        match r1 {
                            Err(s) => (Err(s), k2),
                            Ok(pv) => match to_decimal(pv) {
                                Err(m) => (Err(Stop::Fail(m)), k2),
                                Ok(pd) => match spec_to_i32(pd) {
                                    None => (
                                        Err(Stop::Fail("ROUND precision must be an integer"@)),
                                        k2,
                                    ),
                                    Some(prec) => (
                                        Ok(SValue::Decimal(spec_round_away(d, (prec as u32) as nat))),
                                        k2,
                                    ),
                                },
                            },
                        }
                    },
                }
            },
        }
    }
}

/// ABS(value): NULL stays NULL; otherwise the decimal without its sign.
pub open spec fn eval_abs(args: Seq<SAst>, ctx: CtxView, env: EnvView, k: nat) -> Outcome
    decreases args, args.len() + 1,
{
    if args.len() != 1 {
        (Err(Stop::Fail("ABS requires exactly 1 argument"@)), k)
    } else {
        let (ar, k1) = eval(args[0], ctx, env, k);
        match ar {
            Err(s) => (Err(s), k1),
            Ok(v) => if v is Null {
                (Ok(SValue::Null), k1)
            } else {
                match to_decimal(v) {
                    Err(m) => (Err(Stop::Fail(m)), k1),
                    Ok(d) => (
                        Ok(SValue::Decimal(DecView { negative: false, magnitude: d.magnitude, scale: d.scale })),
                        k1,
                    ),
                }
            },
        }
    }
}

/// EVENT(type, subtype [, source]): asks the event resolver for the value
/// of event `type.subtype`, in the nested context `source` or the current
/// one; an event already being resolved is refused.
pub open spec fn eval_event(args: Seq<SAst>, ctx: CtxView, env: EnvView, k: nat) -> Outcome
    decreases args, args.len() + 1,
{
    if args.len() < 2 || args.len() > 3 {
        (Err(Stop::Fail("EVENT requires 2 or 3 arguments"@)), k)
    } else {
        let (r0, k1) = eval(args[0], ctx, env, k);
        match r0 {
            Err(s) => (Err(s), k1),
            Ok(tv) => {
                let (r1, k2) = eval(args[1], ctx, env, k1);
                match r1 {
                    Err(s) => (Err(s), k2),
                    Ok(sv) => {
                        let ty = value_text(tv);
                        let sub = value_text(sv);
                        let key = ty + "."@ + sub;
                        if !env.has_event_resolver {
                            (Err(Stop::Fail("No event_resolver provided"@)), k2)
                        } else if env.visited.contains(key) {
                            (Err(Stop::Fail("Circular reference detected: "@ + key)), k2)
                        } else if args.len() == 3 {
                            match args[2] {
                                SAst::Identifier(src) => match lookup(ctx.nested, src) {
                                    Some(c) => answer(env, k2, SRequest::Event(ty, sub, c)),
                                    None => (
                                        Err(Stop::Fail("Nested context '"@ + src + "' not found"@)),
                                        k2,
                                    ),
                                },
                                _ => (
                                    Err(Stop::Fail("EVENT third argument must be an identifier"@)),
                                    k2,
                                ),
                            }
                        } else {
                            answer(env, k2, SRequest::Event(ty, sub, ctx))
                        }
                    },
                }
            },
        }
    }
}

/// A call of a built-in function.
pub open spec fn eval_call(name: Seq<char>, args: Seq<SAst>, ctx: CtxView, env: EnvView, k: nat) -> Outcome
    decreases args, args.len() + 2,
{
    if name == "ROUND"@ {
        eval_round(args, ctx, env, k)
    } else if name == "COALESCE"@ {
        eval_coalesce(args, 0, ctx, env, k)
    } else if name == "UPPER"@ {
        case_change(name, true, args, ctx, env, k)
    } else if name == "LOWER"@ {
        case_change(name, false, args, ctx, env, k)
    } else if name == "ABS"@ {
        eval_abs(args, ctx, env, k)
    } else if name == "CONCAT"@ {
        let (cr, k1) = eval_concat(args, 0, Seq::empty(), ctx, env, k);
        match cr {
            Err(s) => (Err(s), k1),
            Ok(t) => (Ok(SValue::Str(t)), k1),
        }
    } else if name == "EVENT"@ {
        eval_event(args, ctx, env, k)
    } else {
        (Err(Stop::Fail("Unknown function: "@ + name)), k)
    }
}


// ── helpers ──

/// Whether a value counts as true: everything but NULL and FALSE.
pub fn is_truthy(v: &Value) -> (r: bool)
    ensures
        r == truthy(v@),
{
    match v {
        Value::Null => false,
        Value::Bool(false) => false,
        _ => true,
    }
}

/// A value as a decimal: decimals as they are, strings that read as
/// decimals; anything else is an error.
pub fn value_to_decimal(v: &Value) -> (r: Result<Dec, DsqlexError>)
    ensures
        match to_decimal(v@) {
            Ok(d) => r matches Ok(x) && x@ == d,
            Err(m) => r matches Err(e) && e@ == m,
        },
{
    match v {
        Value::Decimal(d) => Ok(*d),
        Value::String(s) => match Dec::parse(s.as_str()) {
            Some(d) => Ok(d),
            None => Err(DsqlexError(concat3("Cannot convert '", s.as_str(), "' to decimal"))),
        },
        Value::Bool(_) => Err(DsqlexError(owned("Cannot convert boolean to decimal"))),
        Value::Null => Err(DsqlexError(owned("Cannot convert NULL to decimal"))),
    }
}

/// The text of a value (see [`value_text`]).
pub fn val_to_string(v: &Value) -> (r: String)
    ensures
        r@ == value_text(v@),
{
    v.to_display_string()
}

proof fn lemma_text_order_skip(a: Seq<char>, b: Seq<char>, i: int)
    requires
        0 <= i < a.len(),
        i < b.len(),
        a[i] == b[i],
    ensures
        text_order(a.skip(i), b.skip(i)) == text_order(a.skip(i + 1), b.skip(i + 1)),
{
    assert(a.skip(i).drop_first() =~= a.skip(i + 1));
    assert(b.skip(i).drop_first() =~= b.skip(i + 1));
}

/// Lexicographic order of two texts by character code: -1, 0 or 1.
pub fn text_order_of(a: &str, b: &str) -> (r: i32)
    ensures
        r == text_order(a@, b@),
{
    let x = chars_of(a);
    let y = chars_of(b);
    let mut i: usize = 0;
    assert(x@.skip(0) =~= x@);
    assert(y@.skip(0) =~= y@);
    while i < x.len() && i < y.len()
        invariant
            x@ == a@,
            y@ == b@,
            i <= x.len(),
            i <= y.len(),
            text_order(a@, b@) == text_order(x@.skip(i as int), y@.skip(i as int)),
        decreases x.len() - i,
    {
        let c = x[i];
        let d = y[i];
        if c < d {
            return -1;
        }
        if c > d {
            return 1;
        }
        proof {
            lemma_text_order_skip(x@, y@, i as int);
        }
        i += 1;
    }
    if i == x.len() {
        if i == y.len() {
            0
        } else {
            -1
        }
    } else {
        1
    }
}

/// The order of two values: -1, 0, 1, or -2 when they do not compare
/// (see [`compare_values`]).
pub fn compare(lhs: &Value, rhs: &Value) -> (r: i32)
    ensures
        r == compare_values(lhs@, rhs@),
{
    match (lhs, rhs) {
        (Value::Null, Value::Null) => 0,
        (Value::Null, _) => -2,
        (_, Value::Null) => -2,
        (Value::Decimal(a), Value::Decimal(b)) => a.compare(b) as i32,
        (Value::String(a), Value::String(b)) => {
            match (Dec::parse(a.as_str()), Dec::parse(b.as_str())) {
                (Some(da), Some(db)) => da.compare(&db) as i32,
                _ => text_order_of(a.as_str(), b.as_str()),
            }
        },
        (Value::Bool(a), Value::Bool(b)) => {
            if *a == *b {
                0
            } else if !*a {
                -1
            } else {
                1
            }
        },
        (Value::Decimal(a), Value::String(s)) => match Dec::parse(s.as_str()) {
            Some(d) => a.compare(&d) as i32,
            None => -2,
        },
        (Value::String(s), Value::Decimal(b)) => match Dec::parse(s.as_str()) {
            Some(d) => d.compare(b) as i32,
            None => -2,
        },
        _ => {
            let sa = val_to_string(lhs);
            let sb = val_to_string(rhs);
            text_order_of(sa.as_str(), sb.as_str())
        },
    }
}

/// What `=` decides on two values (see [`values_equal`]).
pub fn equal_values(lhs: &Value, rhs: &Value) -> (r: bool)
    ensures
        r == values_equal(lhs@, rhs@),
{
    match (lhs, rhs) {
        (Value::String(a), Value::String(b)) => *a == *b,
        (Value::Decimal(a), Value::Decimal(b)) => a.compare(b) == 0,
        _ => compare(lhs, rhs) == 0,
    }
}

fn regex_special(c: char) -> (r: bool)
    ensures
        r == is_regex_special(c),
{
    c == '.' || c == '+' || c == '*' || c == '?' || c == '^' || c == '$' || c == '{' || c == '}'
        || c == '(' || c == ')' || c == '|' || c == '[' || c == ']' || c == '\\'
}

/// The regular expression of a LIKE pattern (see [`like_regex`]).
pub fn like_to_regex(pattern: &str) -> (r: String)
    ensures
        r@ == like_regex(pattern@),
{
    let p = chars_of(pattern);
    let mut re = owned("(?i)^");
    let ghost prefix = re@;
    let mut i: usize = 0;
    while i < p.len()
        invariant
            p@ == pattern@,
            i <= p.len(),
            prefix == "(?i)^"@,
            re@ == prefix + like_body(p@.take(i as int)),
        decreases p.len() - i,
    {
        let c = p[i];
        assert(p@.take(i + 1).drop_last() =~= p@.take(i as int));
        if c == '%' {
            re.append(".*");
        } else if c == '_' {
            re.append(".");
        } else if regex_special(c) {
            push_char(&mut re, '\\');
            push_char(&mut re, c);
            assert(seq!['\\', c] =~= seq!['\\'].push(c));
        } else {
            push_char(&mut re, c);
        }
        assert(re@ =~= prefix + like_body(p@.take(i + 1)));
        i += 1;
    }
    assert(p@.take(p.len() as int) =~= p@);
    re.append("$");
    re
}

/// Whether `text` matches the LIKE `pattern`, without regard to case.
pub fn like_match(text: &str, pattern: &str) -> (r: bool)
    ensures
        r == like_matches(text@, pattern@),
{
    let re = like_to_regex(pattern);
    match regex_search(re.as_str(), text) {
        Some(b) => b,
        None => false,
    }
}


// ── evaluation ──

/// What evaluation asks its caller for.
#[derive(Debug)]
pub enum Request {
    /// The value of a name the context does not hold (for the resolver).
    Field { name: String },
    /// The value of an event (for the event resolver).
    Event { event_type: String, subtype: String, context: Context },
}

impl View for Request {
    type V = SRequest;

    open spec fn view(&self) -> SRequest {
        match self {
            Request::Field { name } => SRequest::Field(name@),
            Request::Event { event_type, subtype, context } => SRequest::Event(
                event_type@,
                subtype@,
                context@,
            ),
        }
    }
}

/// Why evaluation stopped: an error, or a request to answer first.
#[derive(Debug)]
pub enum Halt {
    Fail(DsqlexError),
    Need(Request),
}

impl View for Halt {
    type V = Stop;

    open spec fn view(&self) -> Stop {
        match self {
            Halt::Fail(e) => Stop::Fail(e@),
            Halt::Need(r) => Stop::Need(r@),
        }
    }
}

/// Where evaluation stands: which resolvers there are, the names being
/// resolved, and the answers to the requests so far, in order.
pub struct EvalEnv {
    pub has_resolver: bool,
    pub has_event_resolver: bool,
    pub visited: Vec<String>,
    pub answers: Vec<Result<Value, DsqlexError>>,
}

pub open spec fn result_view(r: Result<Value, DsqlexError>) -> Result<SValue, Seq<char>> {
    match r {
        Ok(v) => Ok(v@),
        Err(e) => Err(e@),
    }
}

pub open spec fn strings_view(s: Seq<String>) -> Seq<Seq<char>> {
    s.map_values(|x: String| x@)
}

impl View for EvalEnv {
    type V = EnvView;

    open spec fn view(&self) -> EnvView {
        EnvView {
            has_resolver: self.has_resolver,
            has_event_resolver: self.has_event_resolver,
            visited: strings_view(self.visited@),
            answers: self.answers@.map_values(|r: Result<Value, DsqlexError>| result_view(r)),
        }
    }
}

/// The model of an exec outcome.
pub open spec fn oview(r: (Result<Value, Halt>, usize)) -> Outcome {
    (
        match r.0 {
            Ok(v) => Ok(v@),
            Err(h) => Err(h@),
        },
        r.1 as nat,
    )
}

fn fail(msg: String) -> (r: Halt)
    ensures
        r@ == Stop::Fail(msg@),
{
    Halt::Fail(DsqlexError(msg))
}

fn str_is(s: &str, lit: &str) -> (r: bool)
    ensures
        r == (s@ == lit@),
{
    let cs = chars_of(s);
    chars_equal_str(&cs, lit)
}

/// Request number `k`: its answer, or a halt that asks for it.
fn answer_request(env: &EvalEnv, k: usize, req: Request) -> (r: (Result<Value, Halt>, usize))
    requires
        k <= env.answers.len(),
    ensures
        oview(r) == answer(env@, k as nat, req@),
        r.1 <= env.answers.len(),
{
    if k < env.answers.len() {
        match &env.answers[k] {
            Ok(v) => (Ok(v.duplicate()), k + 1),
            Err(e) => (Err(Halt::Fail(e.duplicate())), k + 1),
        }
    } else {
        (Err(Halt::Need(req)), k)
    }
}

/// The value of a name (see [`resolve`]).
fn resolve_name(name: &str, ctx: &Context, env: &EvalEnv, k: usize) -> (r: (
    Result<Value, Halt>,
    usize,
))
    requires
        k <= env.answers.len(),
    ensures
        oview(r) == resolve(name@, ctx@, env@, k as nat),
        r.1 <= env.answers.len(),
    decreases name@.len(),
{
    match ctx.get_field(name) {
        Some(v) => {
            return (Ok(v.duplicate()), k);
        },
        None => {},
    }
    let cs = chars_of(name);
    let mut d: usize = 0;
    proof {
        lemma_first_dot(cs@, 0);
    }
    while d < cs.len() && cs[d] != '.'
        invariant
            cs@ == name@,
            d <= cs.len(),
            first_dot(cs@, 0) == first_dot(cs@, d as int),
        decreases cs.len() - d,
    {
        d += 1;
    }
    if d < cs.len() {
        let first = string_of_chars(&cs, 0, d);
        match ctx.get_nested(first.as_str()) {
            Some(sub) => {
                let rest = string_of_chars(&cs, d + 1, cs.len());
                return resolve_name(rest.as_str(), sub, env, k);
            },
            None => {},
        }
    }
    if env.has_resolver {
        answer_request(env, k, Request::Field { name: owned(name) })
    } else {
        (Err(fail(concat2("Unknown field: ", name))), k)
    }
}

/// A binary operator other than AND / OR applied to two values.
fn apply_binop(op: BinOp, lv: &Value, rv: &Value) -> (r: Result<Value, Halt>)
    ensures
        match r {
            Ok(v) => binop_value(op, lv@, rv@) == Ok::<SValue, Stop>(v@),
            Err(h) => binop_value(op, lv@, rv@) == Err::<SValue, Stop>(h@),
        },
{
    match op {
        BinOp::Plus | BinOp::Minus | BinOp::Multiply | BinOp::Divide => {
            let ld = match value_to_decimal(lv) {
                Ok(d) => d,
                Err(e) => return Err(Halt::Fail(e)),
            };
            let rd = match value_to_decimal(rv) {
                Ok(d) => d,
                Err(e) => return Err(Halt::Fail(e)),
            };
            let (res, msg) = match op {
                BinOp::Plus => (ld.checked_add(&rd), "Addition overflowed"),
                BinOp::Minus => (ld.checked_sub(&rd), "Subtraction overflowed"),
                BinOp::Multiply => (ld.checked_mul(&rd), "Multiplication overflowed"),
                _ => {
                    if rd.is_zero() {
                        return Err(fail(owned("Division by zero")));
                    }
                    (ld.checked_div(&rd), "Division overflowed")
                },
            };
            match res {
                Some(d) => Ok(Value::Decimal(d)),
                None => Err(fail(owned(msg))),
            }
        },
        BinOp::Eq => Ok(Value::Bool(equal_values(lv, rv))),
        BinOp::Neq => Ok(Value::Bool(!equal_values(lv, rv))),
        BinOp::Lt => Ok(Value::Bool(compare(lv, rv) == -1)),
        BinOp::Gt => Ok(Value::Bool(compare(lv, rv) == 1)),
        BinOp::Lte => {
            let c = compare(lv, rv);
            Ok(Value::Bool(c == 0 || c == -1))
        },
        _ => {
            let c = compare(lv, rv);
            Ok(Value::Bool(c == 0 || c == 1))
        },
    }
}


/// The value of an expression (see [`eval`]).
fn eval_node(n: &AstNode, ctx: &Context, env: &EvalEnv, k: usize) -> (r: (Result<Value, Halt>, usize))
    requires
        k <= env.answers.len(),
    ensures
        oview(r) == eval(n@, ctx@, env@, k as nat),
        r.1 <= env.answers.len(),
    decreases n, 9int,
{
    match n {
        AstNode::Select(inner) => eval_node(inner, ctx, env, k),
        AstNode::NumberLit(d) => (Ok(Value::Decimal(*d)), k),
        AstNode::StringLit(s) => (Ok(Value::String(s.clone())), k),
        AstNode::BoolLit(b) => (Ok(Value::Bool(*b)), k),
        AstNode::NullLit => (Ok(Value::Null), k),
        AstNode::Identifier(name) => resolve_name(name.as_str(), ctx, env, k),
        AstNode::BinaryOp { op, left, right } => {
            let (lr, k1) = eval_node(left, ctx, env, k);
            let lv = match lr {
                Err(h) => return (Err(h), k1),
                Ok(v) => v,
            };
            if *op == BinOp::And {
                if !is_truthy(&lv) {
                    return (Ok(lv), k1);
                }
                return eval_node(right, ctx, env, k1);
            }
            if *op == BinOp::Or {
                if is_truthy(&lv) {
                    return (Ok(lv), k1);
                }
                return eval_node(right, ctx, env, k1);
            }
            let (rr, k2) = eval_node(right, ctx, env, k1);
            let rv = match rr {
                Err(h) => return (Err(h), k2),
                Ok(v) => v,
            };
            (apply_binop(*op, &lv, &rv), k2)
        },
        AstNode::CaseExpr { whens, else_clause } => {
            let (wr, k1) = eval_when_arms(whens, ctx, env, k);
            match wr {
                Err(h) => (Err(h), k1),
                Ok(Some(v)) => (Ok(v), k1),
                Ok(None) => match else_clause {
                    Some(e) => eval_node(e, ctx, env, k1),
                    None => (Ok(Value::Null), k1),
                },
            }
        },
        AstNode::FunctionCall { name, args } => eval_function(name, args, ctx, env, k),
        AstNode::InExpr { expr, items } => {
            let (er, k1) = eval_node(expr, ctx, env, k);
            let v = match er {
                Err(h) => return (Err(h), k1),
                Ok(v) => v,
            };
            let (fr, k2) = eval_in_items(&v, items, ctx, env, k1);
            match fr {
                Err(h) => (Err(h), k2),
                Ok(found) => (Ok(Value::Bool(found)), k2),
            }
        },
        AstNode::NotInExpr { expr, items } => {
            let (er, k1) = eval_node(expr, ctx, env, k);
            let v = match er {
                Err(h) => return (Err(h), k1),
                Ok(v) => v,
            };
            let (fr, k2) = eval_in_items(&v, items, ctx, env, k1);
            match fr {
                Err(h) => (Err(h), k2),
                Ok(found) => (Ok(Value::Bool(!found)), k2),
            }
        },
        AstNode::LikeExpr { expr, pattern } => {
            let (er, k1) = eval_node(expr, ctx, env, k);
            let v = match er {
                Err(h) => return (Err(h), k1),
                Ok(v) => v,
            };
            let (pr, k2) = eval_node(pattern, ctx, env, k1);
            let pv = match pr {
                Err(h) => return (Err(h), k2),
                Ok(v) => v,
            };
            match (&v, &pv) {
                (Value::Null, _) => return (Ok(Value::Null), k2),
                (_, Value::Null) => return (Ok(Value::Null), k2),
                _ => {},
            }
            let text = val_to_string(&v);
            let pat = val_to_string(&pv);
            (Ok(Value::Bool(like_match(text.as_str(), pat.as_str()))), k2)
        },
        AstNode::NotLikeExpr { expr, pattern } => {
            let (er, k1) = eval_node(expr, ctx, env, k);
            let v = match er {
                Err(h) => return (Err(h), k1),
                Ok(v) => v,
            };
            let (pr, k2) = eval_node(pattern, ctx, env, k1);
            let pv = match pr {
                Err(h) => return (Err(h), k2),
                Ok(v) => v,
            };
            match (&v, &pv) {
                (Value::Null, _) => return (Ok(Value::Null), k2),
                (_, Value::Null) => return (Ok(Value::Null), k2),
                _ => {},
            }
            let text = val_to_string(&v);
            let pat = val_to_string(&pv);
            (Ok(Value::Bool(!like_match(text.as_str(), pat.as_str()))), k2)
        },
    }
}

/// The `WHEN` arms in order (see [`eval_whens`]).
fn eval_when_arms(whens: &Vec<WhenClause>, ctx: &Context, env: &EvalEnv, k: usize) -> (r: (
    Result<Option<Value>, Halt>,
    usize,
))
    requires
        k <= env.answers.len(),
    ensures
        (
            match r.0 {
                Ok(Some(v)) => Ok(Some(v@)),
                Ok(None) => Ok(None),
                Err(h) => Err(h@),
            },
            r.1 as nat,
        ) == eval_whens(whens_view(whens@), 0, ctx@, env@, k as nat),
        r.1 <= env.answers.len(),
    decreases whens, 8int,
{
    let ghost ws = whens_view(whens@);
    proof {
        lemma_whens_view(whens@);
    }
    let mut i: usize = 0;
    let mut kk = k;
    while i < whens.len()
        invariant
            ws == whens_view(whens@),
            ws.len() == whens@.len(),
            forall|j: int| 0 <= j < whens@.len() ==> #[trigger] ws[j] == whens@[j]@,
            i <= whens.len(),
            kk <= env.answers.len(),
            eval_whens(ws, 0, ctx@, env@, k as nat) == eval_whens(ws, i as int, ctx@, env@, kk as nat),
        decreases whens.len() - i,
    {
        proof {
            assert(decreases_to!(whens => whens@));
            assert(decreases_to!(whens@ => whens@[i as int]));
            assert(decreases_to!(whens@[i as int] => whens@[i as int].condition));
            assert(decreases_to!(whens@[i as int] => whens@[i as int].result));
        }
        let (cr, k1) = eval_node(&whens[i].condition, ctx, env, kk);
        let c = match cr {
            Err(h) => return (Err(h), k1),
            Ok(c) => c,
        };
        if is_truthy(&c) {
            let (rr, k2) = eval_node(&whens[i].result, ctx, env, k1);
            return match rr {
                Err(h) => (Err(h), k2),
                Ok(v) => (Ok(Some(v)), k2),
            };
        }
        i += 1;
        kk = k1;
    }
    (Ok(None), kk)
}

/// Whether some item compares equal to `v` (see [`eval_in`]).
fn eval_in_items(v: &Value, items: &Vec<AstNode>, ctx: &Context, env: &EvalEnv, k: usize) -> (r: (
    Result<bool, Halt>,
    usize,
))
    requires
        k <= env.answers.len(),
    ensures
        (
            match r.0 {
                Ok(b) => Ok(b),
                Err(h) => Err(h@),
            },
            r.1 as nat,
        ) == eval_in(v@, asts_view(items@), 0, ctx@, env@, k as nat),
        r.1 <= env.answers.len(),
    decreases items, 8int,
{
    let ghost xs = asts_view(items@);
    proof {
        lemma_asts_view(items@);
    }
    let mut i: usize = 0;
    let mut kk = k;
    while i < items.len()
        invariant
            xs == asts_view(items@),
            xs.len() == items@.len(),
            forall|j: int| 0 <= j < items@.len() ==> #[trigger] xs[j] == items@[j]@,
            i <= items.len(),
            kk <= env.answers.len(),
            eval_in(v@, xs, 0, ctx@, env@, k as nat) == eval_in(v@, xs, i as int, ctx@, env@, kk as nat),
        decreases items.len() - i,
    {
        proof {
            assert(decreases_to!(items => items@));
            assert(decreases_to!(items@ => items@[i as int]));
        }
        let (ir, k1) = eval_node(&items[i], ctx, env, kk);
        let iv = match ir {
            Err(h) => return (Err(h), k1),
            Ok(x) => x,
        };
        if compare(v, &iv) == 0 {
            return (Ok(true), k1);
        }
        i += 1;
        kk = k1;
    }
    (Ok(false), kk)
}

/// A call of a built-in function (see [`eval_call`]).
fn eval_function(name: &String, args: &Vec<AstNode>, ctx: &Context, env: &EvalEnv, k: usize) -> (r: (
    Result<Value, Halt>,
    usize,
))
    requires
        k <= env.answers.len(),
    ensures
        oview(r) == eval_call(name@, asts_view(args@), ctx@, env@, k as nat),
        r.1 <= env.answers.len(),
    decreases args, 8int,
{
    let nm = name.as_str();
    if str_is(nm, "ROUND") {
        eval_round_call(args, ctx, env, k)
    } else if str_is(nm, "COALESCE") {
        eval_coalesce_call(args, ctx, env, k)
    } else if str_is(nm, "UPPER") {
        eval_case_change(nm, true, args, ctx, env, k)
    } else if str_is(nm, "LOWER") {
        eval_case_change(nm, false, args, ctx, env, k)
    } else if str_is(nm, "ABS") {
        eval_abs_call(args, ctx, env, k)
    } else if str_is(nm, "CONCAT") {
        eval_concat_call(args, ctx, env, k)
    } else if str_is(nm, "EVENT") {
        eval_event_call(args, ctx, env, k)
    } else {
        (Err(fail(concat2("Unknown function: ", nm))), k)
    }
}


/// ROUND (see [`eval_round`]).
fn eval_round_call(args: &Vec<AstNode>, ctx: &Context, env: &EvalEnv, k: usize) -> (r: (
    Result<Value, Halt>,
    usize,
))
    requires
        k <= env.answers.len(),
    ensures
        oview(r) == eval_round(asts_view(args@), ctx@, env@, k as nat),
        r.1 <= env.answers.len(),
    decreases args, 7int,
{
    proof {
        lemma_asts_view(args@);
    }
    if args.len() != 2 {
        return (Err(fail(owned("ROUND requires exactly 2 arguments"))), k);
    }
    proof {
        assert(decreases_to!(args => args@));
        assert(decreases_to!(args@ => args@[0]));
        assert(decreases_to!(args@ => args@[1]));
    }
    let (r0, k1) = eval_node(&args[0], ctx, env, k);
    let v = match r0 {
        Err(h) => return (Err(h), k1),
        Ok(v) => v,
    };
    if let Value::Null = v {
        return (Ok(Value::Null), k1);
    }
    let d = match value_to_decimal(&v) {
        Ok(d) => d,
        Err(e) => return (Err(Halt::Fail(e)), k1),
    };
    let (r1, k2) = eval_node(&args[1], ctx, env, k1);
    let pv = match r1 {
        Err(h) => return (Err(h), k2),
        Ok(v) => v,
    };
    let pd = match value_to_decimal(&pv) {
        Ok(d) => d,
        Err(e) => return (Err(Halt::Fail(e)), k2),
    };
    let prec = match pd.to_i32() {
        Some(p) => p,
        None => return (Err(fail(owned("ROUND precision must be an integer"))), k2),
    };
    (Ok(Value::Decimal(d.round_dp_away(prec as u32))), k2)
}

/// COALESCE (see [`eval_coalesce`]).
fn eval_coalesce_call(args: &Vec<AstNode>, ctx: &Context, env: &EvalEnv, k: usize) -> (r: (
    Result<Value, Halt>,
    usize,
))
    requires
        k <= env.answers.len(),
    ensures
        oview(r) == eval_coalesce(asts_view(args@), 0, ctx@, env@, k as nat),
        r.1 <= env.answers.len(),
    decreases args, 7int,
{
    let ghost xs = asts_view(args@);
    proof {
        lemma_asts_view(args@);
    }
    let mut i: usize = 0;
    let mut kk = k;
    while i < args.len()
        invariant
            xs == asts_view(args@),
            xs.len() == args@.len(),
            forall|j: int| 0 <= j < args@.len() ==> #[trigger] xs[j] == args@[j]@,
            i <= args.len(),
            kk <= env.answers.len(),
            eval_coalesce(xs, 0, ctx@, env@, k as nat) == eval_coalesce(xs, i as int, ctx@, env@, kk as nat),
        decreases args.len() - i,
    {
        proof {
            assert(decreases_to!(args => args@));
            assert(decreases_to!(args@ => args@[i as int]));
        }
        let (ar, k1) = eval_node(&args[i], ctx, env, kk);
        let v = match ar {
            Err(h) => return (Err(h), k1),
            Ok(v) => v,
        };
        if let Value::Null = v {
        } else {
            return (Ok(v), k1);
        }
        i += 1;
        kk = k1;
    }
    (Ok(Value::Null), kk)
}

/// UPPER / LOWER (see [`case_change`]).
fn eval_case_change(name: &str, upper: bool, args: &Vec<AstNode>, ctx: &Context, env: &EvalEnv, k: usize) -> (r: (
    Result<Value, Halt>,
    usize,
))
    requires
        k <= env.answers.len(),
    ensures
        oview(r) == case_change(name@, upper, asts_view(args@), ctx@, env@, k as nat),
        r.1 <= env.answers.len(),
    decreases args, 7int,
{
    proof {
        lemma_asts_view(args@);
    }
    if args.len() != 1 {
        return (Err(fail(concat2(name, " requires exactly 1 argument"))), k);
    }
    proof {
        assert(decreases_to!(args => args@));
        assert(decreases_to!(args@ => args@[0]));
    }
    let (ar, k1) = eval_node(&args[0], ctx, env, k);
    let v = match ar {
        Err(h) => return (Err(h), k1),
        Ok(v) => v,
    };
    match &v {
        Value::Null => (Ok(Value::Null), k1),
        Value::String(s) => {
            let t = if upper {
                to_upper(s.as_str())
            } else {
                to_lower(s.as_str())
            };
            (Ok(Value::String(t)), k1)
        },
        _ => (Ok(Value::String(val_to_string(&v))), k1),
    }
}

/// ABS (see [`eval_abs`]).
fn eval_abs_call(args: &Vec<AstNode>, ctx: &Context, env: &EvalEnv, k: usize) -> (r: (
    Result<Value, Halt>,
    usize,
))
    requires
        k <= env.answers.len(),
    ensures
        oview(r) == eval_abs(asts_view(args@), ctx@, env@, k as nat),
        r.1 <= env.answers.len(),
    decreases args, 7int,
{
    proof {
        lemma_asts_view(args@);
    }
    if args.len() != 1 {
        return (Err(fail(owned("ABS requires exactly 1 argument"))), k);
    }
    proof {
        assert(decreases_to!(args => args@));
        assert(decreases_to!(args@ => args@[0]));
    }
    let (ar, k1) = eval_node(&args[0], ctx, env, k);
    let v = match ar {
        Err(h) => return (Err(h), k1),
        Ok(v) => v,
    };
    if let Value::Null = v {
        return (Ok(Value::Null), k1);
    }
    match value_to_decimal(&v) {
        Ok(d) => (Ok(Value::Decimal(d.abs())), k1),
        Err(e) => (Err(Halt::Fail(e)), k1),
    }
}

/// CONCAT (see [`eval_concat`]).
fn eval_concat_call(args: &Vec<AstNode>, ctx: &Context, env: &EvalEnv, k: usize) -> (r: (
    Result<Value, Halt>,
    usize,
))
    requires
        k <= env.answers.len(),
    ensures
        oview(r) == ({
            let (cr, k1) = eval_concat(asts_view(args@), 0, Seq::empty(), ctx@, env@, k as nat);
            match cr {
                Err(s) => (Err(s), k1),
                Ok(t) => (Ok(SValue::Str(t)), k1),
            }
        }),
        r.1 <= env.answers.len(),
    decreases args, 7int,
{
    let ghost xs = asts_view(args@);
    proof {
        lemma_asts_view(args@);
    }
    let mut result = String::new();
    let mut i: usize = 0;
    let mut kk = k;
    while i < args.len()
        invariant
            xs == asts_view(args@),
            xs.len() == args@.len(),
            forall|j: int| 0 <= j < args@.len() ==> #[trigger] xs[j] == args@[j]@,
            i <= args.len(),
            kk <= env.answers.len(),
            eval_concat(xs, 0, Seq::empty(), ctx@, env@, k as nat) == eval_concat(
                xs,
                i as int,
                result@,
                ctx@,
                env@,
                kk as nat,
            ),
        decreases args.len() - i,
    {
        proof {
            assert(decreases_to!(args => args@));
            assert(decreases_to!(args@ => args@[i as int]));
        }
        let (ar, k1) = eval_node(&args[i], ctx, env, kk);
        let v = match ar {
            Err(h) => return (Err(h), k1),
            Ok(v) => v,
        };
        let t = val_to_string(&v);
        result.append(t.as_str());
        i += 1;
        kk = k1;
    }
    (Ok(Value::String(result)), kk)
}

/// Whether `key` is among the names being resolved.
fn visited_contains(visited: &Vec<String>, key: &String) -> (r: bool)
    ensures
        r == strings_view(visited@).contains(key@),
{
    let mut i: usize = 0;
    while i < visited.len()
        invariant
            i <= visited.len(),
            forall|j: int| 0 <= j < i ==> visited@[j]@ != key@,
        decreases visited.len() - i,
    {
        if visited[i] == *key {
            assert(strings_view(visited@)[i as int] == key@);
            return true;
        }
        i += 1;
    }
    proof {
        if strings_view(visited@).contains(key@) {
            let j = choose|j: int| 0 <= j < strings_view(visited@).len() && strings_view(visited@)[j] == key@;
            assert(visited@[j]@ == key@);
        }
    }
    false
}

/// EVENT (see [`eval_event`]).
#[verifier::rlimit(60)]
fn eval_event_call(args: &Vec<AstNode>, ctx: &Context, env: &EvalEnv, k: usize) -> (r: (
    Result<Value, Halt>,
    usize,
))
    requires
        k <= env.answers.len(),
    ensures
        oview(r) == eval_event(asts_view(args@), ctx@, env@, k as nat),
        r.1 <= env.answers.len(),
    decreases args, 7int,
{
    proof {
        lemma_asts_view(args@);
    }
    if args.len() < 2 || args.len() > 3 {
        return (Err(fail(owned("EVENT requires 2 or 3 arguments"))), k);
    }
    proof {
        assert(decreases_to!(args => args@));
        assert(decreases_to!(args@ => args@[0]));
        assert(decreases_to!(args@ => args@[1]));
    }
    let (r0, k1) = eval_node(&args[0], ctx, env, k);
    let tv = match r0 {
        Err(h) => return (Err(h), k1),
        Ok(v) => v,
    };
    let (r1, k2) = eval_node(&args[1], ctx, env, k1);
    let sv = match r1 {
        Err(h) => return (Err(h), k2),
        Ok(v) => v,
    };
    let type_str = val_to_string(&tv);
    let subtype_str = val_to_string(&sv);
    if !env.has_event_resolver {
        return (Err(fail(owned("No event_resolver provided"))), k2);
    }
    let key = concat3(type_str.as_str(), ".", subtype_str.as_str());
    if visited_contains(&env.visited, &key) {
        return (Err(fail(concat2("Circular reference detected: ", key.as_str()))), k2);
    }
    let eval_ctx = if args.len() == 3 {
        match &args[2] {
            AstNode::Identifier(source_name) => match ctx.get_nested(source_name.as_str()) {
                Some(c) => c.duplicate(),
                None => {
                    return (
                        Err(fail(concat3("Nested context '", source_name.as_str(), "' not found"))),
                        k2,
                    );
                },
            },
            _ => {
                return (Err(fail(owned("EVENT third argument must be an identifier"))), k2);
            },
        }
    } else {
        ctx.duplicate()
    };
    answer_request(
        env,
        k2,
        Request::Event { event_type: type_str, subtype: subtype_str, context: eval_ctx },
    )
}


// ── how many answers an evaluation uses ──

/// The number of nodes of an expression: a bound on the requests its
/// evaluation makes.
pub open spec fn ast_size(n: SAst) -> nat
    decreases n, 0int,
{
    match n {
        SAst::Select(inner) => 1 + ast_size(*inner),
        SAst::BinaryOp { op, left, right } => 1 + ast_size(*left) + ast_size(*right),
        SAst::CaseExpr { whens, else_clause } => 1 + whens_size(whens, 0) + match else_clause {
            Some(e) => ast_size(*e),
            None => 0,
        },
        SAst::FunctionCall { name, args } => 1 + asts_size(args, 0),
        SAst::InExpr { expr, items } => 1 + ast_size(*expr) + asts_size(items, 0),
        SAst::NotInExpr { expr, items } => 1 + ast_size(*expr) + asts_size(items, 0),
        SAst::LikeExpr { expr, pattern } => 1 + ast_size(*expr) + ast_size(*pattern),
        SAst::NotLikeExpr { expr, pattern } => 1 + ast_size(*expr) + ast_size(*pattern),
        _ => 1,
    }
}

pub open spec fn asts_size(s: Seq<SAst>, i: int) -> nat
    decreases s, s.len() - i,
{
    if i < 0 || i >= s.len() {
        0
    } else {
        ast_size(s[i]) + asts_size(s, i + 1)
    }
}

pub open spec fn whens_size(s: Seq<SWhen>, i: int) -> nat
    decreases s, s.len() - i,
{
    if i < 0 || i >= s.len() {
        0
    } else {
        ast_size(s[i].condition) + ast_size(s[i].result) + whens_size(s, i + 1)
    }
}

pub open spec fn is_need<T>(r: Result<T, Stop>) -> bool {
    r matches Err(Stop::Need(_))
}

/// An evaluation step from answer `k` ends at answer `k2`, uses at most
/// `budget` answers counting a pending request, asks only when all
/// answers are used up, and asks only a resolver that there is.
pub open spec fn well_paced<T>(r: Result<T, Stop>, k: nat, k2: nat, budget: nat, env: EnvView) -> bool {
    &&& k <= k2 <= env.answers.len()
    &&& k2 + (if is_need(r) {
        1nat
    } else {
        0nat
    }) <= k + budget
    &&& is_need(r) ==> k2 == env.answers.len()
    &&& (r matches Err(Stop::Need(SRequest::Field(_))) ==> env.has_resolver)
    &&& (r matches Err(Stop::Need(SRequest::Event(_, _, _))) ==> env.has_event_resolver)
}

proof fn lemma_answer_paced(env: EnvView, k: nat, req: SRequest)
    requires
        k <= env.answers.len(),
        req is Field ==> env.has_resolver,
        req is Event ==> env.has_event_resolver,
    ensures
        well_paced(answer(env, k, req).0, k, answer(env, k, req).1, 1, env),
{
}

proof fn lemma_resolve_paced(name: Seq<char>, ctx: CtxView, env: EnvView, k: nat)
    requires
        k <= env.answers.len(),
    ensures
        well_paced(resolve(name, ctx, env, k).0, k, resolve(name, ctx, env, k).1, 1, env),
    decreases name.len(),
{
    match lookup(ctx.fields, name) {
        Some(v) => {},
        None => {
            let d = first_dot(name, 0);
            lemma_first_dot(name, 0);
            if d is Some && lookup(ctx.nested, name.subrange(0, d->0)) is Some {
                lemma_resolve_paced(
                    name.subrange(d->0 + 1, name.len() as int),
                    lookup(ctx.nested, name.subrange(0, d->0))->0,
                    env,
                    k,
                );
            } else if env.has_resolver {
                lemma_answer_paced(env, k, SRequest::Field(name));
            }
        },
    }
}

pub(crate) proof fn lemma_eval_paced(n: SAst, ctx: CtxView, env: EnvView, k: nat)
    requires
        k <= env.answers.len(),
    ensures
        well_paced(eval(n, ctx, env, k).0, k, eval(n, ctx, env, k).1, ast_size(n), env),
    decreases n, 0int,
{
    match n {
        SAst::Select(inner) => lemma_eval_paced(*inner, ctx, env, k),
        SAst::Identifier(name) => lemma_resolve_paced(name, ctx, env, k),
        SAst::BinaryOp { op, left, right } => {
            lemma_eval_paced(*left, ctx, env, k);
            let (lr, k1) = eval(*left, ctx, env, k);
            if lr is Ok {
                lemma_eval_paced(*right, ctx, env, k1);
            }
        },
        SAst::CaseExpr { whens, else_clause } => {
            lemma_whens_paced(whens, 0, ctx, env, k);
            let (wr, k1) = eval_whens(whens, 0, ctx, env, k);
            if wr == Ok::<Option<SValue>, Stop>(None) {
                if let Some(e) = else_clause {
                    lemma_eval_paced(*e, ctx, env, k1);
                }
            }
        },
        SAst::FunctionCall { name, args } => lemma_call_paced(name, args, ctx, env, k),
        SAst::InExpr { expr, items } => {
            lemma_eval_paced(*expr, ctx, env, k);
            let (er, k1) = eval(*expr, ctx, env, k);
            if let Ok(v) = er {
                lemma_in_paced(v, items, 0, ctx, env, k1);
            }
        },
        SAst::NotInExpr { expr, items } => {
            lemma_eval_paced(*expr, ctx, env, k);
            let (er, k1) = eval(*expr, ctx, env, k);
            if let Ok(v) = er {
                lemma_in_paced(v, items, 0, ctx, env, k1);
            }
        },
        SAst::LikeExpr { expr, pattern } => {
            lemma_eval_paced(*expr, ctx, env, k);
            let (er, k1) = eval(*expr, ctx, env, k);
            if er is Ok {
                lemma_eval_paced(*pattern, ctx, env, k1);
            }
        },
        SAst::NotLikeExpr { expr, pattern } => {
            lemma_eval_paced(*expr, ctx, env, k);
            let (er, k1) = eval(*expr, ctx, env, k);
            if er is Ok {
                lemma_eval_paced(*pattern, ctx, env, k1);
            }
        },
        _ => {},
    }
}

pub(crate) proof fn lemma_whens_paced(whens: Seq<SWhen>, i: int, ctx: CtxView, env: EnvView, k: nat)
    requires
        k <= env.answers.len(),
    ensures
        well_paced(
            eval_whens(whens, i, ctx, env, k).0,
            k,
            eval_whens(whens, i, ctx, env, k).1,
            whens_size(whens, i),
            env,
        ),
    decreases whens, whens.len() - i,
{
    if 0 <= i < whens.len() {
        lemma_eval_paced(whens[i].condition, ctx, env, k);
        let (cr, k1) = eval(whens[i].condition, ctx, env, k);
        if let Ok(c) = cr {
            if truthy(c) {
                lemma_eval_paced(whens[i].result, ctx, env, k1);
            } else {
                lemma_whens_paced(whens, i + 1, ctx, env, k1);
            }
        }
    }
}

pub(crate) proof fn lemma_in_paced(v: SValue, items: Seq<SAst>, i: int, ctx: CtxView, env: EnvView, k: nat)
    requires
        k <= env.answers.len(),
    ensures
        well_paced(
            eval_in(v, items, i, ctx, env, k).0,
            k,
            eval_in(v, items, i, ctx, env, k).1,
            asts_size(items, i),
            env,
        ),
    decreases items, items.len() - i,
{
    if 0 <= i < items.len() {
        lemma_eval_paced(items[i], ctx, env, k);
        let (ir, k1) = eval(items[i], ctx, env, k);
        if let Ok(iv) = ir {
            if compare_values(v, iv) != 0 {
                lemma_in_paced(v, items, i + 1, ctx, env, k1);
            }
        }
    }
}

pub(crate) proof fn lemma_coalesce_paced(args: Seq<SAst>, i: int, ctx: CtxView, env: EnvView, k: nat)
    requires
        k <= env.answers.len(),
    ensures
        well_paced(
            eval_coalesce(args, i, ctx, env, k).0,
            k,
            eval_coalesce(args, i, ctx, env, k).1,
            asts_size(args, i),
            env,
        ),
    decreases args, args.len() - i,
{
    if 0 <= i < args.len() {
        lemma_eval_paced(args[i], ctx, env, k);
        let (ar, k1) = eval(args[i], ctx, env, k);
        if let Ok(v) = ar {
            if v is Null {
                lemma_coalesce_paced(args, i + 1, ctx, env, k1);
            }
        }
    }
}

pub(crate) proof fn lemma_concat_paced(args: Seq<SAst>, i: int, acc: Seq<char>, ctx: CtxView, env: EnvView, k: nat)
    requires
        k <= env.answers.len(),
    ensures
        well_paced(
            eval_concat(args, i, acc, ctx, env, k).0,
            k,
            eval_concat(args, i, acc, ctx, env, k).1,
            asts_size(args, i),
            env,
        ),
    decreases args, args.len() - i,
{
    if 0 <= i < args.len() {
        lemma_eval_paced(args[i], ctx, env, k);
        let (ar, k1) = eval(args[i], ctx, env, k);
        if let Ok(v) = ar {
            lemma_concat_paced(args, i + 1, acc + value_text(v), ctx, env, k1);
        }
    }
}

proof fn lemma_asts_size_split(args: Seq<SAst>)
    requires
        args.len() >= 1,
    ensures
        asts_size(args, 0) >= ast_size(args[0]),
        args.len() >= 2 ==> asts_size(args, 0) >= ast_size(args[0]) + ast_size(args[1]),
{
    if args.len() >= 2 {
        assert(asts_size(args, 0) == ast_size(args[0]) + asts_size(args, 1));
        assert(asts_size(args, 1) == ast_size(args[1]) + asts_size(args, 2));
    }
}

proof fn lemma_call_paced(name: Seq<char>, args: Seq<SAst>, ctx: CtxView, env: EnvView, k: nat)
    requires
        k <= env.answers.len(),
    ensures
        well_paced(
            eval_call(name, args, ctx, env, k).0,
            k,
            eval_call(name, args, ctx, env, k).1,
            1 + asts_size(args, 0),
            env,
        ),
    decreases args, args.len() + 2,
{
    if args.len() >= 1 {
        lemma_asts_size_split(args);
    }
    if name == "ROUND"@ {
        if args.len() == 2 {
            lemma_eval_paced(args[0], ctx, env, k);
            let (r0, k1) = eval(args[0], ctx, env, k);
            if r0 is Ok {
                lemma_eval_paced(args[1], ctx, env, k1);
            }
        }
    } else if name == "COALESCE"@ {
        lemma_coalesce_paced(args, 0, ctx, env, k);
    } else if name == "UPPER"@ || name == "LOWER"@ || name == "ABS"@ {
        if args.len() == 1 {
            lemma_eval_paced(args[0], ctx, env, k);
        }
    } else if name == "CONCAT"@ {
        lemma_concat_paced(args, 0, Seq::empty(), ctx, env, k);
    } else if name == "EVENT"@ {
        if 2 <= args.len() <= 3 {
            lemma_eval_paced(args[0], ctx, env, k);
            let (r0, k1) = eval(args[0], ctx, env, k);
            if let Ok(tv) = r0 {
                lemma_eval_paced(args[1], ctx, env, k1);
                let (r1, k2) = eval(args[1], ctx, env, k1);
                if let Ok(sv) = r1 {
                    if env.has_event_resolver {
                        let ty = value_text(tv);
                        let sub = value_text(sv);
                        if args.len() == 3 {
                            if let SAst::Identifier(src) = args[2] {
                                if let Some(c) = lookup(ctx.nested, src) {
                                    lemma_answer_paced(env, k2, SRequest::Event(ty, sub, c));
                                }
                            }
                        } else {
                            lemma_answer_paced(env, k2, SRequest::Event(ty, sub, ctx));
                        }
                    }
                }
            }
        }
    }
}


// ── the evaluator ──

/// The model of one round of evaluation.
pub enum SStep {
    Done(Result<SValue, Seq<char>>),
    Need(SRequest),
}

/// One round of evaluation with the answers so far: the result, or the
/// next request to answer.
pub open spec fn spec_step(n: SAst, ctx: CtxView, env: EnvView) -> SStep {
    match eval(n, ctx, env, 0).0 {
        Ok(v) => SStep::Done(Ok(v)),
        Err(Stop::Fail(m)) => SStep::Done(Err(m)),
        Err(Stop::Need(q)) => SStep::Need(q),
    }
}

/// What one round of evaluation gives.
#[derive(Debug)]
pub enum Step {
    Done(Result<Value, DsqlexError>),
    Need(Request),
}

impl View for Step {
    type V = SStep;

    open spec fn view(&self) -> SStep {
        match self {
            Step::Done(r) => SStep::Done(result_view(*r)),
            Step::Need(q) => SStep::Need(q@),
        }
    }
}

/// Evaluates an expression as far as the answers in `env` allow: its
/// value or error, or the next request for a resolver.
pub fn evaluate_step(ast: &AstNode, ctx: &Context, env: &EvalEnv) -> (r: Step)
    ensures
        r@ == spec_step(ast@, ctx@, env@),
{
    let (res, _k) = eval_node(ast, ctx, env, 0);
    match res {
        Ok(v) => Step::Done(Ok(v)),
        Err(Halt::Fail(e)) => Step::Done(Err(e)),
        Err(Halt::Need(q)) => Step::Need(q),
    }
}

/// The environment of evaluation without resolvers.
pub open spec fn plain_env() -> EnvView {
    EnvView {
        has_resolver: false,
        has_event_resolver: false,
        visited: Seq::empty(),
        answers: Seq::empty(),
    }
}

/// The value of an expression in a context without resolvers, or the error.
pub open spec fn spec_evaluate_plain(n: SAst, ctx: CtxView) -> Result<SValue, Seq<char>> {
    match eval(n, ctx, plain_env(), 0).0 {
        Ok(v) => Ok(v),
        Err(Stop::Fail(m)) => Err(m),
        Err(Stop::Need(_)) => Err(Seq::empty()),
    }
}

/// Without resolvers, evaluation never asks for anything.
pub proof fn lemma_plain_never_asks(n: SAst, ctx: CtxView)
    ensures
        !is_need(eval(n, ctx, plain_env(), 0).0),
{
    lemma_eval_paced(n, ctx, plain_env(), 0);
}

/// Evaluates an expression in a context without resolvers: an unknown
/// name is an error, and so is EVENT.
pub fn evaluate_plain(ast: &AstNode, ctx: &Context) -> (r: Result<Value, DsqlexError>)
    ensures
        result_view(r) == spec_evaluate_plain(ast@, ctx@),
{
    let env = EvalEnv {
        has_resolver: false,
        has_event_resolver: false,
        visited: Vec::new(),
        answers: Vec::new(),
    };
    proof {
        assert(env@.visited =~= Seq::<Seq<char>>::empty());
        assert(env@.answers =~= Seq::<Result<SValue, Seq<char>>>::empty());
        assert(env@ =~= plain_env());
        lemma_plain_never_asks(ast@, ctx@);
    }
    match evaluate_step(ast, ctx, &env) {
        Step::Done(r) => r,
        Step::Need(_) => Err(DsqlexError(String::new())),
    }
}

/// Options of evaluation: a resolver for names the context lacks, a
/// resolver for events, and the names already being resolved (handed to
/// both, and refused as events).
pub struct EvalOptions<R, E> {
    pub resolver: Option<R>,
    pub event_resolver: Option<E>,
    pub visited: Vec<String>,
}

/// No resolvers and no names being resolved.
impl<R, E> Default for EvalOptions<R, E> {
    fn default() -> (r: Self)
        ensures
            r.resolver is None,
            r.event_resolver is None,
            r.visited@.len() == 0,
    {
        EvalOptions { resolver: None, event_resolver: None, visited: Vec::new() }
    }
}

/// The environment for options and the answers so far.
pub open spec fn options_env<R, E>(
    opts: &EvalOptions<R, E>,
    answers: Seq<Result<SValue, Seq<char>>>,
) -> EnvView {
    EnvView {
        has_resolver: opts.resolver is Some,
        has_event_resolver: opts.event_resolver is Some,
        visited: strings_view(opts.visited@),
        answers,
    }
}

/// Whether `ans` is a reply that the resolvers of `opts` may give to `req`.
pub open spec fn resolver_reply<R, E>(
    opts: &EvalOptions<R, E>,
    req: SRequest,
    ans: Result<SValue, Seq<char>>,
) -> bool where
    R: Fn(&str, &Vec<String>) -> Result<Value, DsqlexError>,
    E: Fn(&str, &str, &Context, &Vec<String>) -> Result<Value, DsqlexError>,
 {
    match req {
        SRequest::Field(name) => opts.resolver matches Some(f) && exists|
            s: &str,
            x: Result<Value, DsqlexError>,
        |
            #![trigger f.ensures((s, &opts.visited), x)]
            s@ == name && f.ensures((s, &opts.visited), x) && result_view(x) == ans,
        SRequest::Event(ty, sub, c) => opts.event_resolver matches Some(g) && exists|
            t: &str,
            u: &str,
            cx: &Context,
            x: Result<Value, DsqlexError>,
        |
            #![trigger g.ensures((t, u, cx, &opts.visited), x)]
            t@ == ty && u@ == sub && cx@ == c && g.ensures((t, u, cx, &opts.visited), x)
                && result_view(x) == ans,
    }
}

/// Whether `answers` are the resolvers' replies, in order, to the requests
/// that evaluating `n` makes.
pub open spec fn are_replies<R, E>(
    n: SAst,
    ctx: CtxView,
    opts: &EvalOptions<R, E>,
    answers: Seq<Result<SValue, Seq<char>>>,
) -> bool where
    R: Fn(&str, &Vec<String>) -> Result<Value, DsqlexError>,
    E: Fn(&str, &str, &Context, &Vec<String>) -> Result<Value, DsqlexError>,
 {
    forall|j: int|
        0 <= j < answers.len() ==> match #[trigger] spec_step(
            n,
            ctx,
            options_env(opts, answers.take(j)),
        ) {
            SStep::Need(q) => resolver_reply(opts, q, answers[j]),
            SStep::Done(_) => false,
        }
}

proof fn lemma_strings_view_push(s: Seq<String>, x: String)
    ensures
        strings_view(s.push(x)) == strings_view(s).push(x@),
{
    assert(strings_view(s.push(x)) =~= strings_view(s).push(x@));
}

fn copy_strings(v: &Vec<String>) -> (r: Vec<String>)
    ensures
        strings_view(r@) == strings_view(v@),
{
    let mut r: Vec<String> = Vec::new();
    let mut i: usize = 0;
    while i < v.len()
        invariant
            i <= v.len(),
            strings_view(r@) == strings_view(v@).take(i as int),
        decreases v.len() - i,
    {
        let s = v[i].clone();
        let ghost before = r@;
        r.push(s);
        proof {
            lemma_strings_view_push(before, s);
            assert(strings_view(v@)[i as int] == s@);
            assert(strings_view(r@) =~= strings_view(v@).take(i + 1));
        }
        i += 1;
    }
    assert(strings_view(v@).take(v.len() as int) =~= strings_view(v@));
    r
}

/// Evaluates an expression, asking the resolvers of `opts` for the names
/// the context lacks and for events. The result is that of evaluating
/// with the resolvers' replies, each request answered in the order made.
pub fn evaluate<R, E>(ast: &AstNode, ctx: &Context, opts: &EvalOptions<R, E>) -> (r: Result<
    Value,
    DsqlexError,
>) where
    R: Fn(&str, &Vec<String>) -> Result<Value, DsqlexError>,
    E: Fn(&str, &str, &Context, &Vec<String>) -> Result<Value, DsqlexError>,

    requires
        opts.resolver matches Some(f) ==> forall|a: &str, b: &Vec<String>| #[trigger]
            f.requires((a, b)),
        opts.event_resolver matches Some(g) ==> forall|
            a: &str,
            b: &str,
            c: &Context,
            d: &Vec<String>,
        | #[trigger] g.requires((a, b, c, d)),
    ensures
        exists|answers: Seq<Result<SValue, Seq<char>>>|
            are_replies(ast@, ctx@, opts, answers) && spec_step(
                ast@,
                ctx@,
                options_env(opts, answers),
            ) == SStep::Done(result_view(r)),
{
    let mut env = EvalEnv {
        has_resolver: opts.resolver.is_some(),
        has_event_resolver: opts.event_resolver.is_some(),
        visited: copy_strings(&opts.visited),
        answers: Vec::new(),
    };
    let ghost size = ast_size(ast@);
    proof {
        assert(env@.answers =~= Seq::<Result<SValue, Seq<char>>>::empty());
        assert(env@ =~= options_env(opts, Seq::empty()));
    }
    loop
        invariant
            env@ == options_env(opts, env@.answers),
            are_replies(ast@, ctx@, opts, env@.answers),
            env.answers.len() <= size,
            size == ast_size(ast@),
            opts.resolver matches Some(f) ==> forall|a: &str, b: &Vec<String>| #[trigger]
                f.requires((a, b)),
            opts.event_resolver matches Some(g) ==> forall|
                a: &str,
                b: &str,
                c: &Context,
                d: &Vec<String>,
            | #[trigger] g.requires((a, b, c, d)),
        decreases size - env.answers.len(),
    {
        let ghost before = env@.answers;
        let ghost env0 = env@;
        match evaluate_step(ast, ctx, &env) {
            Step::Done(r) => {
                return r;
            },
            Step::Need(req) => {
                proof {
                    lemma_eval_paced(ast@, ctx@, env@, 0);
                }
                let ans = match &req {
                    Request::Field { name } => match &opts.resolver {
                        Some(f) => {
                            let x = f(name.as_str(), &opts.visited);
                            proof {
                                assert(resolver_reply(opts, req@, result_view(x)));
                            }
                            x
                        },
                        None => {
                            proof {
                                assert(false);
                            }
                            Err(DsqlexError(String::new()))
                        },
                    },
                    Request::Event { event_type, subtype, context } => match &opts.event_resolver {
                        Some(g) => {
                            let x = g(event_type.as_str(), subtype.as_str(), context, &opts.visited);
                            proof {
                                assert(resolver_reply(opts, req@, result_view(x)));
                            }
                            x
                        },
                        None => {
                            proof {
                                assert(false);
                            }
                            Err(DsqlexError(String::new()))
                        },
                    },
                };
                let ghost a = result_view(ans);
                env.answers.push(ans);
                proof {
                    let after = env@.answers;
                    assert(after =~= before.push(a));
                    assert(env@ =~= options_env(opts, after));
                    assert forall|j: int| 0 <= j < after.len() implies match #[trigger] spec_step(
                        ast@,
                        ctx@,
                        options_env(opts, after.take(j)),
                    ) {
                        SStep::Need(q) => resolver_reply(opts, q, after[j]),
                        SStep::Done(_) => false,
                    } by {
                        if j < before.len() {
                            assert(after.take(j) =~= before.take(j));
                        } else {
                            assert(after.take(j) =~= before);
                            assert(options_env(opts, before) == env0);
                        }
                    }
                }
            },
        }
    }
}

} // verus!
