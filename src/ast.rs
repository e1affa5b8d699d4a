use vstd::prelude::*;

use crate::number::{BigNumber, Number};
use crate::text::Text;

verus! {

broadcast use vstd::std_specs::vec::group_vec_axioms;

/// A place in the source text.
#[derive(Debug, Clone, Copy, PartialEq, Eq, Structural)]
pub struct Pos {
    pub line: usize,
    pub column: usize,
}

/// A literal value.
///
/// A floating-point literal is held as its source text; an object holds its
/// entries sorted by key, each key once.
#[derive(Debug, PartialEq)]
pub enum Value<'a, T: Text<'a>> {
    Variable(T::Value),
    BigInt(BigNumber),
    Int(Number),
    Float(T::Value),
    String(String),
    Boolean(bool),
    Null,
    Enum(T::Value),
    List(Vec<Value<'a, T>>),
    Object(Vec<(T::Value, Value<'a, T>)>),
}

/// What a `Value` stands for, with names read as characters.
pub enum ValueModel {
    Variable(Seq<char>),
    BigInt(u128),
    Int(u64),
    Float(Seq<char>),
    Str(Seq<char>),
    Boolean(bool),
    Null,
    Enum(Seq<char>),
    List(Seq<ValueModel>),
    Object(Seq<(Seq<char>, ValueModel)>),
}

/// Three-way comparison of two names, character by character (the order of `str`).
pub open spec fn cmp_text(a: Seq<char>, b: Seq<char>) -> int
    decreases a.len(),
{
    if a.len() == 0 {
        if b.len() == 0 { 0 } else { -1 }
    } else if b.len() == 0 {
        1
    } else if (a[0] as u32) == (b[0] as u32) {
        cmp_text(a.drop_first(), b.drop_first())
    } else if (a[0] as u32) < (b[0] as u32) {
        -1
    } else {
        1
    }
}

/// Each object key comes before the next in `str` order, so keys are
/// sorted and none is repeated.
pub open spec fn keys_ascending(o: Seq<(Seq<char>, ValueModel)>) -> bool {
    forall|i: int| 0 <= i < o.len() - 1 ==> cmp_text(#[trigger] o[i].0, o[i + 1].0) < 0
}

impl ValueModel {
    /// The part of the value reached by following `path`: each step picks a
    /// list item or an object entry by its index.
    pub open spec fn at_path(self, path: Seq<int>) -> Option<ValueModel>
        decreases path.len(),
    {
        if path.len() == 0 {
            Some(self)
        } else {
            match self {
                ValueModel::List(s) => if 0 <= path[0] < s.len() {
                    s[path[0]].at_path(path.drop_first())
                } else {
                    None
                },
                ValueModel::Object(o) => if 0 <= path[0] < o.len() {
                    o[path[0]].1.at_path(path.drop_first())
                } else {
                    None
                },
                _ => None,
            }
        }
    }

    /// Every object in the value, at any depth, has ascending keys.
    pub open spec fn wf(self) -> bool {
        forall|path: Seq<int>| object_ok(#[trigger] self.at_path(path))
    }
}

/// An object has ascending keys; anything else passes.
pub open spec fn object_ok(m: Option<ValueModel>) -> bool {
    match m {
        Some(ValueModel::Object(o)) => keys_ascending(o),
        _ => true,
    }
}

impl<'a, T: Text<'a>> Value<'a, T> {
    /// Every object in the value, at any depth, has ascending keys.
    pub open spec fn wf(&self) -> bool {
        self.model().wf()
    }

    pub open spec fn model(&self) -> ValueModel
        decreases self,
    {
        match self {
            Value::Variable(n) => ValueModel::Variable(T::text_view(n)),
            Value::BigInt(b) => ValueModel::BigInt(b.0),
            Value::Int(i) => ValueModel::Int(i.0),
            Value::Float(f) => ValueModel::Float(T::text_view(f)),
            Value::String(s) => ValueModel::Str(s@),
            Value::Boolean(b) => ValueModel::Boolean(*b),
            Value::Null => ValueModel::Null,
            Value::Enum(n) => ValueModel::Enum(T::text_view(n)),
            Value::List(l) => ValueModel::List(
                Seq::new(l.len() as nat, |i: int| if 0 <= i < l.len() { l[i].model() } else { ValueModel::Null }),
            ),
            Value::Object(o) => ValueModel::Object(
                Seq::new(
                    o.len() as nat,
                    |i: int|
                        if 0 <= i < o.len() {
                            (T::text_view(&o[i].0), o[i].1.model())
                        } else {
                            (Seq::empty(), ValueModel::Null)
                        },
                ),
            ),
        }
    }
}

impl<'a, T: Text<'a>> Value<'a, T> {
    /// A copy that owns its names, standing for the same value.
    pub fn into_static(&self) -> (r: Value<'static, String>)
        ensures
            r.model() == self.model(),
            self.wf() ==> r.wf(),
        decreases self,
    {
        match self {
            Value::Variable(v) => {
                let x = String::from_str(T::as_text(v));
                assert(<String as Text<'static>>::text_view(&x) == x@);
                let r = Value::<'static, String>::Variable(x);
                assert(r.model() == ValueModel::Variable(x@));
                assert(self.model() == ValueModel::Variable(T::text_view(v)));
                r
            },
            Value::BigInt(i) => Value::BigInt(*i),
            Value::Int(i) => Value::Int(*i),
            Value::Float(f) => {
                let x = String::from_str(T::as_text(f));
                assert(<String as Text<'static>>::text_view(&x) == x@);
                Value::Float(x)
            },
            Value::String(s) => {
                let c = s.clone();
                assert(c@ == s@);
                Value::String(c)
            },
            Value::Boolean(b) => Value::Boolean(*b),
            Value::Null => Value::Null,
            Value::Enum(v) => {
                let x = String::from_str(T::as_text(v));
                assert(<String as Text<'static>>::text_view(&x) == x@);
                Value::Enum(x)
            },
            Value::List(l) => {
                let mut out: Vec<Value<'static, String>> = Vec::new();
                let mut i: usize = 0;
                while i < l.len()
                    invariant
                        *self is List && self->List_0 == *l,
                        i <= l.len(),
                        out@.len() == i,
                        forall|j: int| 0 <= j < i ==> #[trigger] out@[j].model() == l@[j].model(),
                    decreases l.len() - i,
                {
                    proof {
                        vstd::std_specs::vec::axiom_vec_index_decreases(*l, i as int);
                        assert(decreases_to!(*self => self->List_0));
                        assert(decreases_to!(*self => l[i as int]));
                    }
                    out.push(l[i].into_static());
                    i += 1;
                }
                proof {
                    lemma_list_model::<'a, T>(*l);
                    lemma_list_model::<'static, String>(out);
                    assert(Seq::new(out@.len(), |j: int| out@[j].model()) =~= Seq::new(
                        l@.len(),
                        |j: int| l@[j].model(),
                    ));
                }
                assert(*self == Value::<'a, T>::List(*l));
                let r = Value::<'static, String>::List(out);
                assert(r.model() == self.model());
                r
            },
            Value::Object(o) => {
                let mut out: Vec<(String, Value<'static, String>)> = Vec::new();
                let mut i: usize = 0;
                while i < o.len()
                    invariant
                        *self is Object && self->Object_0 == *o,
                        i <= o.len(),
                        out@.len() == i,
                        forall|j: int|
                            0 <= j < i ==> #[trigger] out@[j].1.model() == o@[j].1.model()
                                && out@[j].0@ == T::text_view(&o@[j].0),
                    decreases o.len() - i,
                {
                    let k = String::from_str(T::as_text(&o[i].0));
                    proof {
                        vstd::std_specs::vec::axiom_vec_index_decreases(*o, i as int);
                        assert(decreases_to!(*self => self->Object_0));
                        assert(decreases_to!(*self => o[i as int].1));
                        assert(<String as Text<'static>>::text_view(&k) == k@);
                    }
                    out.push((k, o[i].1.into_static()));
                    i += 1;
                }
                proof {
                    lemma_object_model::<'a, T>(*o);
                    lemma_object_model::<'static, String>(out);
                    assert(Seq::new(
                        out@.len(),
                        |j: int| (<String as Text<'static>>::text_view(&out@[j].0), out@[j].1.model()),
                    ) =~= Seq::new(
                        o@.len(),
                        |j: int| (T::text_view(&o@[j].0), o@[j].1.model()),
                    ));
                }
                assert(*self == Value::<'a, T>::Object(*o));
                let r = Value::<'static, String>::Object(out);
                assert(r.model() == self.model());
                r
            },
        }
    }
}

impl<'a, T: Text<'a>> Clone for Value<'a, T> {
    fn clone(&self) -> (r: Self)
        ensures
            r.model() == self.model(),
        decreases self,
    {
        match self {
            Value::Variable(v) => Value::Variable(T::copy_text(v)),
            Value::BigInt(i) => Value::BigInt(*i),
            Value::Int(i) => Value::Int(*i),
            Value::Float(f) => Value::Float(T::copy_text(f)),
            Value::String(s) => Value::String(s.clone()),
            Value::Boolean(b) => Value::Boolean(*b),
            Value::Null => Value::Null,
            Value::Enum(v) => Value::Enum(T::copy_text(v)),
            Value::List(l) => {
                let mut out: Vec<Value<'a, T>> = Vec::new();
                let mut i: usize = 0;
                while i < l.len()
                    invariant
                        *self is List && self->List_0 == *l,
                        i <= l.len(),
                        out@.len() == i,
                        forall|j: int| 0 <= j < i ==> #[trigger] out@[j].model() == l@[j].model(),
                    decreases l.len() - i,
                {
                    proof {
                        vstd::std_specs::vec::axiom_vec_index_decreases(*l, i as int);
                    }
                    out.push(l[i].clone());
                    i += 1;
                }
                proof {
                    lemma_list_model::<'a, T>(*l);
                    lemma_list_model::<'a, T>(out);
                    assert(Seq::new(out@.len(), |j: int| out@[j].model()) =~= Seq::new(
                        l@.len(),
                        |j: int| l@[j].model(),
                    ));
                }
                Value::List(out)
            },
            Value::Object(o) => {
                let mut out: Vec<(T::Value, Value<'a, T>)> = Vec::new();
                let mut i: usize = 0;
                while i < o.len()
                    invariant
                        *self is Object && self->Object_0 == *o,
                        i <= o.len(),
                        out@.len() == i,
                        forall|j: int|
                            0 <= j < i ==> #[trigger] out@[j].1.model() == o@[j].1.model()
                                && T::text_view(&out@[j].0) == T::text_view(&o@[j].0),
                    decreases o.len() - i,
                {
                    proof {
                        vstd::std_specs::vec::axiom_vec_index_decreases(*o, i as int);
                    }
                    let k = T::copy_text(&o[i].0);
                    out.push((k, o[i].1.clone()));
                    i += 1;
                }
                proof {
                    lemma_object_model::<'a, T>(*o);
                    lemma_object_model::<'a, T>(out);
                    assert(Seq::new(out@.len(), |j: int| (T::text_view(&out@[j].0), out@[j].1.model()))
                        =~= Seq::new(o@.len(), |j: int| (T::text_view(&o@[j].0), o@[j].1.model())));
                }
                Value::Object(out)
            },
        }
    }
}

/// A type reference: a named type, a list of a type, or a non-null type.
#[derive(Debug, PartialEq)]
pub enum Type<'a, T: Text<'a>> {
    NamedType(T::Value),
    ListType(Box<Type<'a, T>>),
    NonNullType(Box<Type<'a, T>>),
}

/// What a `Type` stands for, with names read as characters.
pub enum TypeModel {
    Named(Seq<char>),
    List(Box<TypeModel>),
    NonNull(Box<TypeModel>),
}

impl<'a, T: Text<'a>> Type<'a, T> {
    pub open spec fn model(&self) -> TypeModel
        decreases self,
    {
        match self {
            Type::NamedType(n) => TypeModel::Named(T::text_view(n)),
            Type::ListType(t) => TypeModel::List(Box::new(t.model())),
            Type::NonNullType(t) => TypeModel::NonNull(Box::new(t.model())),
        }
    }
}

impl<'a, T: Text<'a>> Clone for Type<'a, T> {
    fn clone(&self) -> (r: Self)
        ensures
            r.model() == self.model(),
        decreases self,
    {
        match self {
            Type::NamedType(n) => Type::NamedType(T::copy_text(n)),
            Type::ListType(t) => {
                let c: Type<'a, T> = (**t).clone();
                Type::ListType(Box::new(c))
            },
            Type::NonNullType(t) => {
                let c: Type<'a, T> = (**t).clone();
                Type::NonNullType(Box::new(c))
            },
        }
    }
}

/// A directive `@name(arguments)`, with the place of its `@`.
#[derive(Debug, Clone, PartialEq)]
pub struct Directive<'a, T: Text<'a>> {
    pub position: Pos,
    pub name: T::Value,
    pub arguments: Vec<(T::Value, Value<'a, T>)>,
}

/// What a `Directive` stands for.
pub struct DirectiveModel {
    pub position: Pos,
    pub name: Seq<char>,
    pub arguments: Seq<(Seq<char>, ValueModel)>,
}

impl<'a, T: Text<'a>> Directive<'a, T> {
    pub open spec fn model(&self) -> DirectiveModel {
        DirectiveModel {
            position: self.position,
            name: T::text_view(&self.name),
            arguments: Seq::new(
                self.arguments@.len(),
                |i: int| (T::text_view(&self.arguments@[i].0), self.arguments@[i].1.model()),
            ),
        }
    }
}

/// A list's model is the models of its items, in order.
pub proof fn lemma_list_model<'a, T: Text<'a>>(l: Vec<Value<'a, T>>)
    ensures
        Value::<'a, T>::List(l).model() == ValueModel::List(Seq::new(l@.len(), |i: int| l@[i].model())),
{
    let r = Value::<'a, T>::List(l);
    assert forall|i: int| 0 <= i < l@.len() implies #[trigger] r.model()->List_0[i] == l@[i].model() by {
        assert(r.model()->List_0[i] == l[i].model());
    }
    assert(r.model()->List_0 =~= Seq::new(l@.len(), |i: int| l@[i].model()));
}

/// An object's model is its entries' names and models, in order.
pub proof fn lemma_object_model<'a, T: Text<'a>>(o: Vec<(T::Value, Value<'a, T>)>)
    ensures
        Value::<'a, T>::Object(o).model() == ValueModel::Object(
            Seq::new(o@.len(), |i: int| (T::text_view(&o@[i].0), o@[i].1.model())),
        ),
{
    let r = Value::<'a, T>::Object(o);
    assert forall|i: int| 0 <= i < o@.len() implies #[trigger] r.model()->Object_0[i] == (
        T::text_view(&o@[i].0),
        o@[i].1.model(),
    ) by {
        assert(r.model()->Object_0[i] == (T::text_view(&o[i].0), o[i].1.model()));
    }
    assert(r.model()->Object_0 =~= Seq::new(
        o@.len(),
        |i: int| (T::text_view(&o@[i].0), o@[i].1.model()),
    ));
}

} // verus!
