use vstd::prelude::*;

use crate::ast::{cmp_text, keys_ascending, object_ok, Directive, DirectiveModel, Pos, Type, TypeModel, Value, ValueModel};
use crate::block::{block_unquoted, unquote_block_string};
use crate::chars::chars_of;
use crate::literal::{unquote_string, unquoted};
use crate::number::{decimal_value, is_decimal, parse_u128, parse_u64, BigNumber, Number};
use crate::text::Text;
use crate::token::{
    Kind, TokenStream, error_at, fail_at, is_name, is_punct, pos_at, punct_at, ErrorKind, ParseError, Parsed, Token,
};

verus! {

broadcast use vstd::std_specs::vec::group_vec_axioms;

/// Object entries after setting key `k` to `v`: an entry with key `k` is
/// replaced, else the entry goes before the first greater key.
pub open spec fn insert_entry(m: Seq<(Seq<char>, ValueModel)>, k: Seq<char>, v: ValueModel) -> Seq<
    (Seq<char>, ValueModel),
>
    decreases m.len(),
{
    if m.len() == 0 {
        seq![(k, v)]
    } else if cmp_text(k, m[0].0) == 0 {
        seq![(k, v)] + m.drop_first()
    } else if cmp_text(k, m[0].0) < 0 {
        seq![(k, v)] + m
    } else {
        seq![m[0]] + insert_entry(m.drop_first(), k, v)
    }
}

/// The entries of an object whose fields are `fs`, in source order.
pub open spec fn entries_of(fs: Seq<(Seq<char>, ValueModel)>) -> Seq<(Seq<char>, ValueModel)>
    decreases fs.len(),
{
    if fs.len() == 0 {
        Seq::empty()
    } else {
        insert_entry(entries_of(fs.drop_last()), fs.last().0, fs.last().1)
    }
}

/// The models of the entries of an object.
pub open spec fn entries_model<'a, T: Text<'a>>(o: Seq<(T::Value, Value<'a, T>)>) -> Seq<
    (Seq<char>, ValueModel),
> {
    Seq::new(o.len(), |i: int| (T::text_view(&o[i].0), o[i].1.model()))
}

/// The models of the items of a list.
pub open spec fn items_model<'a, T: Text<'a>>(l: Seq<Value<'a, T>>) -> Seq<ValueModel> {
    Seq::new(l.len(), |i: int| l[i].model())
}

/// A literal that is one token: a keyword, an enum symbol, a number or a string.
pub open spec fn scalar_at(toks: Seq<Token>, p: int) -> Parsed<ValueModel> {
    if !(0 <= p < toks.len()) {
        Parsed::Failed(ErrorKind::UnexpectedEnd, p)
    } else {
        let v = toks[p].value@;
        match toks[p].kind {
            crate::token::Kind::Name => Parsed::Done(
                if v == "true"@ {
                    ValueModel::Boolean(true)
                } else if v == "false"@ {
                    ValueModel::Boolean(false)
                } else if v == "null"@ {
                    ValueModel::Null
                } else {
                    ValueModel::Enum(v)
                },
                p + 1,
            ),
            crate::token::Kind::IntValue => if is_decimal(v) && decimal_value(v) <= u64::MAX {
                Parsed::Done(ValueModel::Int(decimal_value(v) as u64), p + 1)
            } else {
                Parsed::Failed(ErrorKind::BadNumber, p)
            },
            crate::token::Kind::FloatValue => Parsed::Done(ValueModel::Float(v), p + 1),
            crate::token::Kind::BigIntValue => if is_decimal(v) && decimal_value(v) <= u128::MAX {
                Parsed::Done(ValueModel::BigInt(decimal_value(v) as u128), p + 1)
            } else {
                Parsed::Failed(ErrorKind::BadNumber, p)
            },
            crate::token::Kind::StringValue => match unquoted(v) {
                Ok(s) => Parsed::Done(ValueModel::Str(s), p + 1),
                Err(e) => Parsed::Failed(ErrorKind::BadString(e), p),
            },
            crate::token::Kind::BlockString => match block_unquoted(v) {
                Ok(s) => Parsed::Done(ValueModel::Str(s), p + 1),
                Err(e) => Parsed::Failed(ErrorKind::BadString(e), p),
            },
            crate::token::Kind::Punctuator => Parsed::Failed(ErrorKind::UnexpectedToken, p),
        }
    }
}

/// A value at token `p`; `vars` says whether `$name` may stand there.
pub open spec fn value_at(toks: Seq<Token>, p: int, vars: bool) -> Parsed<ValueModel>
    decreases toks.len() - p, 0int,
{
    if !(0 <= p < toks.len()) {
        Parsed::Failed(ErrorKind::UnexpectedEnd, p)
    } else if toks[p].kind != crate::token::Kind::Punctuator {
        scalar_at(toks, p)
    } else if vars && is_punct(toks, p, '$') {
        if is_name(toks, p + 1) {
            Parsed::Done(ValueModel::Variable(toks[p + 1].value@), p + 2)
        } else {
            fail_at(toks, p + 1)
        }
    } else if is_punct(toks, p, '[') {
        match items_at(toks, p + 1, vars) {
            Parsed::Done(s, q) => Parsed::Done(ValueModel::List(s), q),
            Parsed::Failed(e, i) => Parsed::Failed(e, i),
        }
    } else if is_punct(toks, p, '{') {
        match fields_at(toks, p + 1, vars, '}') {
            Parsed::Done(fs, q) => Parsed::Done(ValueModel::Object(entries_of(fs)), q),
            Parsed::Failed(e, i) => Parsed::Failed(e, i),
        }
    } else {
        Parsed::Failed(ErrorKind::UnexpectedToken, p)
    }
}

/// List items from token `p` up to and including the closing `]`.
pub open spec fn items_at(toks: Seq<Token>, p: int, vars: bool) -> Parsed<Seq<ValueModel>>
    decreases toks.len() - p, 1int,
{
    if !(0 <= p < toks.len()) {
        Parsed::Failed(ErrorKind::UnexpectedEnd, p)
    } else if is_punct(toks, p, ']') {
        Parsed::Done(Seq::empty(), p + 1)
    } else {
        match value_at(toks, p, vars) {
            Parsed::Done(v, q) => if p < q <= toks.len() {
                match items_at(toks, q, vars) {
                    Parsed::Done(s, r) => Parsed::Done(seq![v] + s, r),
                    Parsed::Failed(e, i) => Parsed::Failed(e, i),
                }
            } else {
                Parsed::Failed(ErrorKind::UnexpectedToken, p)
            },
            Parsed::Failed(e, i) => Parsed::Failed(e, i),
        }
    }
}

/// `name: value` pairs from token `p` up to and including `close`, in source order.
pub open spec fn fields_at(toks: Seq<Token>, p: int, vars: bool, close: char) -> Parsed<
    Seq<(Seq<char>, ValueModel)>,
>
    decreases toks.len() - p, 1int,
{
    if !(0 <= p < toks.len()) {
        Parsed::Failed(ErrorKind::UnexpectedEnd, p)
    } else if is_punct(toks, p, close) {
        Parsed::Done(Seq::empty(), p + 1)
    } else if !is_name(toks, p) {
        Parsed::Failed(ErrorKind::UnexpectedToken, p)
    } else if !is_punct(toks, p + 1, ':') {
        fail_at(toks, p + 1)
    } else {
        match value_at(toks, p + 2, vars) {
            Parsed::Done(v, q) => if p < q <= toks.len() {
                match fields_at(toks, q, vars, close) {
                    Parsed::Done(s, r) => Parsed::Done(seq![(toks[p].value@, v)] + s, r),
                    Parsed::Failed(e, i) => Parsed::Failed(e, i),
                }
            } else {
                Parsed::Failed(ErrorKind::UnexpectedToken, p)
            },
            Parsed::Failed(e, i) => Parsed::Failed(e, i),
        }
    }
}

/// Where `$name` stands, a value is a variable reference, while a default
/// value fails on the `$` as an unexpected token.
pub proof fn lemma_variables_only_in_values(toks: Seq<Token>, p: int)
    requires
        is_punct(toks, p, '$'),
        is_name(toks, p + 1),
    ensures
        value_at(toks, p, true) == Parsed::<ValueModel>::Done(
            ValueModel::Variable(toks[p + 1].value@),
            p + 2,
        ),
        value_at(toks, p, false) == Parsed::<ValueModel>::Failed(ErrorKind::UnexpectedToken, p),
{
    assert(seq!['$'] != seq!['[']) by {
        assert(seq!['$'][0] != seq!['['][0]);
    }
    assert(seq!['$'] != seq!['{']) by {
        assert(seq!['$'][0] != seq!['{'][0]);
    }
}

/// Swapping the names negates their comparison.
proof fn lemma_cmp_antisym(a: Seq<char>, b: Seq<char>)
    ensures
        cmp_text(a, b) == -cmp_text(b, a),
    decreases a.len(),
{
    if a.len() > 0 && b.len() > 0 && (a[0] as u32) == (b[0] as u32) {
        lemma_cmp_antisym(a.drop_first(), b.drop_first());
    }
}

/// Names that compare equal compare alike with any third name.
proof fn lemma_cmp_zero(a: Seq<char>, b: Seq<char>, c: Seq<char>)
    requires
        cmp_text(a, b) == 0,
    ensures
        cmp_text(a, c) == cmp_text(b, c),
    decreases a.len(),
{
    if a.len() > 0 && c.len() > 0 && (a[0] as u32) == (c[0] as u32) {
        lemma_cmp_zero(a.drop_first(), b.drop_first(), c.drop_first());
    }
}

/// Whether every value among the entries is well formed.
pub open spec fn values_wf(o: Seq<(Seq<char>, ValueModel)>) -> bool {
    forall|i: int| 0 <= i < o.len() ==> #[trigger] o[i].1.wf()
}

/// Setting a key keeps the keys ascending and the values well formed.
proof fn lemma_insert_wf(m: Seq<(Seq<char>, ValueModel)>, k: Seq<char>, v: ValueModel)
    requires
        keys_ascending(m),
        values_wf(m),
        v.wf(),
    ensures
        keys_ascending(insert_entry(m, k, v)),
        values_wf(insert_entry(m, k, v)),
        insert_entry(m, k, v).len() > 0,
        insert_entry(m, k, v)[0].0 == k || (m.len() > 0 && insert_entry(m, k, v)[0].0 == m[0].0),
    decreases m.len(),
{
    let r = insert_entry(m, k, v);
    if m.len() == 0 {
    } else if cmp_text(k, m[0].0) == 0 {
        assert forall|i: int| 0 <= i < r.len() - 1 implies cmp_text(#[trigger] r[i].0, r[i + 1].0)
            < 0 by {
            assert(r[i + 1] == m[i + 1]);
            if i > 0 {
                assert(r[i] == m[i]);
            } else {
                lemma_cmp_zero(k, m[0].0, m[1].0);
            }
        }
        assert forall|i: int| 0 <= i < r.len() implies #[trigger] r[i].1.wf() by {
            if i > 0 {
                assert(r[i] == m[i]);
            }
        }
    } else if cmp_text(k, m[0].0) < 0 {
        assert forall|i: int| 0 <= i < r.len() - 1 implies cmp_text(#[trigger] r[i].0, r[i + 1].0)
            < 0 by {
            assert(r[i + 1] == m[i]);
            if i > 0 {
                assert(r[i] == m[i - 1]);
            }
        }
        assert forall|i: int| 0 <= i < r.len() implies #[trigger] r[i].1.wf() by {
            if i > 0 {
                assert(r[i] == m[i - 1]);
            }
        }
    } else {
        let rest = m.drop_first();
        assert forall|i: int| 0 <= i < rest.len() - 1 implies cmp_text(
            #[trigger] rest[i].0,
            rest[i + 1].0,
        ) < 0 by {
            assert(rest[i] == m[i + 1]);
        }
        assert forall|i: int| 0 <= i < rest.len() implies #[trigger] rest[i].1.wf() by {
            assert(rest[i] == m[i + 1]);
        }
        lemma_insert_wf(rest, k, v);
        let t = insert_entry(rest, k, v);
        lemma_cmp_antisym(k, m[0].0);
        assert(cmp_text(m[0].0, t[0].0) < 0);
        assert forall|i: int| 0 <= i < r.len() - 1 implies cmp_text(#[trigger] r[i].0, r[i + 1].0)
            < 0 by {
            assert(r[i + 1] == t[i]);
            if i > 0 {
                assert(r[i] == t[i - 1]);
            }
        }
        assert forall|i: int| 0 <= i < r.len() implies #[trigger] r[i].1.wf() by {
            if i > 0 {
                assert(r[i] == t[i - 1]);
            }
        }
    }
}

/// The entries of an object have ascending keys and well-formed values,
/// when its fields' values are well formed.
proof fn lemma_entries_wf(fs: Seq<(Seq<char>, ValueModel)>)
    requires
        values_wf(fs),
    ensures
        keys_ascending(entries_of(fs)),
        values_wf(entries_of(fs)),
    decreases fs.len(),
{
    if fs.len() > 0 {
        let d = fs.drop_last();
        assert forall|i: int| 0 <= i < d.len() implies #[trigger] d[i].1.wf() by {
            assert(d[i] == fs[i]);
        }
        lemma_entries_wf(d);
        assert(fs.last().1.wf());
        lemma_insert_wf(entries_of(d), fs.last().0, fs.last().1);
    }
}

/// A value that holds no list or object is well formed.
proof fn lemma_leaf_wf(m: ValueModel)
    requires
        !(m is List),
        !(m is Object),
    ensures
        m.wf(),
{
    assert forall|path: Seq<int>| object_ok(#[trigger] m.at_path(path)) by {
        if path.len() > 0 {
            assert(m.at_path(path) is None);
        }
    }
}

/// A list of well-formed items is well formed.
proof fn lemma_list_wf(s: Seq<ValueModel>)
    requires
        forall|i: int| 0 <= i < s.len() ==> #[trigger] s[i].wf(),
    ensures
        ValueModel::List(s).wf(),
{
    let w = ValueModel::List(s);
    assert forall|path: Seq<int>| object_ok(#[trigger] w.at_path(path)) by {
        if path.len() > 0 && 0 <= path[0] < s.len() {
            assert(s[path[0]].wf());
            assert(w.at_path(path) == s[path[0]].at_path(path.drop_first()));
        }
    }
}

/// Entries with ascending keys and well-formed values make a well-formed object.
proof fn lemma_object_wf(o: Seq<(Seq<char>, ValueModel)>)
    requires
        keys_ascending(o),
        values_wf(o),
    ensures
        ValueModel::Object(o).wf(),
{
    let w = ValueModel::Object(o);
    assert forall|path: Seq<int>| object_ok(#[trigger] w.at_path(path)) by {
        if path.len() > 0 && 0 <= path[0] < o.len() {
            assert(o[path[0]].1.wf());
            assert(w.at_path(path) == o[path[0]].1.at_path(path.drop_first()));
        }
    }
}

/// Every value that the grammar builds is well formed.
pub proof fn lemma_value_wf(toks: Seq<Token>, p: int, vars: bool)
    ensures
        value_at(toks, p, vars) matches Parsed::Done(m, _) ==> m.wf(),
    decreases toks.len() - p, 0int,
{
    if 0 <= p < toks.len() && toks[p].kind == Kind::Punctuator {
        if vars && is_punct(toks, p, '$') {
            lemma_leaf_wf(ValueModel::Variable(toks[p + 1].value@));
        } else if is_punct(toks, p, '[') {
            lemma_items_wf(toks, p + 1, vars);
            if let Parsed::Done(s, _) = items_at(toks, p + 1, vars) {
                lemma_list_wf(s);
            }
        } else if is_punct(toks, p, '{') {
            lemma_fields_wf(toks, p + 1, vars, '}');
            if let Parsed::Done(fs, _) = fields_at(toks, p + 1, vars, '}') {
                lemma_entries_wf(fs);
                lemma_object_wf(entries_of(fs));
            }
        }
    } else if 0 <= p < toks.len() {
        if let Parsed::Done(m, _) = scalar_at(toks, p) {
            lemma_leaf_wf(m);
        }
    }
}

/// Every list item that the grammar builds is well formed.
proof fn lemma_items_wf(toks: Seq<Token>, p: int, vars: bool)
    ensures
        items_at(toks, p, vars) matches Parsed::Done(s, _) ==> forall|i: int|
            0 <= i < s.len() ==> #[trigger] s[i].wf(),
    decreases toks.len() - p, 1int,
{
    if 0 <= p < toks.len() && !is_punct(toks, p, ']') {
        lemma_value_wf(toks, p, vars);
        if let Parsed::Done(v, q) = value_at(toks, p, vars) {
            if p < q <= toks.len() {
                lemma_items_wf(toks, q, vars);
                if let Parsed::Done(s, _) = items_at(toks, q, vars) {
                    let w = seq![v] + s;
                    assert forall|i: int| 0 <= i < w.len() implies #[trigger] w[i].wf() by {
                        if i > 0 {
                            assert(w[i] == s[i - 1]);
                        }
                    }
                }
            }
        }
    }
}

/// Every field value that the grammar builds is well formed.
pub proof fn lemma_fields_wf(toks: Seq<Token>, p: int, vars: bool, close: char)
    ensures
        fields_at(toks, p, vars, close) matches Parsed::Done(fs, _) ==> values_wf(fs),
    decreases toks.len() - p, 1int,
{
    if 0 <= p < toks.len() && !is_punct(toks, p, close) && is_name(toks, p) && is_punct(
        toks,
        p + 1,
        ':',
    ) {
        lemma_value_wf(toks, p + 2, vars);
        if let Parsed::Done(v, q) = value_at(toks, p + 2, vars) {
            if p < q <= toks.len() {
                lemma_fields_wf(toks, q, vars, close);
                if let Parsed::Done(s, _) = fields_at(toks, q, vars, close) {
                    let w = seq![(toks[p].value@, v)] + s;
                    assert forall|i: int| 0 <= i < w.len() implies #[trigger] w[i].1.wf() by {
                        if i > 0 {
                            assert(w[i] == s[i - 1]);
                        }
                    }
                }
            }
        }
    }
}

/// `r` is the outcome `m` of a value production.
pub open spec fn value_outcome<'a, T: Text<'a>>(
    r: Result<(Value<'a, T>, usize), ParseError>,
    m: Parsed<ValueModel>,
    toks: Seq<Token>,
    end: Pos,
) -> bool {
    match m {
        Parsed::Done(v, q) => r is Ok && r->Ok_0.0.model() == v && r->Ok_0.1 == q,
        Parsed::Failed(e, i) => r is Err && r->Err_0 == ParseError {
            kind: e,
            position: pos_at(toks, end, i),
        },
    }
}

/// Three-way comparison of two names.
fn compare_text(a: &Vec<char>, b: &Vec<char>) -> (r: i8)
    ensures
        r as int == cmp_text(a@, b@),
{
    let mut i: usize = 0;
    assert(a@.subrange(0, a.len() as int) == a@);
    assert(b@.subrange(0, b.len() as int) == b@);
    loop
        invariant
            i <= a.len(),
            i <= b.len(),
            cmp_text(a@, b@) == cmp_text(a@.subrange(i as int, a.len() as int), b@.subrange(
                i as int,
                b.len() as int,
            )),
        decreases a.len() - i,
    {
        let ghost sa = a@.subrange(i as int, a.len() as int);
        let ghost sb = b@.subrange(i as int, b.len() as int);
        if i == a.len() {
            return if i == b.len() {
                0
            } else {
                -1
            };
        }
        if i == b.len() {
            return 1;
        }
        assert(sa[0] == a@[i as int] && sb[0] == b@[i as int]);
        if a[i] as u32 != b[i] as u32 {
            return if (a[i] as u32) < (b[i] as u32) {
                -1
            } else {
                1
            };
        }
        assert(sa.drop_first() == a@.subrange(i + 1, a.len() as int));
        assert(sb.drop_first() == b@.subrange(i + 1, b.len() as int));
        i += 1;
    }
}

/// Sets key `k` of an object's entries to `v`, as `insert_entry` says.
fn insert_field<'a, T: Text<'a>>(
    entries: &mut Vec<(T::Value, Value<'a, T>)>,
    k: T::Value,
    v: Value<'a, T>,
)
    ensures
        entries_model::<T>(final(entries)@) == insert_entry(
            entries_model::<T>(old(entries)@),
            T::text_view(&k),
            v.model(),
        ),
{
    let ghost m = entries_model::<T>(entries@);
    let ghost kv = T::text_view(&k);
    let ghost vm = v.model();
    let kc = chars_of(T::as_text(&k));
    let mut i: usize = 0;
    assert(m.subrange(0, m.len() as int) == m);
    assert(m.subrange(0, 0) + insert_entry(m, kv, vm) == insert_entry(m, kv, vm));
    loop
        invariant
            i <= entries.len(),
            m == entries_model::<T>(entries@),
            m == entries_model::<T>(old(entries)@),
            kc@ == kv,
            kv == T::text_view(&k),
            vm == v.model(),
            insert_entry(m, kv, vm) == m.subrange(0, i as int) + insert_entry(
                m.subrange(i as int, m.len() as int),
                kv,
                vm,
            ),
        decreases entries.len() - i,
    {
        let ghost rest = m.subrange(i as int, m.len() as int);
        let ghost old_e = entries@;
        if i == entries.len() {
            assert(m.subrange(0, i as int) == m);
            assert(insert_entry(rest, kv, vm) == seq![(kv, vm)]);
            entries.insert(i, (k, v));
            assert(entries_model::<T>(entries@) == m + seq![(kv, vm)]);
            assert(entries_model::<T>(entries@) == insert_entry(m, kv, vm));
            return;
        }
        let c = compare_text(&kc, &chars_of(T::as_text(&entries[i].0)));
        assert(rest[0] == m[i as int]);
        assert(rest[0].0 == T::text_view(&entries@[i as int].0));
        assert(c == cmp_text(kv, rest[0].0));
        if c == 0 {
            assert(insert_entry(rest, kv, vm) == seq![(kv, vm)] + rest.drop_first());
            entries.remove(i);
            entries.insert(i, (k, v));
            assert(entries_model::<T>(entries@) == m.subrange(0, i as int) + (seq![(kv, vm)]
                + rest.drop_first()));
            assert(entries_model::<T>(entries@) == insert_entry(m, kv, vm));
            return;
        }
        if c < 0 {
            assert(insert_entry(rest, kv, vm) == seq![(kv, vm)] + rest);
            entries.insert(i, (k, v));
            assert(entries_model::<T>(entries@) == m.subrange(0, i as int) + (seq![(kv, vm)]
                + rest));
            assert(entries_model::<T>(entries@) == insert_entry(m, kv, vm));
            return;
        }
        assert(rest.drop_first() == m.subrange(i + 1, m.len() as int));
        assert(insert_entry(rest, kv, vm) == seq![rest[0]] + insert_entry(rest.drop_first(), kv, vm));
        assert(m.subrange(0, i + 1) == m.subrange(0, i as int) + seq![m[i as int]]);
        i += 1;
    }
}

/// A finished list prefix `a` in front of what the rest of the items give.
pub open spec fn prepend_items(a: Seq<ValueModel>, r: Parsed<Seq<ValueModel>>) -> Parsed<
    Seq<ValueModel>,
> {
    match r {
        Parsed::Done(s, q) => Parsed::Done(a + s, q),
        Parsed::Failed(e, i) => Parsed::Failed(e, i),
    }
}

/// Finished fields `a` in front of what the rest of the fields give.
pub open spec fn prepend_fields(
    a: Seq<(Seq<char>, ValueModel)>,
    r: Parsed<Seq<(Seq<char>, ValueModel)>>,
) -> Parsed<Seq<(Seq<char>, ValueModel)>> {
    match r {
        Parsed::Done(s, q) => Parsed::Done(a + s, q),
        Parsed::Failed(e, i) => Parsed::Failed(e, i),
    }
}

/// Whether `s` holds the same characters as `w`.
fn text_is(s: &str, w: &str) -> (r: bool)
    ensures
        r == (s@ == w@),
{
    let a = chars_of(s);
    let b = chars_of(w);
    if a.len() != b.len() {
        assert(a@.len() != b@.len());
        return false;
    }
    let mut i: usize = 0;
    while i < a.len()
        invariant
            a.len() == b.len(),
            a@ == s@,
            b@ == w@,
            i <= a.len(),
            forall|j: int| 0 <= j < i ==> a@[j] == b@[j],
        decreases a.len() - i,
    {
        if a[i] != b[i] {
            assert(a@[i as int] != b@[i as int]);
            return false;
        }
        i += 1;
    }
    assert(a@ == b@);
    true
}

/// A literal of one token at `p`.
pub(crate) fn scalar_value<'a, T: Text<'a>>(toks: &Vec<Token<'a>>, end: Pos, p: usize) -> (r: Result<
    (Value<'a, T>, usize),
    ParseError,
>)
    requires
        p < toks.len(),
    ensures
        value_outcome::<T>(r, scalar_at(toks@, p as int), toks@, end),
        r matches Ok((_, q)) ==> q == p + 1,
{
    let t = toks[p];
    match t.kind {
        Kind::Name => {
            let v = if text_is(t.value, "true") {
                Value::Boolean(true)
            } else if text_is(t.value, "false") {
                Value::Boolean(false)
            } else if text_is(t.value, "null") {
                Value::Null
            } else {
                Value::Enum(T::from_text(t.value))
            };
            Ok((v, p + 1))
        },
        Kind::IntValue => match parse_u64(t.value) {
            Some(n) => Ok((Value::Int(Number(n)), p + 1)),
            None => Err(ParseError { kind: ErrorKind::BadNumber, position: t.position }),
        },
        Kind::FloatValue => Ok((Value::Float(T::from_text(t.value)), p + 1)),
        Kind::BigIntValue => match parse_u128(t.value) {
            Some(n) => Ok((Value::BigInt(BigNumber(n)), p + 1)),
            None => Err(ParseError { kind: ErrorKind::BadNumber, position: t.position }),
        },
        Kind::StringValue => match unquote_string(t.value) {
            Ok(s) => Ok((Value::String(s), p + 1)),
            Err(e) => Err(ParseError { kind: ErrorKind::BadString(e), position: t.position }),
        },
        Kind::BlockString => match unquote_block_string(t.value) {
            Ok(s) => Ok((Value::String(s), p + 1)),
            Err(e) => Err(ParseError { kind: ErrorKind::BadString(e), position: t.position }),
        },
        Kind::Punctuator => Err(ParseError { kind: ErrorKind::UnexpectedToken, position: t.position }),
    }
}

/// A value at token `p`, as `value_at` says.
pub(crate) fn value_from<'a, T: Text<'a>>(toks: &Vec<Token<'a>>, end: Pos, p: usize, vars: bool) -> (r: Result<
    (Value<'a, T>, usize),
    ParseError,
>)
    requires
        p <= toks.len(),
    ensures
        value_outcome::<T>(r, value_at(toks@, p as int, vars), toks@, end),
        r matches Ok((_, q)) ==> p < q <= toks.len(),
    decreases toks.len() - p,
{
    if p >= toks.len() {
        return Err(ParseError { kind: ErrorKind::UnexpectedEnd, position: end });
    }
    if toks[p].kind != Kind::Punctuator {
        return scalar_value(toks, end, p);
    }
    if vars && punct_at(toks, p, '$') {
        if p + 1 < toks.len() && toks[p + 1].kind == Kind::Name {
            return Ok((Value::Variable(T::from_text(toks[p + 1].value)), p + 2));
        }
        return Err(error_at(toks, end, p + 1));
    }
    if punct_at(toks, p, '[') {
        let mut items: Vec<Value<'a, T>> = Vec::new();
        let mut q: usize = p + 1;
        assert(items_model::<T>(items@) == Seq::<ValueModel>::empty());
        assert(prepend_items(Seq::empty(), items_at(toks@, q as int, vars)) == items_at(
            toks@,
            q as int,
            vars,
        )) by {
            if let Parsed::Done(s, x) = items_at(toks@, q as int, vars) {
                assert(Seq::<ValueModel>::empty() + s == s);
            }
        }
        loop
            invariant
                p < q <= toks.len(),
                is_punct(toks@, p as int, '['),
                items_at(toks@, p + 1, vars) == prepend_items(
                    items_model::<T>(items@),
                    items_at(toks@, q as int, vars),
                ),
            decreases toks.len() - q,
        {
            if q >= toks.len() {
                return Err(ParseError { kind: ErrorKind::UnexpectedEnd, position: end });
            }
            if punct_at(toks, q, ']') {
                assert(items_model::<T>(items@) + Seq::<ValueModel>::empty() == items_model::<T>(
                    items@,
                ));
                proof {
                    crate::ast::lemma_list_model::<T>(items);
                }
                let r = Value::List(items);
                assert(r.model() == ValueModel::List(items_model::<T>(items@)));
                return Ok((r, q + 1));
            }
            match value_from::<T>(toks, end, q, vars) {
                Ok((v, q2)) => {
                    let ghost a = items_model::<T>(items@);
                    let ghost vm = v.model();
                    items.push(v);
                    assert(items_model::<T>(items@) == a + seq![vm]);
                    proof {
                        if let Parsed::Done(s, x) = items_at(toks@, q2 as int, vars) {
                            assert(a + (seq![vm] + s) == (a + seq![vm]) + s);
                        }
                    }
                    q = q2;
                },
                Err(e) => {
                    return Err(e);
                },
            }
        }
    }
    if punct_at(toks, p, '{') {
        let mut entries: Vec<(T::Value, Value<'a, T>)> = Vec::new();
        let mut q: usize = p + 1;
        let ghost fs: Seq<(Seq<char>, ValueModel)> = Seq::empty();
        assert(entries_model::<T>(entries@) == entries_of(fs));
        assert(prepend_fields(fs, fields_at(toks@, q as int, vars, '}')) == fields_at(
            toks@,
            q as int,
            vars,
            '}',
        )) by {
            if let Parsed::Done(s, x) = fields_at(toks@, q as int, vars, '}') {
                assert(fs + s == s);
            }
        }
        loop
            invariant
                p < q <= toks.len(),
                is_punct(toks@, p as int, '{'),
                !is_punct(toks@, p as int, '['),
                !(vars && is_punct(toks@, p as int, '$')),
                entries_model::<T>(entries@) == entries_of(fs),
                fields_at(toks@, p + 1, vars, '}') == prepend_fields(
                    fs,
                    fields_at(toks@, q as int, vars, '}'),
                ),
            decreases toks.len() - q,
        {
            if q >= toks.len() {
                return Err(ParseError { kind: ErrorKind::UnexpectedEnd, position: end });
            }
            if punct_at(toks, q, '}') {
                assert(fs + Seq::<(Seq<char>, ValueModel)>::empty() == fs);
                proof {
                    crate::ast::lemma_object_model::<T>(entries);
                }
                let r = Value::Object(entries);
                assert(r.model() == ValueModel::Object(entries_model::<T>(entries@)));
                return Ok((r, q + 1));
            }
            if toks[q].kind != Kind::Name {
                return Err(ParseError { kind: ErrorKind::UnexpectedToken, position: toks[q].position });
            }
            if !punct_at(toks, q + 1, ':') {
                return Err(error_at(toks, end, q + 1));
            }
            match value_from::<T>(toks, end, q + 2, vars) {
                Ok((v, q2)) => {
                    let ghost pair = (toks@[q as int].value@, v.model());
                    let ghost old_fs = fs;
                    insert_field(&mut entries, T::from_text(toks[q].value), v);
                    proof {
                        fs = fs.push(pair);
                        assert(fs.drop_last() == old_fs);
                        if let Parsed::Done(s, x) = fields_at(toks@, q2 as int, vars, '}') {
                            assert(old_fs + (seq![pair] + s) == fs + s);
                        }
                    }
                    q = q2;
                },
                Err(e) => {
                    return Err(e);
                },
            }
        }
    }
    Err(ParseError { kind: ErrorKind::UnexpectedToken, position: toks[p].position })
}

/// A type reference at token `p`.
pub open spec fn type_at(toks: Seq<Token>, p: int) -> Parsed<TypeModel>
    decreases toks.len() - p,
{
    if !(0 <= p < toks.len()) {
        Parsed::Failed(ErrorKind::UnexpectedEnd, p)
    } else {
        let base = if is_name(toks, p) {
            Parsed::Done(TypeModel::Named(toks[p].value@), p + 1)
        } else if is_punct(toks, p, '[') {
            match type_at(toks, p + 1) {
                Parsed::Done(t, q) => if is_punct(toks, q, ']') {
                    Parsed::Done(TypeModel::List(Box::new(t)), q + 1)
                } else {
                    fail_at(toks, q)
                },
                Parsed::Failed(e, i) => Parsed::Failed(e, i),
            }
        } else {
            Parsed::Failed(ErrorKind::UnexpectedToken, p)
        };
        match base {
            Parsed::Done(t, q) => if is_punct(toks, q, '!') {
                Parsed::Done(TypeModel::NonNull(Box::new(t)), q + 1)
            } else {
                Parsed::Done(t, q)
            },
            Parsed::Failed(e, i) => Parsed::Failed(e, i),
        }
    }
}

/// An argument list at token `p`: nothing when no `(` stands there, else at
/// least one `name: value` pair and the closing `)`.
pub open spec fn arguments_at(toks: Seq<Token>, p: int) -> Parsed<Seq<(Seq<char>, ValueModel)>> {
    if !is_punct(toks, p, '(') {
        Parsed::Done(Seq::empty(), p)
    } else if is_punct(toks, p + 1, ')') {
        Parsed::Failed(ErrorKind::UnexpectedToken, p + 1)
    } else {
        fields_at(toks, p + 1, true, ')')
    }
}

/// Directives `@name(arguments)` from token `p`, as many as stand there.
pub open spec fn directives_at(toks: Seq<Token>, p: int) -> Parsed<Seq<DirectiveModel>>
    decreases toks.len() - p,
{
    if !is_punct(toks, p, '@') {
        Parsed::Done(Seq::empty(), p)
    } else if !is_name(toks, p + 1) {
        fail_at(toks, p + 1)
    } else {
        match arguments_at(toks, p + 2) {
            Parsed::Done(args, q) => if p < q <= toks.len() {
                match directives_at(toks, q) {
                    Parsed::Done(ds, r) => Parsed::Done(
                        seq![
                            DirectiveModel {
                                position: toks[p].position,
                                name: toks[p + 1].value@,
                                arguments: args,
                            },
                        ] + ds,
                        r,
                    ),
                    Parsed::Failed(e, i) => Parsed::Failed(e, i),
                }
            } else {
                Parsed::Failed(ErrorKind::UnexpectedToken, p)
            },
            Parsed::Failed(e, i) => Parsed::Failed(e, i),
        }
    }
}

/// A type reference at token `p`, as `type_at` says.
pub(crate) fn type_from<'a, T: Text<'a>>(toks: &Vec<Token<'a>>, end: Pos, p: usize) -> (r: Result<
    (Type<'a, T>, usize),
    ParseError,
>)
    requires
        p <= toks.len(),
    ensures
        match type_at(toks@, p as int) {
            Parsed::Done(m, q) => r is Ok && r->Ok_0.0.model() == m && r->Ok_0.1 == q,
            Parsed::Failed(e, i) => r is Err && r->Err_0 == ParseError {
                kind: e,
                position: pos_at(toks@, end, i),
            },
        },
        r matches Ok((_, q)) ==> p < q <= toks.len(),
    decreases toks.len() - p,
{
    if p >= toks.len() {
        return Err(ParseError { kind: ErrorKind::UnexpectedEnd, position: end });
    }
    let (t, q) = if toks[p].kind == Kind::Name {
        (Type::NamedType(T::from_text(toks[p].value)), p + 1)
    } else if punct_at(toks, p, '[') {
        match type_from::<T>(toks, end, p + 1) {
            Ok((inner, q)) => {
                if !punct_at(toks, q, ']') {
                    return Err(error_at(toks, end, q));
                }
                let t = Type::ListType(Box::new(inner));
                assert(t.model() == TypeModel::List(Box::new(inner.model())));
                (t, q + 1)
            },
            Err(e) => {
                return Err(e);
            },
        }
    } else {
        return Err(ParseError { kind: ErrorKind::UnexpectedToken, position: toks[p].position });
    };
    if punct_at(toks, q, '!') {
        let n = Type::NonNullType(Box::new(t));
        assert(n.model() == TypeModel::NonNull(Box::new(t.model())));
        Ok((n, q + 1))
    } else {
        Ok((t, q))
    }
}

/// `name: value` pairs from token `p` up to and including `close`, kept in
/// source order, as `fields_at` says.
fn pairs_from<'a, T: Text<'a>>(toks: &Vec<Token<'a>>, end: Pos, p: usize, close: char) -> (r: Result<
    (Vec<(T::Value, Value<'a, T>)>, usize),
    ParseError,
>)
    requires
        p <= toks.len(),
    ensures
        match fields_at(toks@, p as int, true, close) {
            Parsed::Done(m, q) => r is Ok && entries_model::<T>(r->Ok_0.0@) == m && r->Ok_0.1 == q,
            Parsed::Failed(e, i) => r is Err && r->Err_0 == ParseError {
                kind: e,
                position: pos_at(toks@, end, i),
            },
        },
        r matches Ok((_, q)) ==> p < q <= toks.len(),
{
    let mut pairs: Vec<(T::Value, Value<'a, T>)> = Vec::new();
    let mut q: usize = p;
    assert(entries_model::<T>(pairs@) == Seq::<(Seq<char>, ValueModel)>::empty());
    assert(prepend_fields(Seq::empty(), fields_at(toks@, q as int, true, close)) == fields_at(
        toks@,
        q as int,
        true,
        close,
    )) by {
        if let Parsed::Done(s, x) = fields_at(toks@, q as int, true, close) {
            assert(Seq::<(Seq<char>, ValueModel)>::empty() + s == s);
        }
    }
    loop
        invariant
            p <= q <= toks.len(),
            fields_at(toks@, p as int, true, close) == prepend_fields(
                entries_model::<T>(pairs@),
                fields_at(toks@, q as int, true, close),
            ),
        decreases toks.len() - q,
    {
        if q >= toks.len() {
            return Err(ParseError { kind: ErrorKind::UnexpectedEnd, position: end });
        }
        if punct_at(toks, q, close) {
            assert(entries_model::<T>(pairs@) + Seq::<(Seq<char>, ValueModel)>::empty()
                == entries_model::<T>(pairs@));
            return Ok((pairs, q + 1));
        }
        if toks[q].kind != Kind::Name {
            return Err(ParseError { kind: ErrorKind::UnexpectedToken, position: toks[q].position });
        }
        if !punct_at(toks, q + 1, ':') {
            return Err(error_at(toks, end, q + 1));
        }
        match value_from::<T>(toks, end, q + 2, true) {
            Ok((v, q2)) => {
                let ghost a = entries_model::<T>(pairs@);
                let ghost pair = (toks@[q as int].value@, v.model());
                pairs.push((T::from_text(toks[q].value), v));
                assert(entries_model::<T>(pairs@) == a + seq![pair]);
                proof {
                    if let Parsed::Done(s, x) = fields_at(toks@, q2 as int, true, close) {
                        assert(a + (seq![pair] + s) == (a + seq![pair]) + s);
                    }
                }
                q = q2;
            },
            Err(e) => {
                return Err(e);
            },
        }
    }
}

/// An argument list at token `p`, as `arguments_at` says.
pub(crate) fn arguments_from<'a, T: Text<'a>>(toks: &Vec<Token<'a>>, end: Pos, p: usize) -> (r: Result<
    (Vec<(T::Value, Value<'a, T>)>, usize),
    ParseError,
>)
    requires
        p <= toks.len(),
    ensures
        match arguments_at(toks@, p as int) {
            Parsed::Done(m, q) => r is Ok && entries_model::<T>(r->Ok_0.0@) == m && r->Ok_0.1 == q,
            Parsed::Failed(e, i) => r is Err && r->Err_0 == ParseError {
                kind: e,
                position: pos_at(toks@, end, i),
            },
        },
        r matches Ok((_, q)) ==> p <= q <= toks.len(),
        r matches Ok((_, q)) ==> (is_punct(toks@, p as int, '(') ==> p < q),
{
    if !punct_at(toks, p, '(') {
        let v: Vec<(T::Value, Value<'a, T>)> = Vec::new();
        assert(entries_model::<T>(v@) == Seq::<(Seq<char>, ValueModel)>::empty());
        return Ok((v, p));
    }
    if punct_at(toks, p + 1, ')') {
        return Err(ParseError { kind: ErrorKind::UnexpectedToken, position: toks[p + 1].position });
    }
    pairs_from::<T>(toks, end, p + 1, ')')
}

/// Directives from token `p`, as `directives_at` says.
pub(crate) fn directives_from<'a, T: Text<'a>>(toks: &Vec<Token<'a>>, end: Pos, p: usize) -> (r: Result<
    (Vec<Directive<'a, T>>, usize),
    ParseError,
>)
    requires
        p <= toks.len(),
    ensures
        match directives_at(toks@, p as int) {
            Parsed::Done(m, q) => r is Ok && r->Ok_0.1 == q && r->Ok_0.0@.len() == m.len()
                && forall|i: int| 0 <= i < m.len() ==> #[trigger] r->Ok_0.0@[i].model() == m[i],
            Parsed::Failed(e, i) => r is Err && r->Err_0 == ParseError {
                kind: e,
                position: pos_at(toks@, end, i),
            },
        },
        r matches Ok((_, q)) ==> p <= q <= toks.len(),
{
    let mut ds: Vec<Directive<'a, T>> = Vec::new();
    let mut q: usize = p;
    let ghost acc: Seq<DirectiveModel> = Seq::empty();
    assert(match directives_at(toks@, q as int) {
        Parsed::Done(s, x) => acc + s == s,
        _ => true,
    });
    loop
        invariant
            p <= q <= toks.len(),
            ds@.len() == acc.len(),
            forall|i: int| 0 <= i < acc.len() ==> #[trigger] ds@[i].model() == acc[i],
            directives_at(toks@, p as int) == match directives_at(toks@, q as int) {
                Parsed::Done(s, x) => Parsed::Done(acc + s, x),
                Parsed::Failed(e, i) => Parsed::Failed(e, i),
            },
        decreases toks.len() - q,
    {
        if !punct_at(toks, q, '@') {
            assert(acc + Seq::<DirectiveModel>::empty() == acc);
            return Ok((ds, q));
        }
        if q + 1 >= toks.len() || toks[q + 1].kind != Kind::Name {
            return Err(error_at(toks, end, q + 1));
        }
        match arguments_from::<T>(toks, end, q + 2) {
            Ok((args, q2)) => {
                let d = Directive {
                    position: toks[q].position,
                    name: T::from_text(toks[q + 1].value),
                    arguments: args,
                };
                let ghost dm = d.model();
                assert(dm.arguments == entries_model::<T>(d.arguments@));
                proof {
                    let old_acc = acc;
                    acc = acc.push(dm);
                    if let Parsed::Done(s, x) = directives_at(toks@, q2 as int) {
                        assert(old_acc + (seq![dm] + s) == acc + s);
                    }
                }
                ds.push(d);
                q = q2;
            },
            Err(e) => {
                return Err(e);
            },
        }
    }
}

} // verus!
