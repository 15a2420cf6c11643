//! Column values and records.
//!
//! A record is what one row of an entity table carries besides its envelope:
//! a mapping from column names to tagged values. Records travel in frames,
//! are merged column by column on updates, and are returned by delta queries.

use vstd::prelude::*;

use crate::strutil::{str_eq, strs_view};

verus! {

/// A column value: the tagged union carried by the wire protocol and the
/// row store. A `Real` holds the IEEE-754 bit pattern of the number; the
/// engine stores and returns it but never interprets it. A `TextArray`
/// carries the sawmill-id sets of a location record.
pub enum Value {
    Null,
    Int(i64),
    Real(u64),
    Text(String),
    Blob(Vec<u8>),
    TextArray(Vec<String>),
}

/// The mathematical value of a `Value`.
pub enum ValueV {
    Null,
    Int(int),
    Real(u64),
    Text(Seq<char>),
    Blob(Seq<u8>),
    TextArray(Seq<Seq<char>>),
}

impl View for Value {
    type V = ValueV;

    open spec fn view(&self) -> ValueV {
        match self {
            Value::Null => ValueV::Null,
            Value::Int(n) => ValueV::Int(*n as int),
            Value::Real(bits) => ValueV::Real(*bits),
            Value::Text(s) => ValueV::Text(s@),
            Value::Blob(b) => ValueV::Blob(b@),
            Value::TextArray(a) => ValueV::TextArray(strs_view(a@)),
        }
    }
}

impl Value {
    /// An exact copy of the value.
    pub fn dup(&self) -> (r: Value)
        ensures
            r@ == self@,
    {
        match self {
            Value::Null => Value::Null,
            Value::Int(n) => Value::Int(*n),
            Value::Real(bits) => Value::Real(*bits),
            Value::Text(s) => Value::Text(s.clone()),
            Value::Blob(b) => {
                let mut copy: Vec<u8> = Vec::new();
                let mut i: usize = 0;
                while i < b.len()
                    invariant
                        i <= b.len(),
                        copy@ == b@.take(i as int),
                    decreases b.len() - i,
                {
                    copy.push(b[i]);
                    i = i + 1;
                    proof {
                        assert(copy@ =~= b@.take(i as int));
                    }
                }
                proof {
                    assert(copy@ =~= b@);
                }
                Value::Blob(copy)
            },
            Value::TextArray(a) => Value::TextArray(crate::strutil::dup_strings(a)),
        }
    }

    /// The integer held by the value, if it holds one.
    pub fn as_int(&self) -> (r: Option<i64>)
        ensures
            match r {
                Some(n) => self@ == ValueV::Int(n as int),
                None => !(self@ is Int),
            },
    {
        match self {
            Value::Int(n) => Some(*n),
            _ => None,
        }
    }
}

/// One named column of a record.
pub struct Field {
    pub name: String,
    pub value: Value,
}

/// The mathematical value of a `Field`.
pub struct FieldV {
    pub name: Seq<char>,
    pub value: ValueV,
}

impl View for Field {
    type V = FieldV;

    open spec fn view(&self) -> FieldV {
        FieldV { name: self.name@, value: self.value@ }
    }
}

impl Field {
    /// An exact copy of the field.
    pub fn dup(&self) -> (r: Field)
        ensures
            r@ == self@,
    {
        Field { name: self.name.clone(), value: self.value.dup() }
    }
}

/// The views of the fields of a vector.
pub open spec fn fields_view(fields: Seq<Field>) -> Seq<FieldV> {
    fields.map(|i: int, f: Field| f@)
}

/// The column bound to `name` in a field sequence: the first match wins.
pub open spec fn rec_get(fields: Seq<FieldV>, name: Seq<char>) -> Option<ValueV>
    decreases fields.len(),
{
    if fields.len() == 0 {
        None
    } else if fields[0].name == name {
        Some(fields[0].value)
    } else {
        rec_get(fields.drop_first(), name)
    }
}

/// Whether a field sequence binds `name`.
pub open spec fn rec_has(fields: Seq<FieldV>, name: Seq<char>) -> bool {
    rec_get(fields, name) is Some
}

/// Well-formedness of a field sequence: no column name occurs twice.
pub open spec fn rec_wf(fields: Seq<FieldV>) -> bool {
    forall|i: int, j: int|
        0 <= i < j < fields.len() ==> fields[i].name != fields[j].name
}

/// `rec_get` finds exactly the fields that are present.
pub proof fn lemma_rec_get_index(fields: Seq<FieldV>, name: Seq<char>)
    ensures
        rec_has(fields, name) <==> exists|i: int| 0 <= i < fields.len() && fields[i].name == name,
    decreases fields.len(),
{
    if fields.len() > 0 {
        lemma_rec_get_index(fields.drop_first(), name);
        if fields[0].name != name {
            if rec_has(fields.drop_first(), name) {
                let i = choose|i: int|
                    0 <= i < fields.drop_first().len() && fields.drop_first()[i].name == name;
                assert(fields[i + 1].name == name);
            }
            if exists|i: int| 0 <= i < fields.len() && fields[i].name == name {
                let i = choose|i: int| 0 <= i < fields.len() && fields[i].name == name;
                assert(fields.drop_first()[i - 1].name == name);
            }
        }
    }
}

/// In a well-formed field sequence, `rec_get` returns the value stored at
/// any index whose name matches.
pub proof fn lemma_rec_get_at(fields: Seq<FieldV>, i: int)
    requires
        rec_wf(fields),
        0 <= i < fields.len(),
    ensures
        rec_get(fields, fields[i].name) == Some(fields[i].value),
    decreases fields.len(),
{
    if i > 0 {
        assert(fields[0].name != fields[i].name);
        lemma_wf_drop_first(fields);
        assert(fields.drop_first()[i - 1] == fields[i]);
        lemma_rec_get_at(fields.drop_first(), i - 1);
    }
}

/// A record: the columns of one row, each name bound at most once.
pub struct Record {
    fields: Vec<Field>,
}

impl View for Record {
    type V = Seq<FieldV>;

    closed spec fn view(&self) -> Seq<FieldV> {
        fields_view(self.fields@)
    }
}

impl Record {
    /// Whether the record binds each column name at most once. All library
    /// operations preserve this.
    pub open spec fn wf(&self) -> bool {
        rec_wf(self@)
    }

    /// The empty record.
    pub fn new() -> (r: Record)
        ensures
            r@ == Seq::<FieldV>::empty(),
            r.wf(),
    {
        let r = Record { fields: Vec::new() };
        proof {
            assert(r@ =~= Seq::<FieldV>::empty());
        }
        r
    }

    /// A borrowed view of the columns, in storage order.
    pub fn entries(&self) -> (r: &Vec<Field>)
        ensures
            fields_view(r@) == self@,
    {
        &self.fields
    }

    /// The number of columns.
    pub fn len(&self) -> (n: usize)
        ensures
            n == self@.len(),
    {
        self.fields.len()
    }

    /// The value bound to `name`, if any.
    pub fn get(&self, name: &str) -> (r: Option<&Value>)
        ensures
            match r {
                Some(v) => rec_get(self@, name@) == Some(v@),
                None => !rec_has(self@, name@),
            },
    {
        let n = self.fields.len();
        let mut i: usize = 0;
        proof {
            assert(self@.skip(0) =~= self@);
        }
        while i < n
            invariant
                i <= n,
                rec_get(self@, name@) == rec_get(self@.skip(i as int), name@),
            decreases n - i,
        {
            proof {
                assert(self@.skip(i as int)[0] == self@[i as int]);
                assert(self@.skip(i as int).drop_first() =~= self@.skip(i as int + 1));
            }
            if str_eq(self.fields[i].name.as_str(), name) {
                return Some(&self.fields[i].value);
            }
            i = i + 1;
        }
        proof {
            assert(self@.skip(n as int) =~= Seq::<FieldV>::empty());
        }
        None
    }

    /// Binds `name` to `value`, replacing any previous binding.
    pub fn set(&mut self, name: String, value: Value)
        requires
            old(self).wf(),
        ensures
            final(self).wf(),
            rec_get(final(self)@, name@) == Some(value@),
            forall|n: Seq<char>|
                n != name@ ==> #[trigger] rec_get(final(self)@, n) == rec_get(old(self)@, n),
            final(self)@.len() <= old(self)@.len() + 1,
    {
        let ghost orig = self@;
        let n = self.fields.len();
        let mut i: usize = 0;
        while i < n
            invariant
                n == self.fields.len(),
                i <= n,
                self@ == orig,
                forall|j: int| 0 <= j < i ==> orig[j].name != name@,
            decreases n - i,
        {
            if str_eq(self.fields[i].name.as_str(), name.as_str()) {
                self.fields[i] = Field { name, value };
                proof {
                    let now = self@;
                    assert(now =~= orig.update(i as int, FieldV { name: name@, value: value@ }));
                    lemma_set_update(orig, now, i as int, name@, value@);
                }
                return;
            }
            i = i + 1;
        }
        self.fields.push(Field { name, value });
        proof {
            let now = self@;
            assert(now =~= orig.push(FieldV { name: name@, value: value@ }));
            lemma_set_push(orig, i as int, name@, value@);
        }
    }

    /// Appends a binding whose name is not yet bound.
    pub fn push_field(&mut self, name: String, value: Value)
        requires
            old(self).wf(),
            !rec_has(old(self)@, name@),
        ensures
            final(self).wf(),
            final(self)@ == old(self)@.push(FieldV { name: name@, value: value@ }),
    {
        proof {
            lemma_rec_get_index(self@, name@);
            lemma_set_push(self@, self@.len() as int, name@, value@);
        }
        let ghost pre = self@;
        self.fields.push(Field { name, value });
        proof {
            assert(self@ =~= pre.push(FieldV { name: final(self).fields@.last().name@, value: final(self).fields@.last().value@ }));
        }
    }

    /// Removes the binding of `name`, if there is one.
    pub fn remove(&mut self, name: &str)
        requires
            old(self).wf(),
        ensures
            final(self).wf(),
            !rec_has(final(self)@, name@),
            forall|n: Seq<char>|
                n != name@ ==> #[trigger] rec_get(final(self)@, n) == rec_get(old(self)@, n),
    {
        let ghost orig = self@;
        let n = self.fields.len();
        let mut i: usize = 0;
        while i < n
            invariant
                n == self.fields.len(),
                i <= n,
                self@ == orig,
                old(self).wf(),
                self@ == old(self)@,
                forall|j: int| 0 <= j < i ==> orig[j].name != name@,
            decreases n - i,
        {
            if str_eq(self.fields[i].name.as_str(), name) {
                self.fields.remove(i);
                proof {
                    let now = self@;
                    assert(now =~= orig.remove(i as int));
                    lemma_remove_at(orig, i as int, name@);
                }
                return;
            }
            i = i + 1;
        }
        proof {
            lemma_absent_no_get(orig, name@);
        }
    }

    /// An exact copy of the record.
    pub fn dup(&self) -> (r: Record)
        ensures
            r@ == self@,
    {
        let n = self.fields.len();
        let mut fields: Vec<Field> = Vec::new();
        let mut i: usize = 0;
        while i < n
            invariant
                n == self.fields.len(),
                i <= n,
                fields_view(fields@) == self@.take(i as int),
            decreases n - i,
        {
            fields.push(self.fields[i].dup());
            i = i + 1;
            proof {
                assert(fields_view(fields@) =~= self@.take(i as int));
            }
        }
        let r = Record { fields };
        proof {
            assert(r@ =~= self@);
        }
        r
    }

    /// Applies every column of `other` to this record: columns named in
    /// `other` take its values, all others keep theirs.
    pub fn merge_from(&mut self, other: Record)
        requires
            old(self).wf(),
            other.wf(),
        ensures
            final(self).wf(),
            forall|n: Seq<char>|
                #[trigger] rec_get(final(self)@, n) == if rec_has(other@, n) {
                    rec_get(other@, n)
                } else {
                    rec_get(old(self)@, n)
                },
    {
        let ghost src = other@;
        let mut rest = other.fields;
        let n = rest.len();
        let ghost orig = self@;
        let mut i: usize = 0;
        while i < n
            invariant
                n == rest.len(),
                i <= n,
                fields_view(rest@) == src,
                rec_wf(src),
                self.wf(),
                forall|m: Seq<char>|
                    rec_get(self@, m) == if rec_has(src.take(i as int), m) {
                        rec_get(src.take(i as int), m)
                    } else {
                        rec_get(orig, m)
                    },
            decreases n - i,
        {
            let ghost pre = self@;
            let f = rest[i].dup();
            let ghost fname = f.name@;
            self.set(f.name, f.value);
            i = i + 1;
            proof {
                assert(src.take(i as int).drop_last() =~= src.take(i as int - 1));
                lemma_take_get(src, i as int, fname);
                assert forall|m: Seq<char>|
                    rec_get(self@, m) == if rec_has(src.take(i as int), m) {
                        rec_get(src.take(i as int), m)
                    } else {
                        rec_get(orig, m)
                    } by {
                    lemma_take_step(src, i as int, m);
                }
            }
        }
        proof {
            assert(src.take(n as int) =~= src);
        }
    }
}

/// After overwriting index `i` (whose old name differed from `name` at every
/// earlier index), `rec_get` answers for the new binding and is unchanged
/// elsewhere.
proof fn lemma_set_update(orig: Seq<FieldV>, now: Seq<FieldV>, i: int, name: Seq<char>, value: ValueV)
    requires
        rec_wf(orig),
        0 <= i < orig.len(),
        orig[i].name == name,
        now == orig.update(i, FieldV { name: name, value: value }),
    ensures
        rec_wf(now),
        rec_get(now, name) == Some(value),
        forall|n: Seq<char>| n != name ==> rec_get(now, n) == rec_get(orig, n),
    decreases orig.len(),
{
    if i == 0 {
        assert(now.drop_first() =~= orig.drop_first());
        assert forall|n: Seq<char>| n != name implies rec_get(now, n) == rec_get(orig, n) by {
            assert(rec_get(now, n) == rec_get(now.drop_first(), n));
            assert(rec_get(orig, n) == rec_get(orig.drop_first(), n));
        }
    } else {
        assert(now[0] == orig[0]);
        lemma_wf_drop_first(orig);
        assert(now.drop_first() =~= orig.drop_first().update(
            i - 1,
            FieldV { name: name, value: value },
        ));
        lemma_set_update(
            orig.drop_first(),
            now.drop_first(),
            i - 1,
            name,
            value,
        );
        assert(orig[0].name != name);
        assert forall|p: int, q: int| 0 <= p < q < now.len() implies now[p].name != now[q].name by {
            if p == 0 {
                if q == i {
                    assert(now[q].name == name);
                } else {
                    assert(now[q].name == orig[q].name);
                }
            } else {
                assert(now.drop_first()[p - 1].name != now.drop_first()[q - 1].name);
            }
        }
        assert forall|n: Seq<char>| n != name implies rec_get(now, n) == rec_get(orig, n) by {
            if orig[0].name != n {
                assert(rec_get(now, n) == rec_get(now.drop_first(), n));
                assert(rec_get(orig, n) == rec_get(orig.drop_first(), n));
            }
        }
    }
}

/// After pushing a binding whose name is fresh, `rec_get` answers for it and
/// is unchanged elsewhere.
proof fn lemma_set_push(orig: Seq<FieldV>, n_len: int, name: Seq<char>, value: ValueV)
    requires
        rec_wf(orig),
        n_len == orig.len(),
        forall|j: int| 0 <= j < orig.len() ==> orig[j].name != name,
    ensures
        rec_wf(orig.push(FieldV { name: name, value: value })),
        rec_get(orig.push(FieldV { name: name, value: value }), name) == Some(value),
        forall|n: Seq<char>|
            n != name ==> rec_get(orig.push(FieldV { name: name, value: value }), n) == rec_get(
                orig,
                n,
            ),
    decreases orig.len(),
{
    let pushed = orig.push(FieldV { name: name, value: value });
    if orig.len() == 0 {
        assert(pushed.len() == 1);
        assert(pushed[0] == FieldV { name: name, value: value });
        assert(pushed.drop_first() =~= Seq::<FieldV>::empty());
        assert forall|n: Seq<char>| n != name implies rec_get(pushed, n) == rec_get(orig, n) by {
            assert(rec_get(pushed, n) == rec_get(pushed.drop_first(), n));
        }
    } else {
        lemma_wf_drop_first(orig);
        assert forall|j: int|
            0 <= j < orig.drop_first().len() implies orig.drop_first()[j].name != name by {
            assert(orig.drop_first()[j] == orig[j + 1]);
        }
        lemma_set_push(orig.drop_first(), n_len - 1, name, value);
        assert(pushed.drop_first() =~= orig.drop_first().push(FieldV { name: name, value: value }));
        assert(pushed[0] == orig[0]);
        assert forall|p: int, q: int|
            0 <= p < q < pushed.len() implies pushed[p].name != pushed[q].name by {
            if p == 0 {
                if q == pushed.len() - 1 {
                    assert(pushed[q].name == name);
                } else {
                    assert(pushed[q].name == orig[q].name);
                }
            } else {
                let tail = pushed.drop_first();
                assert(rec_wf(tail));
                assert(tail[p - 1].name != tail[q - 1].name);
            }
        }
        assert forall|n: Seq<char>| n != name implies rec_get(pushed, n) == rec_get(orig, n) by {
            if orig[0].name != n {
                assert(rec_get(pushed, n) == rec_get(pushed.drop_first(), n));
                assert(rec_get(orig, n) == rec_get(orig.drop_first(), n));
            }
        }
    }
}

/// After removing the binding at index `i` (whose name differed from every
/// earlier one), `name` is unbound and other names are unchanged.
proof fn lemma_remove_at(orig: Seq<FieldV>, i: int, name: Seq<char>)
    requires
        rec_wf(orig),
        0 <= i < orig.len(),
        orig[i].name == name,
    ensures
        rec_wf(orig.remove(i)),
        !rec_has(orig.remove(i), name),
        forall|n: Seq<char>| n != name ==> rec_get(orig.remove(i), n) == rec_get(orig, n),
    decreases orig.len(),
{
    let now = orig.remove(i);
    assert(rec_wf(now)) by {
        assert forall|p: int, q: int| 0 <= p < q < now.len() implies now[p].name != now[q].name by {
            let p0: int = if p < i { p } else { p + 1 };
            let q0: int = if q < i { q } else { q + 1 };
            assert(now[p] == orig[p0]);
            assert(now[q] == orig[q0]);
        }
    }
    if i == 0 {
        assert(now =~= orig.drop_first());
        lemma_absent_no_get_wf(now, name, orig);
        assert forall|n: Seq<char>| n != name implies rec_get(now, n) == rec_get(orig, n) by {
            assert(rec_get(orig, n) == rec_get(orig.drop_first(), n));
        }
    } else {
        assert(now[0] == orig[0]);
        assert(orig[0].name != name);
        lemma_wf_drop_first(orig);
        assert(now.drop_first() =~= orig.drop_first().remove(i - 1));
        assert(orig.drop_first()[i - 1].name == name);
        lemma_remove_at(orig.drop_first(), i - 1, name);
        assert forall|n: Seq<char>| n != name implies rec_get(now, n) == rec_get(orig, n) by {
            if orig[0].name != n {
                assert(rec_get(now, n) == rec_get(now.drop_first(), n));
                assert(rec_get(orig, n) == rec_get(orig.drop_first(), n));
            }
        }
        assert(!rec_has(now, name)) by {
            assert(rec_get(now, name) == rec_get(now.drop_first(), name));
        }
    }
}

/// Well-formedness restricts to the tail.
proof fn lemma_wf_drop_first(s: Seq<FieldV>)
    requires
        rec_wf(s),
        s.len() > 0,
    ensures
        rec_wf(s.drop_first()),
{
    assert forall|p: int, q: int|
        0 <= p < q < s.drop_first().len() implies s.drop_first()[p].name != s.drop_first()[q].name by {
        assert(s.drop_first()[p] == s[p + 1]);
        assert(s.drop_first()[q] == s[q + 1]);
    }
}

/// A name bound at no index is not found.
proof fn lemma_absent_no_get(fields: Seq<FieldV>, name: Seq<char>)
    requires
        forall|j: int| 0 <= j < fields.len() ==> fields[j].name != name,
    ensures
        !rec_has(fields, name),
    decreases fields.len(),
{
    if fields.len() > 0 {
        assert(forall|j: int|
            0 <= j < fields.drop_first().len() ==> fields.drop_first()[j].name != name);
        lemma_absent_no_get(fields.drop_first(), name);
    }
}

/// In a well-formed sequence, removing the index bound to `name` unbinds it.
proof fn lemma_absent_no_get_wf(now: Seq<FieldV>, name: Seq<char>, orig: Seq<FieldV>)
    requires
        rec_wf(orig),
        orig.len() > 0,
        orig[0].name == name,
        now == orig.drop_first(),
    ensures
        !rec_has(now, name),
{
    assert forall|j: int| 0 <= j < now.len() implies now[j].name != name by {
        assert(now[j] == orig[j + 1]);
    }
    lemma_absent_no_get(now, name);
}

/// Looking a name up in `take(i)` when index `i - 1` binds it.
proof fn lemma_take_get(src: Seq<FieldV>, i: int, name: Seq<char>)
    requires
        rec_wf(src),
        0 < i <= src.len(),
        src[i - 1].name == name,
    ensures
        rec_get(src.take(i), name) == Some(src[i - 1].value),
{
    assert(rec_wf(src.take(i))) by {
        assert forall|p: int, q: int|
            0 <= p < q < i implies src.take(i)[p].name != src.take(i)[q].name by {
            assert(src.take(i)[p] == src[p]);
            assert(src.take(i)[q] == src[q]);
        }
    }
    lemma_rec_get_at(src.take(i), i - 1);
}

/// How one more field changes lookups over a take-prefix.
proof fn lemma_take_step(src: Seq<FieldV>, i: int, name: Seq<char>)
    requires
        rec_wf(src),
        0 < i <= src.len(),
    ensures
        name == src[i - 1].name ==> rec_get(src.take(i), name) == Some(src[i - 1].value),
        name != src[i - 1].name ==> rec_get(src.take(i), name) == rec_get(src.take(i - 1), name),
    decreases i,
{
    if name == src[i - 1].name {
        lemma_take_get(src, i, name);
    } else {
        if i == 1 {
            assert(src.take(0) =~= Seq::<FieldV>::empty());
            assert(src.take(1).len() == 1);
            assert(src.take(1)[0] == src[0]);
            assert(src.take(1).drop_first() =~= Seq::<FieldV>::empty());
        } else {
            assert(src.take(i).drop_last() =~= src.take(i - 1));
            assert(src.take(i).last() == src[i - 1]);
            lemma_take_step_chain(src.take(i), src.take(i - 1), name);
        }
    }
}

/// `rec_get` ignores a trailing field with a different name.
proof fn lemma_take_step_chain(longer: Seq<FieldV>, shorter: Seq<FieldV>, name: Seq<char>)
    requires
        longer.len() == shorter.len() + 1,
        shorter == longer.drop_last(),
        longer.last().name != name,
    ensures
        rec_get(longer, name) == rec_get(shorter, name),
    decreases longer.len(),
{
    if shorter.len() == 0 {
        assert(longer[0].name != name);
        assert(longer.drop_first() =~= Seq::<FieldV>::empty());
    } else {
        assert(longer[0] == shorter[0]);
        if longer[0].name != name {
            assert(longer.drop_first().drop_last() =~= shorter.drop_first());
            assert(longer.drop_first().last() == longer.last());
            lemma_take_step_chain(longer.drop_first(), shorter.drop_first(), name);
        }
    }
}

} // verus!
