//! The JSON-model value tree that the codec reads and writes.

use vstd::prelude::*;
use vstd::pervasive::VecAdditionalExecFns;
use crate::number::Number;

verus! {

/// A JSON-model value: null, boolean, number, string, array, or
/// object.  Objects are ordered lists of entries; insertion order is
/// emission order, and well-formed objects have distinct keys.
#[derive(Debug, PartialEq)]
pub enum Value {
    Null,
    Bool(bool),
    Num(Number),
    Str(String),
    Array(Vec<Value>),
    Object(Vec<(String, Value)>),
}

/// The mathematical image of a [`Value`].
pub enum ValueModel {
    Null,
    Bool(bool),
    Num(Number),
    Str(Seq<char>),
    Arr(Seq<ValueModel>),
    Obj(Seq<(Seq<char>, ValueModel)>),
}

impl Value {
    /// The mathematical image of this value.
    pub open spec fn deep(self) -> ValueModel
        decreases self,
    {
        match self {
            Value::Null => ValueModel::Null,
            Value::Bool(b) => ValueModel::Bool(b),
            Value::Num(n) => ValueModel::Num(n),
            Value::Str(s) => ValueModel::Str(s@),
            Value::Array(a) => ValueModel::Arr(deep_seq(a@)),
            Value::Object(o) => ValueModel::Obj(deep_entries(o@)),
        }
    }

    /// Well-formedness: numbers are in normal form and object keys
    /// are distinct.
    pub open spec fn wf(self) -> bool
        decreases self,
    {
        match self {
            Value::Null => true,
            Value::Bool(_) => true,
            Value::Num(n) => n.wf(),
            Value::Str(_) => true,
            Value::Array(a) => wf_seq(a@),
            Value::Object(o) => wf_entries(o@) && distinct_keys(o@.map_values(|p: (String, Value)| p.0@)),
        }
    }
}

/// The images of the values of `s`, in order.
pub open spec fn deep_seq(s: Seq<Value>) -> Seq<ValueModel>
    decreases s,
{
    if s.len() == 0 {
        Seq::empty()
    } else {
        deep_seq(s.drop_last()).push(s.last().deep())
    }
}

/// The images of the entries of `s`, in order.
pub open spec fn deep_entries(s: Seq<(String, Value)>) -> Seq<(Seq<char>, ValueModel)>
    decreases s,
{
    if s.len() == 0 {
        Seq::empty()
    } else {
        deep_entries(s.drop_last()).push((s.last().0@, s.last().1.deep()))
    }
}

/// Every value of `s` is well-formed.
pub open spec fn wf_seq(s: Seq<Value>) -> bool
    decreases s,
{
    if s.len() == 0 {
        true
    } else {
        wf_seq(s.drop_last()) && s.last().wf()
    }
}

/// Every entry value of `s` is well-formed.
pub open spec fn wf_entries(s: Seq<(String, Value)>) -> bool
    decreases s,
{
    if s.len() == 0 {
        true
    } else {
        wf_entries(s.drop_last()) && s.last().1.wf()
    }
}

/// No key occurs twice.
pub open spec fn distinct_keys(keys: Seq<Seq<char>>) -> bool {
    forall|i: int, j: int| 0 <= i < j < keys.len() ==> keys[i] != keys[j]
}

pub proof fn lemma_deep_seq(s: Seq<Value>)
    ensures
        deep_seq(s).len() == s.len(),
        forall|i: int| 0 <= i < s.len() ==> deep_seq(s)[i] == (#[trigger] s[i]).deep(),
    decreases s,
{
    if s.len() > 0 {
        lemma_deep_seq(s.drop_last());
        assert forall|i: int| 0 <= i < s.len() implies deep_seq(s)[i] == (#[trigger] s[i]).deep() by {
            if i < s.len() - 1 {
                assert(s[i] == s.drop_last()[i]);
                assert(deep_seq(s)[i] == deep_seq(s.drop_last())[i]);
            } else {
                assert(s[i] == s.last());
            }
        }
    }
}

pub proof fn lemma_deep_entries(s: Seq<(String, Value)>)
    ensures
        deep_entries(s).len() == s.len(),
        forall|i: int|
            0 <= i < s.len() ==> deep_entries(s)[i] == ((#[trigger] s[i]).0@, s[i].1.deep()),
    decreases s,
{
    if s.len() > 0 {
        lemma_deep_entries(s.drop_last());
        assert forall|i: int|
            0 <= i < s.len() implies deep_entries(s)[i] == ((#[trigger] s[i]).0@, s[i].1.deep()) by {
            if i < s.len() - 1 {
                assert(s[i] == s.drop_last()[i]);
                assert(deep_entries(s)[i] == deep_entries(s.drop_last())[i]);
            } else {
                assert(s[i] == s.last());
            }
        }
    }
}

pub proof fn lemma_wf_seq(s: Seq<Value>)
    ensures
        wf_seq(s) <==> (forall|i: int| 0 <= i < s.len() ==> (#[trigger] s[i]).wf()),
    decreases s,
{
    if s.len() > 0 {
        lemma_wf_seq(s.drop_last());
        if wf_seq(s) {
            assert forall|i: int| 0 <= i < s.len() implies (#[trigger] s[i]).wf() by {
                if i < s.len() - 1 {
                    assert(s[i] == s.drop_last()[i]);
                } else {
                    assert(s[i] == s.last());
                }
            }
        }
        if forall|i: int| 0 <= i < s.len() ==> (#[trigger] s[i]).wf() {
            assert forall|i: int| 0 <= i < s.drop_last().len() implies (#[trigger] s.drop_last()[i]).wf() by {
                assert(s.drop_last()[i] == s[i]);
            }
            assert(s.last() == s[s.len() - 1]);
        }
    }
}

pub proof fn lemma_wf_entries(s: Seq<(String, Value)>)
    ensures
        wf_entries(s) <==> (forall|i: int| 0 <= i < s.len() ==> (#[trigger] s[i]).1.wf()),
    decreases s,
{
    if s.len() > 0 {
        lemma_wf_entries(s.drop_last());
        if wf_entries(s) {
            assert forall|i: int| 0 <= i < s.len() implies (#[trigger] s[i]).1.wf() by {
                if i < s.len() - 1 {
                    assert(s[i] == s.drop_last()[i]);
                } else {
                    assert(s[i] == s.last());
                }
            }
        }
        if forall|i: int| 0 <= i < s.len() ==> (#[trigger] s[i]).1.wf() {
            assert forall|i: int| 0 <= i < s.drop_last().len() implies (#[trigger] s.drop_last()[i]).1.wf() by {
                assert(s.drop_last()[i] == s[i]);
            }
            assert(s.last() == s[s.len() - 1]);
        }
    }
}

/// The value bound to `key` in the entry list `o`, if any.
pub open spec fn spec_obj_get(o: Seq<(Seq<char>, ValueModel)>, key: Seq<char>) -> Option<ValueModel>
    decreases o.len(),
{
    if o.len() == 0 {
        None
    } else if o[0].0 == key {
        Some(o[0].1)
    } else {
        spec_obj_get(o.drop_first(), key)
    }
}

/// `o` with `v` bound to `key`: the first entry of that key is
/// replaced in place, or a new entry is appended.
pub open spec fn spec_obj_insert(
    o: Seq<(Seq<char>, ValueModel)>,
    key: Seq<char>,
    v: ValueModel,
) -> Seq<(Seq<char>, ValueModel)>
    decreases o.len(),
{
    if o.len() == 0 {
        seq![(key, v)]
    } else if o[0].0 == key {
        seq![(o[0].0, v)] + o.drop_first()
    } else {
        seq![o[0]] + spec_obj_insert(o.drop_first(), key, v)
    }
}

/// A borrow of the value bound to `key`, scanning entries in order.
pub fn obj_get<'a>(o: &'a Vec<(String, Value)>, key: &String) -> (r: Option<&'a Value>)
    ensures
        match r {
            Some(v) => spec_obj_get(deep_entries(o@), key@) == Some(v.deep()) && exists|i: int|
                0 <= i < o@.len() && *v == (#[trigger] o@[i]).1,
            None => spec_obj_get(deep_entries(o@), key@) is None,
        },
{
    let ghost entries = deep_entries(o@);
    proof {
        lemma_deep_entries(o@);
        lemma_obj_get_skip(entries, key@, 0);
    }
    let mut i: usize = 0;
    while i < o.len()
        invariant
            entries == deep_entries(o@),
            deep_entries(o@).len() == o@.len(),
            forall|j: int|
                0 <= j < o@.len() ==> deep_entries(o@)[j] == ((#[trigger] o@[j]).0@, o@[j].1.deep()),
            i <= o@.len(),
            spec_obj_get(entries, key@) == spec_obj_get(
                entries.subrange(i as int, entries.len() as int),
                key@,
            ),
        decreases o@.len() - i,
    {
        let ghost rest = entries.subrange(i as int, entries.len() as int);
        proof {
            assert(rest.len() > 0);
            assert(rest[0] == entries[i as int]);
            assert(rest.drop_first() =~= entries.subrange(i as int + 1, entries.len() as int));
        }
        if o[i].0.eq(key) {
            proof {
                assert(spec_obj_get(rest, key@) == Some(rest[0].1));
                assert(o@[i as int].1 == o@[i as int].1);
            }
            return Some(&o[i].1);
        }
        proof {
            assert(spec_obj_get(rest, key@) == spec_obj_get(rest.drop_first(), key@));
        }
        i = i + 1;
    }
    proof {
        assert(entries.subrange(entries.len() as int, entries.len() as int).len() == 0);
    }
    None
}

proof fn lemma_obj_get_skip(o: Seq<(Seq<char>, ValueModel)>, key: Seq<char>, i: int)
    requires
        i == 0,
    ensures
        spec_obj_get(o, key) == spec_obj_get(o.subrange(0, o.len() as int), key),
{
    assert(o.subrange(0, o.len() as int) =~= o);
}

/// When `key` is absent, inserting appends.
pub proof fn lemma_obj_insert_missing(o: Seq<(Seq<char>, ValueModel)>, key: Seq<char>, v: ValueModel)
    requires
        forall|j: int| 0 <= j < o.len() ==> (#[trigger] o[j]).0 != key,
    ensures
        spec_obj_insert(o, key, v) =~= o.push((key, v)),
    decreases o.len(),
{
    if o.len() == 0 {
    } else {
        assert(o[0].0 != key);
        assert forall|j: int| 0 <= j < o.drop_first().len() implies (#[trigger] o.drop_first()[j]).0
            != key by {
            assert(o.drop_first()[j] == o[j + 1]);
        }
        lemma_obj_insert_missing(o.drop_first(), key, v);
        assert(seq![o[0]] + o.drop_first().push((key, v)) =~= o.push((key, v)));
    }
}

/// When `key` first occurs at `k`, inserting updates that entry.
pub proof fn lemma_obj_insert_found(
    o: Seq<(Seq<char>, ValueModel)>,
    key: Seq<char>,
    v: ValueModel,
    k: int,
)
    requires
        0 <= k < o.len(),
        o[k].0 == key,
        forall|j: int| 0 <= j < k ==> (#[trigger] o[j]).0 != key,
    ensures
        spec_obj_insert(o, key, v) =~= o.update(k, (o[k].0, v)),
    decreases o.len(),
{
    if k == 0 {
        assert(seq![(o[0].0, v)] + o.drop_first() =~= o.update(0, (o[0].0, v)));
    } else {
        assert(o[0].0 != key);
        assert forall|j: int| 0 <= j < k - 1 implies (#[trigger] o.drop_first()[j]).0 != key by {
            assert(o.drop_first()[j] == o[j + 1]);
        }
        assert(o.drop_first()[k - 1] == o[k]);
        lemma_obj_insert_found(o.drop_first(), key, v, k - 1);
        assert(seq![o[0]] + o.drop_first().update(k - 1, (o[k].0, v)) =~= o.update(
            k,
            (o[k].0, v),
        ));
    }
}

/// Binds `v` to `key`: the first entry of that key is replaced in
/// place, or a new entry is appended.
pub fn obj_insert(o: &mut Vec<(String, Value)>, key: String, v: Value)
    ensures
        deep_entries(final(o)@) == spec_obj_insert(deep_entries(old(o)@), key@, v.deep()),
{
    let ghost entries = deep_entries(old(o)@);
    proof {
        lemma_deep_entries(old(o)@);
    }
    let mut i: usize = 0;
    while i < o.len()
        invariant
            o == old(o),
            entries == deep_entries(o@),
            entries.len() == o@.len(),
            forall|j: int|
                0 <= j < o@.len() ==> entries[j] == ((#[trigger] o@[j]).0@, o@[j].1.deep()),
            i <= o@.len(),
            forall|j: int| 0 <= j < i ==> (#[trigger] entries[j]).0 != key@,
        decreases o@.len() - i,
    {
        if o[i].0.eq(&key) {
            proof {
                lemma_obj_insert_found(entries, key@, v.deep(), i as int);
            }
            let ghost before = o@;
            let ghost vm = v.deep();
            let kept = o[i].0.clone();
            o.set(i, (kept, v));
            proof {
                lemma_deep_entries(o@);
                let target = entries.update(i as int, (entries[i as int].0, vm));
                assert(deep_entries(o@).len() == target.len());
                assert forall|j: int| 0 <= j < target.len() implies deep_entries(o@)[j]
                    == target[j] by {
                    assert(deep_entries(o@)[j] == ((o@[j]).0@, o@[j].1.deep()));
                    if j != i {
                        assert(o@[j] == before[j]);
                        assert(entries[j] == ((before[j]).0@, before[j].1.deep()));
                    } else {
                        let b = before[i as int];
                        assert(entries[i as int] == (b.0@, b.1.deep()));
                    }
                }
                assert(deep_entries(o@) =~= target);
            }
            return ;
        }
        i = i + 1;
    }
    proof {
        lemma_obj_insert_missing(entries, key@, v.deep());
    }
    let ghost before = o@;
    let ghost vm = v.deep();
    let ghost km = key@;
    o.push((key, v));
    proof {
        lemma_deep_entries(o@);
        let target = entries.push((km, vm));
        assert(deep_entries(o@).len() == target.len());
        assert forall|j: int| 0 <= j < target.len() implies deep_entries(o@)[j] == target[j] by {
            assert(deep_entries(o@)[j] == ((o@[j]).0@, o@[j].1.deep()));
            if j < before.len() {
                assert(o@[j] == before[j]);
                assert(entries[j] == ((before[j]).0@, before[j].1.deep()));
            }
        }
        assert(deep_entries(o@) =~= target);
    }
}

} // verus!
