//! The in-memory PSB value tree and its mathematical view.
use vstd::prelude::*;

verus! {

/// An indexed binary blob (texture, audio, raw bytes) of a PSB file.
#[derive(Debug, Clone)]
pub struct Stream {
    pub index: u32,
    pub data: Vec<u8>,
}

/// A PSB value. Floats are kept as the bit pattern of an IEEE-754 double;
/// objects keep their entries in insertion order, with distinct keys.
#[derive(Debug)]
pub enum Value {
    Null,
    Bool(bool),
    Int(i64),
    Float(u64),
    String(String),
    Array(Vec<Value>),
    Object(Vec<(String, Value)>),
    Stream(Stream),
    BStream(Stream),
}

/// Mathematical view of a [`Value`].
pub enum ValueView {
    Null,
    Bool(bool),
    Int(i64),
    Float(u64),
    Str(Seq<char>),
    Array(Seq<ValueView>),
    Object(Seq<(Seq<char>, ValueView)>),
    Stream(u32, Seq<u8>),
    BStream(u32, Seq<u8>),
}

pub open spec fn view_values(s: Seq<Value>) -> Seq<ValueView>
    decreases s,
{
    if s.len() == 0 {
        Seq::empty()
    } else {
        seq![view_value(s[0])] + view_values(s.drop_first())
    }
}

pub open spec fn view_entries(s: Seq<(String, Value)>) -> Seq<(Seq<char>, ValueView)>
    decreases s,
{
    if s.len() == 0 {
        Seq::empty()
    } else {
        seq![(s[0].0@, view_value(s[0].1))] + view_entries(s.drop_first())
    }
}

pub open spec fn view_value(v: Value) -> ValueView
    decreases v,
{
    match v {
        Value::Null => ValueView::Null,
        Value::Bool(b) => ValueView::Bool(b),
        Value::Int(i) => ValueView::Int(i),
        Value::Float(f) => ValueView::Float(f),
        Value::String(s) => ValueView::Str(s@),
        Value::Array(a) => ValueView::Array(view_values(a@)),
        Value::Object(o) => ValueView::Object(view_entries(o@)),
        Value::Stream(s) => ValueView::Stream(s.index, s.data@),
        Value::BStream(s) => ValueView::BStream(s.index, s.data@),
    }
}

impl View for Value {
    type V = ValueView;

    open spec fn view(&self) -> ValueView {
        view_value(*self)
    }
}

pub proof fn lemma_view_values_push(s: Seq<Value>, v: Value)
    ensures
        view_values(s.push(v)) == view_values(s).push(view_value(v)),
    decreases s.len(),
{
    if s.len() == 0 {
        assert(s.push(v).drop_first() =~= Seq::<Value>::empty());
        assert(view_values(Seq::<Value>::empty()) =~= Seq::<ValueView>::empty());
        assert(s.push(v)[0] == v);
        assert(view_values(s.push(v)) =~= seq![view_value(v)]);
        assert(view_values(s) =~= Seq::<ValueView>::empty());
    } else {
        assert(s.push(v).drop_first() =~= s.drop_first().push(v));
        lemma_view_values_push(s.drop_first(), v);
        assert(view_values(s.push(v)) =~= view_values(s).push(view_value(v)));
    }
}

pub proof fn lemma_view_values_len(s: Seq<Value>)
    ensures
        view_values(s).len() == s.len(),
        forall|i: int| 0 <= i < s.len() ==> #[trigger] view_values(s)[i] == view_value(s[i]),
    decreases s.len(),
{
    if s.len() > 0 {
        lemma_view_values_len(s.drop_first());
        assert forall|i: int| 0 <= i < s.len() implies #[trigger] view_values(s)[i] == view_value(
            s[i],
        ) by {
            if i > 0 {
                assert(s.drop_first()[i - 1] == s[i]);
            }
        }
    }
}

pub proof fn lemma_view_entries_len(s: Seq<(String, Value)>)
    ensures
        view_entries(s).len() == s.len(),
        forall|i: int|
            0 <= i < s.len() ==> #[trigger] view_entries(s)[i] == (s[i].0@, view_value(s[i].1)),
    decreases s.len(),
{
    if s.len() > 0 {
        lemma_view_entries_len(s.drop_first());
        assert forall|i: int| 0 <= i < s.len() implies #[trigger] view_entries(s)[i] == (
            s[i].0@,
            view_value(s[i].1),
        ) by {
            if i > 0 {
                assert(s.drop_first()[i - 1] == s[i]);
            }
        }
    }
}

impl Value {
    /// A copy of the whole tree.
    pub fn duplicate(&self) -> (r: Value)
        ensures
            r@ == self@,
        decreases self,
    {
        match self {
            Value::Null => Value::Null,
            Value::Bool(b) => Value::Bool(*b),
            Value::Int(i) => Value::Int(*i),
            Value::Float(f) => Value::Float(*f),
            Value::String(s) => Value::String(s.clone()),
            Value::Array(a) => {
                let mut out: Vec<Value> = Vec::new();
                let mut i: usize = 0;
                while i < a.len()
                    invariant
                        i <= a@.len(),
                        *self == Value::Array(*a),
                        view_values(out@) == view_values(a@.subrange(0, i as int)),
                    decreases a@.len() - i,
                {
                    proof {
                        assert(decreases_to!(a@ => a@[i as int]));
                        assert(decreases_to!(*a => a@));
                        assert((*self)->Array_0 == *a);
                        assert(decreases_to!(*self => (*self)->Array_0));
                    }
                    let c = a[i].duplicate();
                    proof {
                        lemma_view_values_push(out@, c);
                        lemma_view_values_push(a@.subrange(0, i as int), a@[i as int]);
                        assert(a@.subrange(0, i as int).push(a@[i as int]) =~= a@.subrange(
                            0,
                            i + 1,
                        ));
                    }
                    out.push(c);
                    i = i + 1;
                }
                assert(a@.subrange(0, a@.len() as int) =~= a@);
                Value::Array(out)
            },
            Value::Object(o) => {
                let mut out: Vec<(String, Value)> = Vec::new();
                let mut i: usize = 0;
                while i < o.len()
                    invariant
                        i <= o@.len(),
                        *self == Value::Object(*o),
                        view_entries(out@) == view_entries(o@.subrange(0, i as int)),
                    decreases o@.len() - i,
                {
                    proof {
                        assert(decreases_to!(o@[i as int] => o@[i as int].1));
                        assert(decreases_to!(o@ => o@[i as int]));
                        assert(decreases_to!(*o => o@));
                        assert((*self)->Object_0 == *o);
                        assert(decreases_to!(*self => (*self)->Object_0));
                    }
                    let c = (o[i].0.clone(), o[i].1.duplicate());
                    proof {
                        lemma_view_entries_push(out@, c);
                        lemma_view_entries_push(o@.subrange(0, i as int), o@[i as int]);
                        assert(o@.subrange(0, i as int).push(o@[i as int]) =~= o@.subrange(
                            0,
                            i + 1,
                        ));
                    }
                    out.push(c);
                    i = i + 1;
                }
                assert(o@.subrange(0, o@.len() as int) =~= o@);
                Value::Object(out)
            },
            Value::Stream(s) => Value::Stream(Stream { index: s.index, data: s.data.clone() }),
            Value::BStream(s) => Value::BStream(Stream { index: s.index, data: s.data.clone() }),
        }
    }
}

pub proof fn lemma_view_entries_push(s: Seq<(String, Value)>, e: (String, Value))
    ensures
        view_entries(s.push(e)) == view_entries(s).push((e.0@, view_value(e.1))),
    decreases s.len(),
{
    if s.len() == 0 {
        assert(s.push(e).drop_first() =~= Seq::<(String, Value)>::empty());
        assert(view_entries(Seq::<(String, Value)>::empty()) =~= Seq::<(Seq<char>, ValueView)>::empty());
        assert(s.push(e)[0] == e);
        assert(view_entries(s.push(e)) =~= seq![(e.0@, view_value(e.1))]);
        assert(view_entries(s) =~= Seq::<(Seq<char>, ValueView)>::empty());
    } else {
        assert(s.push(e).drop_first() =~= s.drop_first().push(e));
        lemma_view_entries_push(s.drop_first(), e);
        assert(view_entries(s.push(e)) =~= view_entries(s).push((e.0@, view_value(e.1))));
    }
}

/// Index of the entry with key `k`, or -1.
pub open spec fn find_key(s: Seq<(Seq<char>, ValueView)>, k: Seq<char>) -> int
    decreases s.len(),
{
    if s.len() == 0 {
        -1
    } else if s.last().0 == k {
        s.len() - 1
    } else {
        find_key(s.drop_last(), k)
    }
}

/// An object after inserting `(k, v)`: an entry with key `k` keeps its
/// position and takes the new value; otherwise the entry goes last.
pub open spec fn insert_entry(s: Seq<(Seq<char>, ValueView)>, k: Seq<char>, v: ValueView) -> Seq<
    (Seq<char>, ValueView),
> {
    let i = find_key(s, k);
    if i >= 0 {
        s.update(i, (k, v))
    } else {
        s.push((k, v))
    }
}

pub proof fn lemma_find_key(s: Seq<(Seq<char>, ValueView)>, k: Seq<char>)
    ensures
        -1 <= find_key(s, k) < s.len(),
        find_key(s, k) >= 0 ==> s[find_key(s, k)].0 == k,
        find_key(s, k) == -1 ==> forall|j: int| 0 <= j < s.len() ==> s[j].0 != k,
    decreases s.len(),
{
    if s.len() > 0 && s.last().0 != k {
        lemma_find_key(s.drop_last(), k);
        if find_key(s, k) == -1 {
            assert forall|j: int| 0 <= j < s.len() implies s[j].0 != k by {
                if j < s.len() - 1 {
                    assert(s.drop_last()[j] == s[j]);
                }
            }
        }
    }
}

/// The value an object's entries give key `k`: that of the last entry with
/// key `k`, if there is one.
pub open spec fn lookup(s: Seq<(Seq<char>, ValueView)>, k: Seq<char>) -> Option<ValueView> {
    if find_key(s, k) >= 0 {
        Some(s[find_key(s, k)].1)
    } else {
        None
    }
}

/// The entry at `i` is the last one with its key.
pub proof fn lemma_find_key_at(s: Seq<(Seq<char>, ValueView)>, k: Seq<char>, i: int)
    requires
        0 <= i < s.len(),
        s[i].0 == k,
        forall|j: int| i < j < s.len() ==> #[trigger] s[j].0 != k,
    ensures
        find_key(s, k) == i,
        lookup(s, k) == Some(s[i].1),
    decreases s.len(),
{
    if i < s.len() - 1 {
        assert(s.last().0 != k);
        assert forall|j: int| i < j < s.drop_last().len() implies #[trigger] s.drop_last()[j].0 != k by {
            assert(s.drop_last()[j] == s[j]);
        }
        lemma_find_key_at(s.drop_last(), k, i);
    }
}

/// No entry has key `k`.
pub proof fn lemma_find_key_absent(s: Seq<(Seq<char>, ValueView)>, k: Seq<char>)
    requires
        forall|j: int| 0 <= j < s.len() ==> #[trigger] s[j].0 != k,
    ensures
        find_key(s, k) == -1,
        lookup(s, k) is None,
{
    lemma_find_key(s, k);
}

/// No entry after the one `find_key` finds has its key.
pub proof fn lemma_find_key_last(s: Seq<(Seq<char>, ValueView)>, k: Seq<char>)
    ensures
        find_key(s, k) >= 0 ==> forall|j: int| find_key(s, k) < j < s.len() ==> #[trigger] s[j].0 != k,
    decreases s.len(),
{
    if s.len() > 0 && s.last().0 != k {
        lemma_find_key_last(s.drop_last(), k);
        assert(find_key(s, k) == find_key(s.drop_last(), k));
        if find_key(s, k) >= 0 {
            assert forall|j: int| find_key(s, k) < j < s.len() implies #[trigger] s[j].0 != k by {
                if j < s.len() - 1 {
                    assert(s.drop_last()[j] == s[j]);
                } else {
                    assert(s[j] == s.last());
                }
            }
        }
    }
}

/// Entries appended after others decide a key they hold.
pub proof fn lemma_lookup_concat(s: Seq<(Seq<char>, ValueView)>, t: Seq<(Seq<char>, ValueView)>, k: Seq<char>)
    ensures
        lookup(t, k) is Some ==> lookup(s + t, k) == lookup(t, k),
        lookup(t, k) is None ==> lookup(s + t, k) == lookup(s, k),
    decreases t.len(),
{
    if t.len() == 0 {
        assert(s + t =~= s);
    } else {
        assert((s + t).drop_last() =~= s + t.drop_last());
        assert((s + t).last() == t.last());
        lemma_lookup_concat(s, t.drop_last(), k);
        if t.last().0 != k {
            assert(find_key(s + t, k) == find_key(s + t.drop_last(), k));
            assert(find_key(t, k) == find_key(t.drop_last(), k));
            lemma_find_key(s + t.drop_last(), k);
            lemma_find_key(t.drop_last(), k);
            if find_key(t.drop_last(), k) >= 0 {
                assert((s + t)[find_key(s + t, k)] == (s + t.drop_last())[find_key(s + t, k)]);
                assert(t[find_key(t, k)] == t.drop_last()[find_key(t, k)]);
            } else {
                lemma_find_key(s, k);
                if find_key(s, k) >= 0 {
                    assert((s + t)[find_key(s + t, k)] == (s + t.drop_last())[find_key(s + t, k)]);
                }
            }
        }
    }
}

/// After inserting `(k, v)`, `k` gives `v` and every other key what it gave.
pub proof fn lemma_insert_lookup(s: Seq<(Seq<char>, ValueView)>, k: Seq<char>, v: ValueView, k2: Seq<char>)
    ensures
        lookup(insert_entry(s, k, v), k) == Some(v),
        k2 != k ==> lookup(insert_entry(s, k, v), k2) == lookup(s, k2),
{
    lemma_find_key(s, k);
    lemma_find_key_last(s, k);
    lemma_find_key(s, k2);
    lemma_find_key_last(s, k2);
    let t = insert_entry(s, k, v);
    let i = find_key(s, k);
    if i >= 0 {
        lemma_find_key_at(t, k, i);
        if k2 != k {
            let f = find_key(s, k2);
            if f >= 0 {
                assert forall|j: int| f < j < t.len() implies #[trigger] t[j].0 != k2 by {
                    assert(s[j].0 != k2);
                }
                lemma_find_key_at(t, k2, f);
            } else {
                assert forall|j: int| 0 <= j < t.len() implies #[trigger] t[j].0 != k2 by {
                    assert(s[j].0 != k2);
                }
                lemma_find_key_absent(t, k2);
            }
        }
    } else {
        lemma_find_key_at(t, k, s.len() as int);
        if k2 != k {
            assert(t.drop_last() =~= s);
        }
    }
}

/// Inserts into an object the way an insertion-ordered map does.
pub fn object_insert(entries: &mut Vec<(String, Value)>, key: String, value: Value)
    ensures
        view_entries(final(entries)@) == insert_entry(view_entries(old(entries)@), key@, value@),
{
    proof {
        lemma_view_entries_len(entries@);
        lemma_find_key(view_entries(entries@), key@);
    }
    let ghost old_view = view_entries(entries@);
    let mut i: usize = entries.len();
    assert(old_view.subrange(0, i as int) =~= old_view);
    while i > 0
        invariant
            i <= entries@.len(),
            entries@ == old(entries)@,
            old_view == view_entries(entries@),
            old_view.len() == entries@.len(),
            forall|j: int| i <= j < entries@.len() ==> entries@[j].0@ != key@,
            find_key(old_view, key@) == find_key(old_view.subrange(0, i as int), key@),
        decreases i,
    {
        proof {
            lemma_view_entries_len(entries@);
        }
        if entries[i - 1].0 == key {
            proof {
                assert(old_view.subrange(0, i as int).last().0 == key@);
            }
            let idx = i - 1;
            proof {
                lemma_view_entries_len(entries@);
            }
            let mut e = entries.remove(idx);
            e.1 = value;
            entries.insert(idx, e);
            proof {
                lemma_view_entries_len(entries@);
                lemma_view_entries_len(old(entries)@);
                assert(view_entries(entries@) =~= insert_entry(old_view, key@, value@));
            }
            return ;
        }
        proof {
            assert(old_view.subrange(0, i as int).drop_last() =~= old_view.subrange(
                0,
                i - 1,
            ));
        }
        i = i - 1;
    }
    proof {
        assert(old_view.subrange(0, 0) =~= Seq::<(Seq<char>, ValueView)>::empty());
    }
    entries.push((key, value));
    proof {
        lemma_view_entries_len(entries@);
        lemma_view_entries_len(old(entries)@);
        assert(view_entries(entries@) =~= insert_entry(old_view, key@, value@));
    }
}

} // verus!
