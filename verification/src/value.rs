use vstd::prelude::*;
use vstd::string::StrSliceExecFns;

verus! {

/// A structured value: the tree form shared by the decoder and the encoder.
/// Objects are kept as ordered lists of key/value pairs; the decoder keeps
/// them sorted by key with unique keys, and the encoder sorts before emitting.
#[derive(Debug, PartialEq, Eq)]
pub enum Value {
    Null,
    Bool(bool),
    Int(i64),
    Str(String),
    Arr(Vec<Value>),
    Obj(Vec<(String, Value)>),
}

/// The mathematical model of a `Value`: unbounded integers, character
/// sequences for text, sequences for both containers.
pub enum SpecValue {
    Null,
    Bool(bool),
    Int(int),
    Str(Seq<char>),
    Arr(Seq<SpecValue>),
    Obj(Seq<(Seq<char>, SpecValue)>),
}

pub open spec fn view_value(v: Value) -> SpecValue
    decreases v,
{
    match v {
        Value::Null => SpecValue::Null,
        Value::Bool(b) => SpecValue::Bool(b),
        Value::Int(n) => SpecValue::Int(n as int),
        Value::Str(s) => SpecValue::Str(s@),
        Value::Arr(items) => SpecValue::Arr(view_values(items@)),
        Value::Obj(pairs) => SpecValue::Obj(view_entries(pairs@)),
    }
}

pub open spec fn view_values(items: Seq<Value>) -> Seq<SpecValue>
    decreases items,
{
    if items.len() == 0 {
        Seq::empty()
    } else {
        seq![view_value(items[0])] + view_values(items.drop_first())
    }
}

pub open spec fn view_entries(pairs: Seq<(String, Value)>) -> Seq<(Seq<char>, SpecValue)>
    decreases pairs,
{
    if pairs.len() == 0 {
        Seq::empty()
    } else {
        seq![(pairs[0].0@, view_value(pairs[0].1))] + view_entries(pairs.drop_first())
    }
}

impl View for Value {
    type V = SpecValue;

    open spec fn view(&self) -> SpecValue {
        view_value(*self)
    }
}

pub proof fn lemma_view_values(items: Seq<Value>)
    ensures
        view_values(items).len() == items.len(),
        forall|i: int| 0 <= i < items.len() ==> view_values(items)[i] == view_value(#[trigger] items[i]),
    decreases items.len(),
{
    if items.len() > 0 {
        lemma_view_values(items.drop_first());
        assert forall|i: int| 0 <= i < items.len() implies view_values(items)[i] == view_value(
            #[trigger] items[i],
        ) by {
            if i > 0 {
                assert(items.drop_first()[i - 1] == items[i]);
                assert(view_values(items)[i] == view_values(items.drop_first())[i - 1]);
            }
        }
    }
}

pub proof fn lemma_view_entries(pairs: Seq<(String, Value)>)
    ensures
        view_entries(pairs).len() == pairs.len(),
        forall|i: int| 0 <= i < pairs.len() ==> view_entries(pairs)[i] == ((#[trigger] pairs[i]).0@, view_value(pairs[i].1)),
    decreases pairs.len(),
{
    if pairs.len() > 0 {
        lemma_view_entries(pairs.drop_first());
        assert forall|i: int| 0 <= i < pairs.len() implies view_entries(pairs)[i] == ((
        #[trigger] pairs[i]).0@, view_value(pairs[i].1)) by {
            if i > 0 {
                assert(pairs.drop_first()[i - 1] == pairs[i]);
                assert(view_entries(pairs)[i] == view_entries(pairs.drop_first())[i - 1]);
            }
        }
    }
}

/// Strict lexicographic order on text, by code point; for valid text this is
/// the same order as byte order of its encoded form.
pub open spec fn lex_lt(a: Seq<char>, b: Seq<char>) -> bool
    decreases a.len(),
{
    if b.len() == 0 {
        false
    } else if a.len() == 0 {
        true
    } else if a[0] < b[0] {
        true
    } else if b[0] < a[0] {
        false
    } else {
        lex_lt(a.drop_first(), b.drop_first())
    }
}

/// Of two texts, exactly one holds: the first is smaller, they are equal, or
/// the second is smaller.
pub proof fn lemma_lex_trichotomy(a: Seq<char>, b: Seq<char>)
    ensures
        lex_lt(a, b) ==> !lex_lt(b, a) && a != b,
        !lex_lt(a, b) && !lex_lt(b, a) ==> a == b,
    decreases a.len(),
{
    if a.len() == 0 && b.len() == 0 {
        assert(a =~= b);
    } else if a.len() > 0 && b.len() > 0 && !(a[0] < b[0]) && !(b[0] < a[0]) {
        assert(a[0] == b[0]);
        lemma_lex_trichotomy(a.drop_first(), b.drop_first());
        if lex_lt(a, b) {
            assert(a.drop_first() != b.drop_first());
            assert(a != b);
        }
        if !lex_lt(a, b) && !lex_lt(b, a) {
            assert(a.drop_first() == b.drop_first());
            assert forall|i: int| 0 <= i < a.len() implies a[i] == b[i] by {
                if i > 0 {
                    assert(a[i] == a.drop_first()[i - 1]);
                    assert(b[i] == b.drop_first()[i - 1]);
                }
            }
            assert(a =~= b);
        }
    } else if a.len() > 0 && b.len() > 0 {
        assert(a[0] != b[0]);
        assert(a != b);
    }
}

pub proof fn lemma_lex_trans(a: Seq<char>, b: Seq<char>, c: Seq<char>)
    requires
        lex_lt(a, b),
        lex_lt(b, c),
    ensures
        lex_lt(a, c),
    decreases a.len(),
{
    if a.len() > 0 && b.len() > 0 && c.len() > 0 {
        if a[0] == b[0] && b[0] == c[0] {
            lemma_lex_trans(a.drop_first(), b.drop_first(), c.drop_first());
        }
    }
}

/// Insert a key/value pair into a key-sorted pair list, keeping it sorted;
/// an existing binding of the same key is replaced (last write wins).
pub open spec fn insert_pair(
    ps: Seq<(Seq<char>, SpecValue)>,
    k: Seq<char>,
    v: SpecValue,
) -> Seq<(Seq<char>, SpecValue)>
    decreases ps.len(),
{
    if ps.len() == 0 {
        seq![(k, v)]
    } else if lex_lt(k, ps[0].0) {
        seq![(k, v)] + ps
    } else if k == ps[0].0 {
        seq![(k, v)] + ps.drop_first()
    } else {
        seq![ps[0]] + insert_pair(ps.drop_first(), k, v)
    }
}

/// The keys of a pair list are strictly increasing (sorted and unique).
pub open spec fn entries_sorted(ps: Seq<(Seq<char>, SpecValue)>) -> bool {
    forall|i: int, j: int| 0 <= i < j < ps.len() ==> lex_lt((#[trigger] ps[i]).0, (#[trigger] ps[j]).0)
}

/// Inserting at the slot found by a linear scan is what `insert_pair` does.
pub proof fn lemma_insert_pair_at(ps: Seq<(Seq<char>, SpecValue)>, k: Seq<char>, v: SpecValue, j: int)
    requires
        0 <= j <= ps.len(),
        forall|i: int| 0 <= i < j ==> lex_lt((#[trigger] ps[i]).0, k),
        j < ps.len() ==> !lex_lt(ps[j].0, k),
    ensures
        insert_pair(ps, k, v) == (if j < ps.len() && ps[j].0 == k {
            ps.take(j) + seq![(k, v)] + ps.skip(j + 1)
        } else {
            ps.take(j) + seq![(k, v)] + ps.skip(j)
        }),
    decreases j,
{
    if j == 0 {
        if ps.len() == 0 {
            assert(insert_pair(ps, k, v) =~= ps.take(0) + seq![(k, v)] + ps.skip(0));
        } else {
            lemma_lex_trichotomy(k, ps[0].0);
            if ps[0].0 == k {
                assert(insert_pair(ps, k, v) == seq![(k, v)] + ps.drop_first());
                assert(seq![(k, v)] + ps.drop_first() =~= ps.take(0) + seq![(k, v)] + ps.skip(1));
            } else {
                assert(lex_lt(k, ps[0].0));
                assert(insert_pair(ps, k, v) == seq![(k, v)] + ps);
                assert(seq![(k, v)] + ps =~= ps.take(0) + seq![(k, v)] + ps.skip(0));
            }
        }
    } else {
        assert(lex_lt(ps[0].0, k));
        lemma_lex_trichotomy(ps[0].0, k);
        let tail = ps.drop_first();
        assert forall|i: int| 0 <= i < j - 1 implies lex_lt((#[trigger] tail[i]).0, k) by {
            assert(tail[i] == ps[i + 1]);
        }
        assert(j - 1 < tail.len() ==> !lex_lt(tail[j - 1].0, k));
        lemma_insert_pair_at(tail, k, v, j - 1);
        assert(insert_pair(ps, k, v) == seq![ps[0]] + insert_pair(tail, k, v));
        if j < ps.len() && ps[j].0 == k {
            assert(tail[j - 1] == ps[j]);
            assert(seq![ps[0]] + (tail.take(j - 1) + seq![(k, v)] + tail.skip(j)) =~= ps.take(j)
                + seq![(k, v)] + ps.skip(j + 1));
        } else {
            assert(j - 1 < tail.len() ==> tail[j - 1] == ps[j]);
            assert(seq![ps[0]] + (tail.take(j - 1) + seq![(k, v)] + tail.skip(j - 1)) =~= ps.take(
                j,
            ) + seq![(k, v)] + ps.skip(j));
        }
    }
}

/// Whether `a` comes strictly before `b` in lexicographic order.
#[verifier::loop_isolation(false)]
pub(crate) fn str_lex_lt(a: &str, b: &str) -> (r: bool)
    ensures
        r == lex_lt(a@, b@),
{
    let na = a.unicode_len();
    let nb = b.unicode_len();
    let mut i: usize = 0;
    proof {
        assert(a@.skip(0) =~= a@);
        assert(b@.skip(0) =~= b@);
    }
    while i < na && i < nb
        invariant
            0 <= i <= na,
            i <= nb,
            lex_lt(a@, b@) == lex_lt(a@.skip(i as int), b@.skip(i as int)),
        decreases na - i,
    {
        let ca = a.get_char(i);
        let cb = b.get_char(i);
        proof {
            assert(a@.skip(i as int)[0] == a@[i as int]);
            assert(b@.skip(i as int)[0] == b@[i as int]);
        }
        if ca < cb {
            return true;
        }
        if cb < ca {
            return false;
        }
        proof {
            assert(a@.skip(i as int).drop_first() =~= a@.skip(i as int + 1));
            assert(b@.skip(i as int).drop_first() =~= b@.skip(i as int + 1));
        }
        i += 1;
    }
    proof {
        assert(a@.skip(i as int).len() == na - i);
        assert(b@.skip(i as int).len() == nb - i);
    }
    i == na && i < nb
}

/// The first position whose key is not strictly below `key` (or the length).
fn find_slot(pairs: &Vec<(String, Value)>, key: &String) -> (j: usize)
    ensures
        0 <= j <= pairs@.len(),
        forall|i: int| 0 <= i < j ==> lex_lt((#[trigger] pairs@[i]).0@, key@),
        j < pairs@.len() ==> !lex_lt(pairs@[j as int].0@, key@),
{
    let n = pairs.len();
    let mut j: usize = 0;
    while j < n
        invariant
            0 <= j <= n == pairs@.len(),
            forall|i: int| 0 <= i < j ==> lex_lt((#[trigger] pairs@[i]).0@, key@),
        decreases n - j,
    {
        if !str_lex_lt(pairs[j].0.as_str(), key.as_str()) {
            return j;
        }
        j += 1;
    }
    j
}

/// Puts a binding into a key-sorted pair list, keeping it sorted; replaces an
/// existing binding of the same key.
pub(crate) fn insert_entry(pairs: &mut Vec<(String, Value)>, key: String, val: Value)
    ensures
        view_entries(final(pairs)@) == insert_pair(view_entries(old(pairs)@), key@, view_value(val)),
{
    let ghost ps0 = old(pairs)@;
    let ghost psv = view_entries(old(pairs)@);
    let j = find_slot(pairs, &key);
    proof {
        lemma_view_entries(ps0);
        assert forall|i: int| 0 <= i < j implies lex_lt((#[trigger] psv[i]).0, key@) by {
            assert(psv[i] == (ps0[i].0@, view_value(ps0[i].1)));
        }
        assert(j < psv.len() ==> !lex_lt(psv[j as int].0, key@));
        lemma_insert_pair_at(psv, key@, view_value(val), j as int);
    }
    let replace = j < pairs.len() && pairs[j].0 == key;
    if replace {
        pairs.remove(j);
        pairs.insert(j, (key, val));
    } else {
        pairs.insert(j, (key, val));
    }
    proof {
        lemma_view_entries(pairs@);
        let target = insert_pair(psv, key@, view_value(val));
        assert forall|i: int| 0 <= i < pairs@.len() implies view_entries(pairs@)[i] == target[i] by {
            assert(view_entries(pairs@)[i] == ((#[trigger] pairs@[i]).0@, view_value(pairs@[i].1)));
            if i < j {
                assert(pairs@[i] == ps0[i]);
                assert(psv.take(j as int)[i] == psv[i]);
                assert(psv[i] == (ps0[i].0@, view_value(ps0[i].1)));
            } else if i == j {
                assert(pairs@[i] == (key, val));
            } else {
                if replace {
                    assert(pairs@[i] == ps0[i]);
                    assert(psv.skip(j as int + 1)[i - j - 1] == psv[i]);
                    assert(psv[i] == (ps0[i].0@, view_value(ps0[i].1)));
                } else {
                    assert(pairs@[i] == ps0[i - 1]);
                    assert(psv.skip(j as int)[i - j - 1] == psv[i - 1]);
                    assert(psv[i - 1] == (ps0[i - 1].0@, view_value(ps0[i - 1].1)));
                }
            }
        }
        assert(view_entries(pairs@) =~= target);
    }
}

} // verus!
