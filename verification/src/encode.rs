use vstd::prelude::*;
use vstd::string::StrSliceExecFns;
use crate::value::{Value, SpecValue, view_value, view_values, view_entries, lemma_view_values,
    lemma_view_entries, insert_pair, lex_lt, str_lex_lt, lemma_insert_pair_at};
use crate::num::{nat_digits, int_chars, push_char, push_i64, push_u64};

verus! {

/// Why an encode failed.
#[derive(Debug, Clone, Copy, PartialEq, Eq)]
pub enum EncodeError {
    /// The value holds a null or a boolean somewhere; the binary format has
    /// no representation for them, and dropping them silently would lose data.
    UnsupportedValue,
}

impl EncodeError {
    /// A one-line diagnostic for this error.
    pub fn message(&self) -> (m: &'static str)
        ensures
            m@ == "Unsupported value"@,
    {
        "Unsupported value"
    }
}

/// Whether the binary format can represent the value: null and booleans have
/// no representation, everything else does.
pub open spec fn encodable(v: SpecValue) -> bool
    decreases v,
{
    match v {
        SpecValue::Null => false,
        SpecValue::Bool(_) => false,
        SpecValue::Int(_) => true,
        SpecValue::Str(_) => true,
        SpecValue::Arr(items) => forall|i: int| 0 <= i < items.len() ==> encodable(
            #[trigger] items[i],
        ),
        SpecValue::Obj(ps) => forall|i: int| 0 <= i < ps.len() ==> encodable((#[trigger] ps[i]).1),
    }
}

pub proof fn lemma_not_encodable_arr(items: Seq<SpecValue>, i: int)
    requires
        0 <= i < items.len(),
        !encodable(items[i]),
    ensures
        !encodable(SpecValue::Arr(items)),
{
    assert(SpecValue::Arr(items)->Arr_0 == items);
    if encodable(SpecValue::Arr(items)) {
        assert(encodable(items[i]));
    }
}

pub proof fn lemma_not_encodable_obj(ps: Seq<(Seq<char>, SpecValue)>, i: int)
    requires
        0 <= i < ps.len(),
        !encodable(ps[i].1),
    ensures
        !encodable(SpecValue::Obj(ps)),
{
    assert(SpecValue::Obj(ps)->Obj_0 == ps);
    if encodable(SpecValue::Obj(ps)) {
        assert(encodable(ps[i].1));
    }
}

/// Inserts every pair of `ps`, in order, into the sorted pair list `acc`.
pub open spec fn ins_all(
    acc: Seq<(Seq<char>, SpecValue)>,
    ps: Seq<(Seq<char>, SpecValue)>,
) -> Seq<(Seq<char>, SpecValue)>
    decreases ps.len(),
{
    if ps.len() == 0 {
        acc
    } else {
        ins_all(insert_pair(acc, ps[0].0, ps[0].1), ps.drop_first())
    }
}

/// The canonical form of a value: object keys sorted in lexicographic order,
/// a later binding of a duplicate key replacing an earlier one, applied
/// recursively. Everything else is unchanged.
pub open spec fn canon(v: SpecValue) -> SpecValue
    decreases v,
{
    match v {
        SpecValue::Null => SpecValue::Null,
        SpecValue::Bool(b) => SpecValue::Bool(b),
        SpecValue::Int(n) => SpecValue::Int(n),
        SpecValue::Str(t) => SpecValue::Str(t),
        SpecValue::Arr(items) => SpecValue::Arr(canon_items(items)),
        SpecValue::Obj(ps) => SpecValue::Obj(ins_all(Seq::empty(), canon_entries(ps))),
    }
}

pub open spec fn canon_items(items: Seq<SpecValue>) -> Seq<SpecValue>
    decreases items,
{
    if items.len() == 0 {
        Seq::empty()
    } else {
        seq![canon(items[0])] + canon_items(items.drop_first())
    }
}

pub open spec fn canon_entries(ps: Seq<(Seq<char>, SpecValue)>) -> Seq<(Seq<char>, SpecValue)>
    decreases ps,
{
    if ps.len() == 0 {
        Seq::empty()
    } else {
        seq![(ps[0].0, canon(ps[0].1))] + canon_entries(ps.drop_first())
    }
}

/// The encoded form of a piece of text: its length in decimal, a colon, the
/// text itself.
pub open spec fn str_encoded(t: Seq<char>) -> Seq<char> {
    nat_digits(t.len() as int) + seq![':'] + t
}

/// The encoded form of a value: integers as `i<digits>e`, text with a length
/// prefix, arrays as `l...e`, objects as `d...e` with entries in stored
/// order. (Null and booleans contribute nothing; the encoder rejects them
/// before this function matters.)
pub open spec fn spec_encoded(v: SpecValue) -> Seq<char>
    decreases v,
{
    match v {
        SpecValue::Null => Seq::empty(),
        SpecValue::Bool(_) => Seq::empty(),
        SpecValue::Int(n) => seq!['i'] + int_chars(n) + seq!['e'],
        SpecValue::Str(t) => str_encoded(t),
        SpecValue::Arr(items) => seq!['l'] + encoded_items(items) + seq!['e'],
        SpecValue::Obj(ps) => seq!['d'] + encoded_entries(ps) + seq!['e'],
    }
}

pub open spec fn encoded_items(items: Seq<SpecValue>) -> Seq<char>
    decreases items,
{
    if items.len() == 0 {
        Seq::empty()
    } else {
        spec_encoded(items[0]) + encoded_items(items.drop_first())
    }
}

pub open spec fn encoded_entries(ps: Seq<(Seq<char>, SpecValue)>) -> Seq<char>
    decreases ps,
{
    if ps.len() == 0 {
        Seq::empty()
    } else {
        str_encoded(ps[0].0) + spec_encoded(ps[0].1) + encoded_entries(ps.drop_first())
    }
}

pub proof fn lemma_canon_items(items: Seq<SpecValue>)
    ensures
        canon_items(items).len() == items.len(),
        forall|i: int| 0 <= i < items.len() ==> canon_items(items)[i] == canon(#[trigger] items[i]),
    decreases items.len(),
{
    if items.len() > 0 {
        lemma_canon_items(items.drop_first());
        assert forall|i: int| 0 <= i < items.len() implies canon_items(items)[i] == canon(
            #[trigger] items[i],
        ) by {
            if i > 0 {
                assert(items.drop_first()[i - 1] == items[i]);
                assert(canon_items(items)[i] == canon_items(items.drop_first())[i - 1]);
            }
        }
    }
}

pub proof fn lemma_canon_entries(ps: Seq<(Seq<char>, SpecValue)>)
    ensures
        canon_entries(ps).len() == ps.len(),
        forall|i: int| 0 <= i < ps.len() ==> canon_entries(ps)[i] == ((#[trigger] ps[i]).0, canon(
            ps[i].1,
        )),
    decreases ps.len(),
{
    if ps.len() > 0 {
        lemma_canon_entries(ps.drop_first());
        assert forall|i: int| 0 <= i < ps.len() implies canon_entries(ps)[i] == ((
        #[trigger] ps[i]).0, canon(ps[i].1)) by {
            if i > 0 {
                assert(ps.drop_first()[i - 1] == ps[i]);
                assert(canon_entries(ps)[i] == canon_entries(ps.drop_first())[i - 1]);
            }
        }
    }
}

/// Folding one more pair into a sorted list is one more insertion.
pub proof fn lemma_ins_all_push(
    acc: Seq<(Seq<char>, SpecValue)>,
    ps: Seq<(Seq<char>, SpecValue)>,
    x: (Seq<char>, SpecValue),
)
    ensures
        ins_all(acc, ps.push(x)) == insert_pair(ins_all(acc, ps), x.0, x.1),
    decreases ps.len(),
{
    if ps.len() == 0 {
        assert(ps.push(x)[0] == x);
        assert(ps.push(x).drop_first() =~= Seq::<(Seq<char>, SpecValue)>::empty());
        assert(ins_all(insert_pair(acc, x.0, x.1), Seq::<(Seq<char>, SpecValue)>::empty())
            == insert_pair(acc, x.0, x.1));
    } else {
        assert(ps.push(x)[0] == ps[0]);
        assert(ps.push(x).drop_first() =~= ps.drop_first().push(x));
        lemma_ins_all_push(insert_pair(acc, ps[0].0, ps[0].1), ps.drop_first(), x);
    }
}

/// Encoding distributes over concatenation of element lists.
pub proof fn lemma_encoded_items_app(a: Seq<SpecValue>, b: Seq<SpecValue>)
    ensures
        encoded_items(a + b) == encoded_items(a) + encoded_items(b),
    decreases a.len(),
{
    if a.len() == 0 {
        assert(a + b =~= b);
        assert(encoded_items(a) + encoded_items(b) =~= encoded_items(b));
    } else {
        assert((a + b).len() > 0);
        assert((a + b)[0] == a[0]);
        assert((a + b).drop_first() =~= a.drop_first() + b);
        lemma_encoded_items_app(a.drop_first(), b);
        assert(spec_encoded(a[0]) + (encoded_items(a.drop_first()) + encoded_items(b)) =~= (
        spec_encoded(a[0]) + encoded_items(a.drop_first())) + encoded_items(b));
    }
}

/// Encoding distributes over concatenation of entry lists.
pub proof fn lemma_encoded_entries_app(
    a: Seq<(Seq<char>, SpecValue)>,
    b: Seq<(Seq<char>, SpecValue)>,
)
    ensures
        encoded_entries(a + b) == encoded_entries(a) + encoded_entries(b),
    decreases a.len(),
{
    if a.len() == 0 {
        assert(a + b =~= b);
        assert(encoded_entries(a) + encoded_entries(b) =~= encoded_entries(b));
    } else {
        assert((a + b).len() > 0);
        assert((a + b)[0] == a[0]);
        assert((a + b).drop_first() =~= a.drop_first() + b);
        lemma_encoded_entries_app(a.drop_first(), b);
        assert(str_encoded(a[0].0) + spec_encoded(a[0].1) + (encoded_entries(a.drop_first())
            + encoded_entries(b)) =~= (str_encoded(a[0].0) + spec_encoded(a[0].1)
            + encoded_entries(a.drop_first())) + encoded_entries(b));
    }
}

/// The pairs of `ps` picked out by the positions in `order`, in that order.
pub open spec fn entries_of(
    ps: Seq<(Seq<char>, SpecValue)>,
    order: Seq<usize>,
) -> Seq<(Seq<char>, SpecValue)> {
    Seq::new(order.len(), |k: int| ps[order[k] as int])
}

/// Whether the binary format can represent this value.
#[verifier::loop_isolation(false)]
pub fn is_encodable(v: &Value) -> (r: bool)
    ensures
        r == encodable(view_value(*v)),
    decreases v,
{
    match v {
        Value::Null => false,
        Value::Bool(_) => false,
        Value::Int(_) => true,
        Value::Str(_) => true,
        Value::Arr(items) => {
            proof {
                lemma_view_values(items@);
            }
            let n = items.len();
            let mut i: usize = 0;
            while i < n
                invariant
                    0 <= i <= n == items@.len(),
                    forall|t: int| 0 <= t < i ==> encodable(#[trigger] view_values(items@)[t]),
                decreases n - i,
            {
                if !is_encodable(&items[i]) {
                    proof {
                        assert(view_values(items@)[i as int] == view_value(items@[i as int]));
                        lemma_not_encodable_arr(view_values(items@), i as int);
                    }
                    return false;
                }
                i += 1;
            }
            true
        },
        Value::Obj(pairs) => {
            proof {
                lemma_view_entries(pairs@);
            }
            let n = pairs.len();
            let mut i: usize = 0;
            while i < n
                invariant
                    0 <= i <= n == pairs@.len(),
                    forall|t: int| 0 <= t < i ==> encodable((#[trigger] view_entries(pairs@)[t]).1),
                decreases n - i,
            {
                if !is_encodable(&pairs[i].1) {
                    proof {
                        assert(view_entries(pairs@)[i as int] == (pairs@[i as int].0@, view_value(
                            pairs@[i as int].1,
                        )));
                        lemma_not_encodable_obj(view_entries(pairs@), i as int);
                    }
                    return false;
                }
                i += 1;
            }
            true
        },
    }
}

/// Appends the length-prefixed form of `s` to `out`.
#[verifier::loop_isolation(false)]
fn encode_str(out: &mut String, s: &String)
    ensures
        final(out)@ == old(out)@ + str_encoded(s@),
{
    let n = s.as_str().unicode_len();
    push_u64(out, n as u64);
    push_char(out, ':');
    proof {
        assert((old(out)@ + nat_digits(n as int)).push(':') =~= old(out)@ + (nat_digits(
            s@.len() as int,
        ) + seq![':']));
    }
    let mut k: usize = 0;
    while k < n
        invariant
            0 <= k <= n == s@.len(),
            out@ == old(out)@ + (nat_digits(s@.len() as int) + seq![':']) + s@.take(k as int),
        decreases n - k,
    {
        let c = s.as_str().get_char(k);
        push_char(out, c);
        proof {
            assert((old(out)@ + (nat_digits(s@.len() as int) + seq![':']) + s@.take(k as int)).push(
                s@[k as int],
            ) =~= old(out)@ + (nat_digits(s@.len() as int) + seq![':']) + s@.take(k as int + 1));
        }
        k += 1;
    }
    proof {
        assert(s@.take(n as int) =~= s@);
        assert(old(out)@ + (nat_digits(s@.len() as int) + seq![':']) + s@ =~= old(out)@ + (
        nat_digits(s@.len() as int) + seq![':'] + s@));
    }
}

/// Appends the encoded form of the canonicalized value to `out`.
#[verifier::loop_isolation(false)]
#[verifier::rlimit(60)]
fn encode_value(v: &Value, out: &mut String)
    requires
        encodable(view_value(*v)),
    ensures
        final(out)@ == old(out)@ + spec_encoded(canon(view_value(*v))),
    decreases v,
{
    match v {
        Value::Null => {
            proof {
                assert(false);
            }
        },
        Value::Bool(_) => {
            proof {
                assert(false);
            }
        },
        Value::Int(n) => {
            push_char(out, 'i');
            push_i64(out, *n);
            push_char(out, 'e');
            proof {
                assert(old(out)@.push('i') =~= old(out)@ + seq!['i']);
                assert((old(out)@ + seq!['i'] + int_chars(*n as int)).push('e') =~= old(out)@ + (
                seq!['i'] + int_chars(*n as int) + seq!['e']));
            }
        },
        Value::Str(s) => {
            encode_str(out, s);
        },
        Value::Arr(items) => {
            let ghost civ = canon_items(view_values(items@));
            proof {
                lemma_view_values(items@);
                lemma_canon_items(view_values(items@));
            }
            push_char(out, 'l');
            proof {
                assert(old(out)@.push('l') =~= old(out)@ + seq!['l']);
                assert(civ.take(0) =~= Seq::<SpecValue>::empty());
                assert(old(out)@ + seq!['l'] + encoded_items(civ.take(0)) =~= old(out)@ + seq![
                    'l',
                ]);
            }
            let n = items.len();
            let mut i: usize = 0;
            while i < n
                invariant
                    0 <= i <= n == items@.len(),
                    civ.len() == items@.len(),
                    out@ == old(out)@ + seq!['l'] + encoded_items(civ.take(i as int)),
                decreases n - i,
            {
                encode_value(&items[i], out);
                proof {
                    assert(civ.take(i as int + 1) =~= civ.take(i as int) + seq![civ[i as int]]);
                    lemma_encoded_items_app(civ.take(i as int), seq![civ[i as int]]);
                    assert(seq![civ[i as int]].drop_first() =~= Seq::<SpecValue>::empty());
                    assert(encoded_items(seq![civ[i as int]]) =~= spec_encoded(civ[i as int]));
                    assert(civ[i as int] == canon(view_value(items@[i as int])));
                    assert((old(out)@ + seq!['l'] + encoded_items(civ.take(i as int)))
                        + spec_encoded(civ[i as int]) =~= old(out)@ + seq!['l'] + (encoded_items(
                        civ.take(i as int),
                    ) + spec_encoded(civ[i as int])));
                }
                i += 1;
            }
            push_char(out, 'e');
            proof {
                assert(civ.take(n as int) =~= civ);
                assert((old(out)@ + seq!['l'] + encoded_items(civ)).push('e') =~= old(out)@ + (
                seq!['l'] + encoded_items(civ) + seq!['e']));
            }
        },
        Value::Obj(pairs) => {
            let ghost pv = view_entries(pairs@);
            let ghost cps = canon_entries(pv);
            proof {
                lemma_view_entries(pairs@);
                lemma_canon_entries(pv);
            }
            let n = pairs.len();
            let mut order: Vec<usize> = Vec::new();
            let mut idx: usize = 0;
            proof {
                assert(cps.take(0) =~= Seq::<(Seq<char>, SpecValue)>::empty());
                assert(entries_of(cps, order@) =~= Seq::<(Seq<char>, SpecValue)>::empty());
            }
            while idx < n
                invariant
                    0 <= idx <= n == pairs@.len(),
                    forall|k: int| 0 <= k < order@.len() ==> (#[trigger] order@[k]) < pairs@.len(),
                    entries_of(cps, order@) == ins_all(Seq::empty(), cps.take(idx as int)),
                decreases n - idx,
            {
                let ghost s_before = entries_of(cps, order@);
                let ghost kv = cps[idx as int];
                let j = find_order_slot(pairs, &order, idx);
                proof {
                    assert(kv.0 == pairs@[idx as int].0@);
                    assert forall|t: int| 0 <= t < j implies lex_lt(
                        (#[trigger] s_before[t]).0,
                        kv.0,
                    ) by {
                        assert(s_before[t] == cps[order@[t] as int]);
                        assert(cps[order@[t] as int].0 == pv[order@[t] as int].0);
                    }
                    assert(j < s_before.len() ==> !lex_lt(s_before[j as int].0, kv.0)) by {
                        if j < order@.len() {
                            assert(s_before[j as int] == cps[order@[j as int] as int]);
                        }
                    }
                    lemma_insert_pair_at(s_before, kv.0, kv.1, j as int);
                }
                let replace = j < order.len() && {
                    let oj = order[j];
                    pairs[oj].0 == pairs[idx].0
                };
                proof {
                    if j < order@.len() {
                        assert(s_before[j as int] == cps[order@[j as int] as int]);
                        assert(cps[order@[j as int] as int].0 == pv[order@[j as int] as int].0);
                        assert(pv[order@[j as int] as int].0 == pairs@[order@[j as int] as int].0@);
                    }
                    assert(replace == (j < s_before.len() && s_before[j as int].0 == kv.0));
                }
                if replace {
                    order.remove(j);
                    order.insert(j, idx);
                } else {
                    order.insert(j, idx);
                }
                proof {
                    let target = insert_pair(s_before, kv.0, kv.1);
                    assert forall|t: int| 0 <= t < order@.len() implies entries_of(cps, order@)[t]
                        == target[t] by {
                        assert(entries_of(cps, order@)[t] == cps[order@[t] as int]);
                        if t < j {
                            assert(s_before.take(j as int)[t] == s_before[t]);
                        } else if t == j {
                            assert(order@[t] == idx);
                        } else {
                            if replace {
                                assert(s_before.skip(j as int + 1)[t - j - 1] == s_before[t]);
                            } else {
                                assert(s_before.skip(j as int)[t - j - 1] == s_before[t - 1]);
                            }
                        }
                    }
                    assert(entries_of(cps, order@) =~= target);
                    assert(cps.take(idx as int + 1) =~= cps.take(idx as int).push(kv));
                    lemma_ins_all_push(Seq::empty(), cps.take(idx as int), kv);
                }
                idx += 1;
            }
            let ghost sorted = entries_of(cps, order@);
            push_char(out, 'd');
            proof {
                assert(cps.take(n as int) =~= cps);
                assert(old(out)@.push('d') =~= old(out)@ + seq!['d']);
                assert(sorted.take(0) =~= Seq::<(Seq<char>, SpecValue)>::empty());
                assert(old(out)@ + seq!['d'] + encoded_entries(sorted.take(0)) =~= old(out)@
                    + seq!['d']);
            }
            let m = order.len();
            let mut k: usize = 0;
            while k < m
                invariant
                    0 <= k <= m == order@.len(),
                    forall|t: int| 0 <= t < order@.len() ==> (#[trigger] order@[t]) < pairs@.len(),
                    sorted == entries_of(cps, order@),
                    out@ == old(out)@ + seq!['d'] + encoded_entries(sorted.take(k as int)),
                decreases m - k,
            {
                let oi = order[k];
                proof {
                    assert(sorted[k as int] == cps[oi as int]);
                    assert(cps[oi as int] == (pv[oi as int].0, canon(pv[oi as int].1)));
                    assert(pv[oi as int] == (pairs@[oi as int].0@, view_value(pairs@[oi as int].1)));
                    assert(encodable(view_value(pairs@[oi as int].1)));
                }
                encode_str(out, &pairs[oi].0);
                encode_value(&pairs[oi].1, out);
                proof {
                    assert(sorted.take(k as int + 1) =~= sorted.take(k as int) + seq![sorted[k as int]]);
                    lemma_encoded_entries_app(sorted.take(k as int), seq![sorted[k as int]]);
                    assert(seq![sorted[k as int]].drop_first() =~= Seq::<
                        (Seq<char>, SpecValue),
                    >::empty());
                    assert(encoded_entries(seq![sorted[k as int]]) =~= str_encoded(
                        sorted[k as int].0,
                    ) + spec_encoded(sorted[k as int].1));
                    assert(out@ == old(out)@ + seq!['d'] + encoded_entries(
                        sorted.take(k as int),
                    ) + str_encoded(sorted[k as int].0) + spec_encoded(sorted[k as int].1));
                    assert(old(out)@ + seq!['d'] + encoded_entries(sorted.take(k as int))
                        + str_encoded(sorted[k as int].0) + spec_encoded(sorted[k as int].1) =~= old(
                        out,
                    )@ + seq!['d'] + encoded_entries(sorted.take(k as int + 1)));
                }
                k += 1;
            }
            push_char(out, 'e');
            proof {
                assert(sorted.take(m as int) =~= sorted);
                assert((old(out)@ + seq!['d'] + encoded_entries(sorted)).push('e') =~= old(out)@ + (
                seq!['d'] + encoded_entries(sorted) + seq!['e']));
            }
        },
    }
}

/// The first position in `order` whose key is not strictly below the key of
/// `pairs[idx]` (or the length of `order`).
#[verifier::loop_isolation(false)]
fn find_order_slot(pairs: &Vec<(String, Value)>, order: &Vec<usize>, idx: usize) -> (j: usize)
    requires
        idx < pairs@.len(),
        forall|k: int| 0 <= k < order@.len() ==> (#[trigger] order@[k]) < pairs@.len(),
    ensures
        0 <= j <= order@.len(),
        forall|t: int| 0 <= t < j ==> lex_lt(
            pairs@[(#[trigger] order@[t]) as int].0@,
            pairs@[idx as int].0@,
        ),
        j < order@.len() ==> !lex_lt(pairs@[order@[j as int] as int].0@, pairs@[idx as int].0@),
{
    let n = order.len();
    let mut j: usize = 0;
    while j < n
        invariant
            0 <= j <= n == order@.len(),
            forall|t: int| 0 <= t < j ==> lex_lt(
                pairs@[(#[trigger] order@[t]) as int].0@,
                pairs@[idx as int].0@,
            ),
        decreases n - j,
    {
        let oj = order[j];
        if !str_lex_lt(pairs[oj].0.as_str(), pairs[idx].0.as_str()) {
            return j;
        }
        j += 1;
    }
    j
}

/// Encodes a structured value into the binary text form.
///
/// Succeeds exactly when the value holds no null and no boolean anywhere;
/// the output is the canonical encoding: object keys sorted in lexicographic
/// order, a later binding of a duplicate key replacing an earlier one.
pub fn encode_bencode(value: &Value) -> (r: Result<String, EncodeError>)
    ensures
        r is Ok <==> encodable(view_value(*value)),
        r matches Ok(s) ==> s@ == spec_encoded(canon(view_value(*value))),
        r matches Err(e) ==> e == EncodeError::UnsupportedValue,
{
    if !is_encodable(value) {
        return Err(EncodeError::UnsupportedValue);
    }
    let mut out = String::new();
    encode_value(value, &mut out);
    proof {
        assert(Seq::<char>::empty() + spec_encoded(canon(view_value(*value))) =~= spec_encoded(
            canon(view_value(*value)),
        ));
    }
    Ok(out)
}

} // verus!
