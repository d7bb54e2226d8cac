use vstd::prelude::*;
use crate::value::{SpecValue, lex_lt, lemma_lex_trichotomy, insert_pair, entries_sorted,
    lemma_insert_pair_at};
use crate::num::{is_digit, nat_digits, int_chars, parse_i64_spec, parse_usize_spec,
    lemma_nat_digits};
use crate::decode::{DecodeError, scan_until, lemma_scan_until, spec_decode_value,
    spec_decode_integer, spec_decode_string, spec_decode_list, spec_decode_dict};
use crate::encode::{canon, canon_items, canon_entries, ins_all, str_encoded, spec_encoded,
    encoded_items, encoded_entries, lemma_canon_items, lemma_canon_entries};

verus! {

/// A value in the form the decoder itself produces: only representable
/// variants, integers in the 64-bit range, string and key lengths that a
/// machine-sized length prefix can state, and object keys strictly sorted.
pub open spec fn wf_canonical(v: SpecValue) -> bool
    decreases v,
{
    match v {
        SpecValue::Null => false,
        SpecValue::Bool(_) => false,
        SpecValue::Int(n) => i64::MIN as int <= n <= i64::MAX as int,
        SpecValue::Str(t) => t.len() <= usize::MAX as int,
        SpecValue::Arr(items) => forall|i: int| 0 <= i < items.len() ==> wf_canonical(
            #[trigger] items[i],
        ),
        SpecValue::Obj(ps) => entries_sorted(ps) && forall|i: int| 0 <= i < ps.len() ==> (
        #[trigger] ps[i]).0.len() <= usize::MAX as int && wf_canonical(ps[i].1),
    }
}

/// Like `wf_canonical`, but with no demand on key order: what a caller must
/// provide for the round trip, before canonicalization.
pub open spec fn wf_bounded(v: SpecValue) -> bool
    decreases v,
{
    match v {
        SpecValue::Null => false,
        SpecValue::Bool(_) => false,
        SpecValue::Int(n) => i64::MIN as int <= n <= i64::MAX as int,
        SpecValue::Str(t) => t.len() <= usize::MAX as int,
        SpecValue::Arr(items) => forall|i: int| 0 <= i < items.len() ==> wf_bounded(
            #[trigger] items[i],
        ),
        SpecValue::Obj(ps) => forall|i: int| 0 <= i < ps.len() ==> (#[trigger] ps[i]).0.len()
            <= usize::MAX as int && wf_bounded(ps[i].1),
    }
}

/// Inserting a key above everything present appends.
pub proof fn lemma_insert_pair_append(ps: Seq<(Seq<char>, SpecValue)>, k: Seq<char>, v: SpecValue)
    requires
        forall|i: int| 0 <= i < ps.len() ==> lex_lt((#[trigger] ps[i]).0, k),
    ensures
        insert_pair(ps, k, v) == ps.push((k, v)),
{
    lemma_insert_pair_at(ps, k, v, ps.len() as int);
    assert(ps.take(ps.len() as int) + seq![(k, v)] + ps.skip(ps.len() as int) =~= ps.push((k, v)));
}

/// Inserting into a sorted list keeps it sorted, and every pair of the
/// result is the new pair or one of the old ones.
pub proof fn lemma_insert_pair_sorted(ps: Seq<(Seq<char>, SpecValue)>, k: Seq<char>, v: SpecValue)
    requires
        entries_sorted(ps),
    ensures
        entries_sorted(insert_pair(ps, k, v)),
        forall|i: int| 0 <= i < insert_pair(ps, k, v).len() ==> (#[trigger] insert_pair(ps, k, v)[i]
            == (k, v) || ps.contains(insert_pair(ps, k, v)[i])),
    decreases ps.len(),
{
    let r = insert_pair(ps, k, v);
    if ps.len() == 0 {
    } else if lex_lt(k, ps[0].0) {
        assert forall|i: int, j: int| 0 <= i < j < r.len() implies lex_lt(
            (#[trigger] r[i]).0,
            (#[trigger] r[j]).0,
        ) by {
            if i == 0 {
                if j == 1 {
                } else {
                    assert(lex_lt(ps[0].0, ps[j - 1].0));
                    crate::value::lemma_lex_trans(k, ps[0].0, ps[j - 1].0);
                }
            } else {
                assert(r[i] == ps[i - 1] && r[j] == ps[j - 1]);
            }
        }
        assert forall|i: int| 0 <= i < r.len() implies (#[trigger] r[i] == (k, v) || ps.contains(
            r[i],
        )) by {
            if i > 0 {
                assert(r[i] == ps[i - 1]);
            }
        }
    } else if k == ps[0].0 {
        assert forall|i: int, j: int| 0 <= i < j < r.len() implies lex_lt(
            (#[trigger] r[i]).0,
            (#[trigger] r[j]).0,
        ) by {
            if i == 0 {
                assert(r[j] == ps[j]);
                assert(lex_lt(ps[0].0, ps[j].0));
            } else {
                assert(r[i] == ps[i] && r[j] == ps[j]);
            }
        }
        assert forall|i: int| 0 <= i < r.len() implies (#[trigger] r[i] == (k, v) || ps.contains(
            r[i],
        )) by {
            if i > 0 {
                assert(r[i] == ps[i]);
            }
        }
    } else {
        let tail = ps.drop_first();
        assert(entries_sorted(tail)) by {
            assert forall|i: int, j: int| 0 <= i < j < tail.len() implies lex_lt(
                (#[trigger] tail[i]).0,
                (#[trigger] tail[j]).0,
            ) by {
                assert(tail[i] == ps[i + 1] && tail[j] == ps[j + 1]);
            }
        }
        lemma_insert_pair_sorted(tail, k, v);
        lemma_lex_trichotomy(k, ps[0].0);
        let rt = insert_pair(tail, k, v);
        assert(r == seq![ps[0]] + rt);
        assert forall|i: int, j: int| 0 <= i < j < r.len() implies lex_lt(
            (#[trigger] r[i]).0,
            (#[trigger] r[j]).0,
        ) by {
            if i == 0 {
                assert(r[j] == rt[j - 1]);
                if rt[j - 1] == (k, v) {
                    assert(lex_lt(ps[0].0, k));
                } else {
                    assert(tail.contains(rt[j - 1]));
                    let w = choose|w: int| 0 <= w < tail.len() && tail[w] == rt[j - 1];
                    assert(tail[w] == ps[w + 1]);
                    assert(lex_lt(ps[0].0, ps[w + 1].0));
                }
            } else {
                assert(r[i] == rt[i - 1] && r[j] == rt[j - 1]);
            }
        }
        assert forall|i: int| 0 <= i < r.len() implies (#[trigger] r[i] == (k, v) || ps.contains(
            r[i],
        )) by {
            if i == 0 {
                assert(ps[0] == r[i]);
                assert(ps.contains(ps[0]));
            } else {
                assert(r[i] == rt[i - 1]);
                if rt[i - 1] != (k, v) {
                    assert(tail.contains(rt[i - 1]));
                    let w = choose|w: int| 0 <= w < tail.len() && tail[w] == rt[i - 1];
                    assert(ps[w + 1] == rt[i - 1]);
                    assert(ps.contains(ps[w + 1]));
                }
            }
        }
    }
}

/// Folding pairs into a sorted list yields a sorted list whose pairs all
/// come from the list or from what was folded in.
pub proof fn lemma_ins_all_sorted(
    acc: Seq<(Seq<char>, SpecValue)>,
    ps: Seq<(Seq<char>, SpecValue)>,
)
    requires
        entries_sorted(acc),
    ensures
        entries_sorted(ins_all(acc, ps)),
        forall|i: int| 0 <= i < ins_all(acc, ps).len() ==> (acc.contains(
            #[trigger] ins_all(acc, ps)[i],
        ) || ps.contains(ins_all(acc, ps)[i])),
    decreases ps.len(),
{
    if ps.len() == 0 {
        assert forall|i: int| 0 <= i < ins_all(acc, ps).len() implies (acc.contains(
            #[trigger] ins_all(acc, ps)[i],
        ) || ps.contains(ins_all(acc, ps)[i])) by {
            assert(acc[i] == ins_all(acc, ps)[i]);
            assert(acc.contains(acc[i]));
        }
    } else {
        let acc1 = insert_pair(acc, ps[0].0, ps[0].1);
        lemma_insert_pair_sorted(acc, ps[0].0, ps[0].1);
        lemma_ins_all_sorted(acc1, ps.drop_first());
        assert(ins_all(acc, ps) == ins_all(acc1, ps.drop_first()));
        assert forall|i: int| 0 <= i < ins_all(acc, ps).len() implies (acc.contains(
            #[trigger] ins_all(acc, ps)[i],
        ) || ps.contains(ins_all(acc, ps)[i])) by {
            let x = ins_all(acc, ps)[i];
            if acc1.contains(x) {
                let w = choose|w: int| 0 <= w < acc1.len() && acc1[w] == x;
                if acc1[w] == (ps[0].0, ps[0].1) {
                    assert(ps[0] == x);
                    assert(ps.contains(ps[0]));
                } else {
                    assert(acc.contains(acc1[w]));
                }
            } else {
                assert(ps.drop_first().contains(x));
                let w = choose|w: int| 0 <= w < ps.drop_first().len() && ps.drop_first()[w] == x;
                assert(ps.drop_first()[w] == ps[w + 1]);
                assert(ps.contains(ps[w + 1]));
            }
        }
    }
}

/// Canonicalization of a bounded value yields a well-formed canonical value.
pub proof fn lemma_canon_wf(v: SpecValue)
    requires
        wf_bounded(v),
    ensures
        wf_canonical(canon(v)),
    decreases v,
{
    match v {
        SpecValue::Arr(items) => {
            lemma_canon_items(items);
            assert forall|i: int| 0 <= i < canon_items(items).len() implies wf_canonical(
                #[trigger] canon_items(items)[i],
            ) by {
                assert(canon_items(items)[i] == canon(items[i]));
                assert(wf_bounded(items[i]));
                lemma_canon_wf(items[i]);
            }
        },
        SpecValue::Obj(ps) => {
            lemma_canon_entries(ps);
            let cps = canon_entries(ps);
            assert forall|i: int| 0 <= i < cps.len() implies (#[trigger] cps[i]).0.len()
                <= usize::MAX as int && wf_canonical(cps[i].1) by {
                assert(cps[i] == (ps[i].0, canon(ps[i].1)));
                assert(wf_bounded(ps[i].1));
                lemma_canon_wf(ps[i].1);
            }
            assert(entries_sorted(Seq::<(Seq<char>, SpecValue)>::empty()));
            lemma_ins_all_sorted(Seq::empty(), cps);
            let r = ins_all(Seq::empty(), cps);
            assert forall|i: int| 0 <= i < r.len() implies (#[trigger] r[i]).0.len()
                <= usize::MAX as int && wf_canonical(r[i].1) by {
                assert(Seq::<(Seq<char>, SpecValue)>::empty().contains(r[i]) || cps.contains(r[i]));
                let w = choose|w: int| 0 <= w < cps.len() && cps[w] == r[i];
                assert(cps[w].0.len() <= usize::MAX as int && wf_canonical(cps[w].1));
            }
        },
        _ => {},
    }
}

/// An encoded value is never empty and never starts with a terminator.
pub proof fn lemma_encoded_first_char(w: SpecValue)
    requires
        wf_canonical(w),
    ensures
        spec_encoded(w).len() >= 1,
        spec_encoded(w)[0] == 'i' || spec_encoded(w)[0] == 'l' || spec_encoded(w)[0] == 'd'
            || is_digit(spec_encoded(w)[0]),
        spec_encoded(w)[0] != 'e',
{
    match w {
        SpecValue::Int(n) => {
            assert(spec_encoded(w)[0] == 'i');
        },
        SpecValue::Str(t) => {
            lemma_nat_digits(t.len() as int);
            let d = nat_digits(t.len() as int);
            assert(spec_encoded(w)[0] == (d + seq![':'])[0]);
            assert((d + seq![':'])[0] == d[0]);
            assert(is_digit(d[0]));
        },
        SpecValue::Arr(items) => {
            assert(spec_encoded(w)[0] == 'l');
        },
        SpecValue::Obj(ps) => {
            assert(spec_encoded(w)[0] == 'd');
        },
        _ => {},
    }
}

/// Decoding an embedded length-prefixed string yields exactly that string.
pub proof fn lemma_decode_string_encoded(s: Seq<char>, pos: int, t: Seq<char>)
    requires
        t.len() <= usize::MAX as int,
        0 <= pos,
        pos + str_encoded(t).len() <= s.len(),
        s.subrange(pos, pos + str_encoded(t).len()) == str_encoded(t),
    ensures
        spec_decode_string(s, pos) == Ok::<_, DecodeError>((t, pos + str_encoded(t).len())),
{
    let d = nat_digits(t.len() as int);
    lemma_nat_digits(t.len() as int);
    let enc = str_encoded(t);
    let el = enc.len() as int;
    assert forall|k: int| 0 <= k < el implies s[pos + k] == enc[k] by {
        assert(s.subrange(pos, pos + el)[k] == s[pos + k]);
    }
    assert forall|k: int| 0 <= k < d.len() implies enc[k] == d[k] && is_digit(d[k]) by {
        assert(enc[k] == (d + seq![':'])[k]);
    }
    assert(enc[d.len() as int] == (d + seq![':'])[d.len() as int]);
    assert(s[pos + d.len()] == ':');
    assert forall|k: int| pos <= k < pos + d.len() implies s[k] != ':' by {
        assert(s[k] == enc[k - pos]);
        assert(is_digit(d[k - pos]));
    }
    lemma_scan_until(s, pos, ':', pos + d.len());
    assert(s.subrange(pos, pos + d.len()) =~= d);
    assert(d[0] != '+');
    assert(parse_usize_spec(d) == Some(t.len() as int));
    let start = pos + d.len() + 1;
    assert forall|k: int| 0 <= k < t.len() implies s[start + k] == t[k] by {
        assert(enc[d.len() + 1 + k] == t[k]);
        assert(s[pos + (d.len() + 1 + k)] == enc[d.len() + 1 + k]);
    }
    assert(s.subrange(start, start + t.len()) =~= t);
}

/// Decoding an embedded integer body yields exactly that integer.
pub proof fn lemma_decode_integer_encoded(s: Seq<char>, pos: int, n: int)
    requires
        i64::MIN as int <= n <= i64::MAX as int,
        0 <= pos,
        pos + int_chars(n).len() + 1 <= s.len(),
        s.subrange(pos, pos + int_chars(n).len()) == int_chars(n),
        s[pos + int_chars(n).len()] == 'e',
    ensures
        spec_decode_integer(s, pos) == Ok::<_, DecodeError>(
            (SpecValue::Int(n), pos + int_chars(n).len() + 1),
        ),
{
    let enc = int_chars(n);
    let el = enc.len() as int;
    let m = if n < 0 {
        -n
    } else {
        n
    };
    lemma_nat_digits(m);
    let d = nat_digits(m);
    assert forall|k: int| 0 <= k < el implies s[pos + k] == enc[k] by {
        assert(s.subrange(pos, pos + el)[k] == s[pos + k]);
    }
    if n < 0 {
        assert(enc[0] == (seq!['-'] + d)[0]);
        assert forall|k: int| 1 <= k < el implies enc[k] == d[k - 1] && is_digit(d[k - 1]) by {
            assert(enc[k] == (seq!['-'] + d)[k]);
        }
    } else {
        assert(forall|k: int| 0 <= k < el ==> enc[k] == d[k] && is_digit(d[k]));
    }
    assert forall|k: int| pos <= k < pos + el implies s[k] != 'e' by {
        assert(s[k] == enc[k - pos]);
    }
    lemma_scan_until(s, pos, 'e', pos + el);
    assert(s.subrange(pos, pos + el) =~= enc);
    if n < 0 {
        assert(enc[0] == '-');
        assert(enc.drop_first() =~= d);
        assert(parse_i64_spec(enc) == Some(n));
    } else {
        assert(enc[0] != '-' && enc[0] != '+');
        assert(parse_i64_spec(enc) == Some(n));
    }
}

/// Decoding at a position holding the encoding of a canonical value yields
/// exactly that value, consuming exactly its encoding.
pub proof fn lemma_decode_encoded(s: Seq<char>, pos: int, w: SpecValue)
    requires
        wf_canonical(w),
        0 <= pos,
        pos + spec_encoded(w).len() <= s.len(),
        s.subrange(pos, pos + spec_encoded(w).len()) == spec_encoded(w),
    ensures
        spec_decode_value(s, pos) == Ok::<_, DecodeError>((w, pos + spec_encoded(w).len())),
    decreases w,
{
    let enc = spec_encoded(w);
    let el = enc.len() as int;
    lemma_encoded_first_char(w);
    assert forall|k: int| 0 <= k < el implies s[pos + k] == enc[k] by {
        assert(s.subrange(pos, pos + el)[k] == s[pos + k]);
    }
    assert(pos < s.len());
    assert(s[pos] == enc[0]);
    match w {
        SpecValue::Int(n) => {
            let ic = int_chars(n);
            assert(enc == seq!['i'] + ic + seq!['e']);
            assert(enc[0] == 'i');
            assert forall|k: int| 0 <= k < ic.len() implies enc[1 + k] == ic[k] by {
                assert((seq!['i'] + ic)[1 + k] == ic[k]);
            }
            assert(s.subrange(pos + 1, pos + 1 + ic.len()) =~= ic);
            assert(enc[1 + ic.len() as int] == 'e');
            assert(s[pos + 1 + ic.len()] == 'e');
            lemma_decode_integer_encoded(s, pos + 1, n);
        },
        SpecValue::Str(t) => {
            lemma_decode_string_encoded(s, pos, t);
            lemma_nat_digits(t.len() as int);
            assert(enc[0] == (nat_digits(t.len() as int) + seq![':'])[0]);
            assert(enc[0] == nat_digits(t.len() as int)[0]);
            assert(is_digit(s[pos]));
        },
        SpecValue::Arr(items) => {
            let ei = encoded_items(items);
            assert(enc == seq!['l'] + ei + seq!['e']);
            assert(enc[0] == 'l');
            assert forall|k: int| 0 <= k < ei.len() implies enc[1 + k] == ei[k] by {
                assert((seq!['l'] + ei)[1 + k] == ei[k]);
            }
            assert(s.subrange(pos + 1, pos + 1 + ei.len()) =~= ei);
            assert(enc[1 + ei.len() as int] == 'e');
            assert(s[pos + 1 + ei.len()] == 'e');
            lemma_decode_list_encoded(s, pos + 1, items, Seq::empty());
            assert(Seq::empty() + items =~= items);
        },
        SpecValue::Obj(ps) => {
            let ee = encoded_entries(ps);
            assert(enc == seq!['d'] + ee + seq!['e']);
            assert(enc[0] == 'd');
            assert forall|k: int| 0 <= k < ee.len() implies enc[1 + k] == ee[k] by {
                assert((seq!['d'] + ee)[1 + k] == ee[k]);
            }
            assert(s.subrange(pos + 1, pos + 1 + ee.len()) =~= ee);
            assert(enc[1 + ee.len() as int] == 'e');
            assert(s[pos + 1 + ee.len()] == 'e');
            assert(Seq::<(Seq<char>, SpecValue)>::empty() + ps =~= ps);
            lemma_decode_dict_encoded(s, pos + 1, ps, Seq::empty());
        },
        _ => {},
    }
}

/// Decoding list elements over the encodings of `items`, with `acc` already
/// decoded, accumulates exactly `items` and consumes the closing terminator.
pub proof fn lemma_decode_list_encoded(
    s: Seq<char>,
    pos: int,
    items: Seq<SpecValue>,
    acc: Seq<SpecValue>,
)
    requires
        forall|i: int| 0 <= i < items.len() ==> wf_canonical(#[trigger] items[i]),
        0 <= pos,
        pos + encoded_items(items).len() < s.len(),
        s.subrange(pos, pos + encoded_items(items).len()) == encoded_items(items),
        s[pos + encoded_items(items).len()] == 'e',
    ensures
        spec_decode_list(s, pos, acc) == Ok::<_, DecodeError>(
            (SpecValue::Arr(acc + items), pos + encoded_items(items).len() + 1),
        ),
    decreases items,
{
    let ei = encoded_items(items);
    let el = ei.len() as int;
    assert forall|k: int| 0 <= k < el implies s[pos + k] == ei[k] by {
        assert(s.subrange(pos, pos + el)[k] == s[pos + k]);
    }
    if items.len() == 0 {
        assert(s[pos] == 'e');
        assert(acc + items =~= acc);
    } else {
        let w0 = items[0];
        let e0 = spec_encoded(w0);
        let rest = items.drop_first();
        let er = encoded_items(rest);
        assert(ei == e0 + er);
        lemma_encoded_first_char(w0);
        assert forall|k: int| 0 <= k < e0.len() implies ei[k] == e0[k] by {
            assert((e0 + er)[k] == e0[k]);
        }
        assert(s[pos] == e0[0]);
        assert(s[pos] != 'e');
        assert(s.subrange(pos, pos + e0.len()) =~= e0);
        lemma_decode_encoded(s, pos, w0);
        let p = pos + e0.len() as int;
        assert forall|k: int| 0 <= k < er.len() implies s[p + k] == er[k] by {
            assert((e0 + er)[e0.len() + k] == er[k]);
            assert(s[pos + (e0.len() + k)] == ei[e0.len() + k]);
        }
        assert(s.subrange(p, p + er.len()) =~= er);
        assert(s[p + er.len()] == 'e');
        assert forall|i: int| 0 <= i < rest.len() implies wf_canonical(#[trigger] rest[i]) by {
            assert(rest[i] == items[i + 1]);
        }
        lemma_decode_list_encoded(s, p, rest, acc.push(w0));
        assert(acc.push(w0) + rest =~= acc + items);
    }
}

/// Decoding dictionary entries over the encodings of `ps`, with `acc`
/// already decoded and every key of `acc` below every key of `ps`,
/// accumulates exactly `acc + ps` and consumes the closing terminator.
pub proof fn lemma_decode_dict_encoded(
    s: Seq<char>,
    pos: int,
    ps: Seq<(Seq<char>, SpecValue)>,
    acc: Seq<(Seq<char>, SpecValue)>,
)
    requires
        forall|i: int| 0 <= i < ps.len() ==> (#[trigger] ps[i]).0.len() <= usize::MAX as int
            && wf_canonical(ps[i].1),
        entries_sorted(acc + ps),
        0 <= pos,
        pos + encoded_entries(ps).len() < s.len(),
        s.subrange(pos, pos + encoded_entries(ps).len()) == encoded_entries(ps),
        s[pos + encoded_entries(ps).len()] == 'e',
    ensures
        spec_decode_dict(s, pos, acc) == Ok::<_, DecodeError>(
            (SpecValue::Obj(acc + ps), pos + encoded_entries(ps).len() + 1),
        ),
    decreases ps,
{
    let ee = encoded_entries(ps);
    let el = ee.len() as int;
    assert forall|k: int| 0 <= k < el implies s[pos + k] == ee[k] by {
        assert(s.subrange(pos, pos + el)[k] == s[pos + k]);
    }
    if ps.len() == 0 {
        assert(s[pos] == 'e');
        assert(acc + ps =~= acc);
    } else {
        let k0 = ps[0].0;
        let v0 = ps[0].1;
        let se = str_encoded(k0);
        let e0 = spec_encoded(v0);
        let rest = ps.drop_first();
        let er = encoded_entries(rest);
        assert(ee == se + e0 + er);
        lemma_nat_digits(k0.len() as int);
        assert forall|k: int| 0 <= k < se.len() implies ee[k] == se[k] by {
            assert((se + e0 + er)[k] == (se + e0)[k]);
        }
        assert(se[0] == (nat_digits(k0.len() as int) + seq![':'])[0]);
        assert(se[0] == nat_digits(k0.len() as int)[0]);
        assert(is_digit(se[0]));
        assert(s[pos] == se[0]);
        assert(s[pos] != 'e');
        assert(is_digit(s[pos]));
        assert(s.subrange(pos, pos + se.len()) =~= se);
        lemma_decode_string_encoded(s, pos, k0);
        let p1 = pos + se.len() as int;
        assert forall|k: int| 0 <= k < e0.len() implies s[p1 + k] == e0[k] by {
            assert((se + e0 + er)[se.len() + k] == (se + e0)[se.len() + k]);
            assert((se + e0)[se.len() + k] == e0[k]);
            assert(s[pos + (se.len() + k)] == ee[se.len() + k]);
        }
        assert(s.subrange(p1, p1 + e0.len()) =~= e0);
        lemma_encoded_first_char(v0);
        lemma_decode_encoded(s, p1, v0);
        let p2 = p1 + e0.len() as int;
        assert forall|k: int| 0 <= k < er.len() implies s[p2 + k] == er[k] by {
            assert((se + e0 + er)[se.len() + e0.len() + k] == er[k]);
            assert(s[pos + (se.len() + e0.len() + k)] == ee[se.len() + e0.len() + k]);
        }
        assert(s.subrange(p2, p2 + er.len()) =~= er);
        assert(s[p2 + er.len()] == 'e');
        assert forall|i: int| 0 <= i < acc.len() implies lex_lt((#[trigger] acc[i]).0, k0) by {
            assert((acc + ps)[i] == acc[i]);
            assert((acc + ps)[acc.len() as int] == ps[0]);
        }
        lemma_insert_pair_append(acc, k0, v0);
        assert(insert_pair(acc, k0, v0) == acc.push((k0, v0)));
        assert(acc.push((k0, v0)) =~= acc.push(ps[0]));
        assert forall|i: int| 0 <= i < rest.len() implies (#[trigger] rest[i]).0.len()
            <= usize::MAX as int && wf_canonical(rest[i].1) by {
            assert(rest[i] == ps[i + 1]);
        }
        assert(acc.push(ps[0]) + rest =~= acc + ps);
        assert(entries_sorted(acc.push(ps[0]) + rest));
        lemma_decode_dict_encoded(s, p2, rest, acc.push(ps[0]));
    }
}

/// Round trip for canonical output: decoding the encoding of the canonical
/// form of any representable, machine-bounded value yields exactly that
/// canonical form, consuming the whole text. Canonicalization sorts object
/// keys; the encoder emits exactly this encoding.
pub proof fn lemma_round_trip(v: SpecValue)
    requires
        wf_bounded(v),
    ensures
        wf_canonical(canon(v)),
        spec_decode_value(spec_encoded(canon(v)), 0) == Ok::<_, DecodeError>(
            (canon(v), spec_encoded(canon(v)).len() as int),
        ),
{
    lemma_canon_wf(v);
    let enc = spec_encoded(canon(v));
    assert(enc.subrange(0, enc.len() as int) =~= enc);
    lemma_decode_encoded(enc, 0, canon(v));
}

/// Folding already-sorted pairs onto a sorted prefix below them changes
/// nothing: each insertion is an append.
pub proof fn lemma_ins_all_sorted_id(
    acc: Seq<(Seq<char>, SpecValue)>,
    ps: Seq<(Seq<char>, SpecValue)>,
)
    requires
        entries_sorted(acc + ps),
    ensures
        ins_all(acc, ps) == acc + ps,
    decreases ps.len(),
{
    if ps.len() == 0 {
        assert(acc + ps =~= acc);
    } else {
        assert forall|i: int| 0 <= i < acc.len() implies lex_lt((#[trigger] acc[i]).0, ps[0].0) by {
            assert((acc + ps)[i] == acc[i]);
            assert((acc + ps)[acc.len() as int] == ps[0]);
        }
        lemma_insert_pair_append(acc, ps[0].0, ps[0].1);
        assert(insert_pair(acc, ps[0].0, ps[0].1) =~= acc.push(ps[0]));
        assert(acc.push(ps[0]) + ps.drop_first() =~= acc + ps);
        assert(entries_sorted(acc.push(ps[0]) + ps.drop_first()));
        lemma_ins_all_sorted_id(acc.push(ps[0]), ps.drop_first());
    }
}

/// Canonicalization is idempotent: a canonical value is its own canonical
/// form, so encoding already-sorted input is a true round trip.
pub proof fn lemma_canon_idempotent(v: SpecValue)
    requires
        wf_canonical(v),
    ensures
        canon(v) == v,
    decreases v,
{
    match v {
        SpecValue::Arr(items) => {
            lemma_canon_items(items);
            assert forall|i: int| 0 <= i < items.len() implies canon_items(items)[i] == (
            #[trigger] items[i]) by {
                lemma_canon_idempotent(items[i]);
            }
            assert(canon_items(items) =~= items);
        },
        SpecValue::Obj(ps) => {
            lemma_canon_entries(ps);
            assert forall|i: int| 0 <= i < ps.len() implies canon_entries(ps)[i] == (
            #[trigger] ps[i]) by {
                lemma_canon_idempotent(ps[i].1);
            }
            assert(canon_entries(ps) =~= ps);
            assert(Seq::<(Seq<char>, SpecValue)>::empty() + ps =~= ps);
            lemma_ins_all_sorted_id(Seq::empty(), ps);
        },
        _ => {},
    }
}

/// Inserting a fresh key adds exactly that pair and keeps the others.
pub proof fn lemma_insert_pair_contains(
    ps: Seq<(Seq<char>, SpecValue)>,
    k: Seq<char>,
    v: SpecValue,
)
    requires
        forall|i: int| 0 <= i < ps.len() ==> (#[trigger] ps[i]).0 != k,
    ensures
        forall|x: (Seq<char>, SpecValue)| #[trigger] insert_pair(ps, k, v).contains(x) <==> (
        ps.contains(x) || x == (k, v)),
    decreases ps.len(),
{
    let r = insert_pair(ps, k, v);
    if ps.len() == 0 {
        assert forall|x: (Seq<char>, SpecValue)| #[trigger] r.contains(x) <==> (ps.contains(x) || x
            == (k, v)) by {
            if x == (k, v) {
                assert(r[0] == x);
                assert(r.contains(x));
            }
            if r.contains(x) {
                let w = choose|w: int| 0 <= w < r.len() && r[w] == x;
                assert(w == 0);
            }
        }
    } else if lex_lt(k, ps[0].0) {
        assert forall|x: (Seq<char>, SpecValue)| #[trigger] r.contains(x) <==> (ps.contains(x) || x
            == (k, v)) by {
            if r.contains(x) {
                let w = choose|w: int| 0 <= w < r.len() && r[w] == x;
                if w > 0 {
                    assert(ps[w - 1] == x);
                    assert(ps.contains(x));
                }
            }
            if x == (k, v) {
                assert(r[0] == x);
                assert(r.contains(x));
            }
            if ps.contains(x) {
                let w = choose|w: int| 0 <= w < ps.len() && ps[w] == x;
                assert(r[w + 1] == x);
                assert(r.contains(x));
            }
        }
    } else {
        assert(k != ps[0].0);
        let tail = ps.drop_first();
        assert forall|i: int| 0 <= i < tail.len() implies (#[trigger] tail[i]).0 != k by {
            assert(tail[i] == ps[i + 1]);
        }
        lemma_insert_pair_contains(tail, k, v);
        let rt = insert_pair(tail, k, v);
        assert(r == seq![ps[0]] + rt);
        assert forall|x: (Seq<char>, SpecValue)| #[trigger] r.contains(x) <==> (ps.contains(x) || x
            == (k, v)) by {
            if r.contains(x) {
                let w = choose|w: int| 0 <= w < r.len() && r[w] == x;
                if w == 0 {
                    assert(ps[0] == x);
                    assert(ps.contains(x));
                } else {
                    assert(rt[w - 1] == x);
                    assert(rt.contains(x));
                    if tail.contains(x) {
                        let u = choose|u: int| 0 <= u < tail.len() && tail[u] == x;
                        assert(ps[u + 1] == x);
                        assert(ps.contains(x));
                    }
                }
            }
            if ps.contains(x) {
                let w = choose|w: int| 0 <= w < ps.len() && ps[w] == x;
                if w == 0 {
                    assert(r[0] == x);
                    assert(r.contains(x));
                } else {
                    assert(tail[w - 1] == x);
                    assert(tail.contains(x));
                    assert(rt.contains(x));
                    let u = choose|u: int| 0 <= u < rt.len() && rt[u] == x;
                    assert(r[u + 1] == x);
                    assert(r.contains(x));
                }
            }
            if x == (k, v) {
                assert(rt.contains(x));
                let u = choose|u: int| 0 <= u < rt.len() && rt[u] == x;
                assert(r[u + 1] == x);
                assert(r.contains(x));
            }
        }
    }
}

/// Folding pairs with fresh, pairwise distinct keys into a sorted list gives
/// a list holding exactly the old and the new pairs.
pub proof fn lemma_ins_all_contains(
    acc: Seq<(Seq<char>, SpecValue)>,
    ps: Seq<(Seq<char>, SpecValue)>,
)
    requires
        entries_sorted(acc),
        forall|i: int, j: int| 0 <= i < j < ps.len() ==> (#[trigger] ps[i]).0 != (
        #[trigger] ps[j]).0,
        forall|i: int, j: int| 0 <= i < acc.len() && 0 <= j < ps.len() ==> (#[trigger] acc[i]).0
            != (#[trigger] ps[j]).0,
    ensures
        forall|x: (Seq<char>, SpecValue)| #[trigger] ins_all(acc, ps).contains(x) <==> (
        acc.contains(x) || ps.contains(x)),
    decreases ps.len(),
{
    let r = ins_all(acc, ps);
    if ps.len() == 0 {
        assert forall|x: (Seq<char>, SpecValue)| #[trigger] r.contains(x) <==> (acc.contains(x)
            || ps.contains(x)) by {
            if ps.contains(x) {
                let w = choose|w: int| 0 <= w < ps.len() && ps[w] == x;
            }
        }
    } else {
        let acc1 = insert_pair(acc, ps[0].0, ps[0].1);
        assert forall|i: int| 0 <= i < acc.len() implies (#[trigger] acc[i]).0 != ps[0].0 by {}
        lemma_insert_pair_contains(acc, ps[0].0, ps[0].1);
        lemma_insert_pair_sorted(acc, ps[0].0, ps[0].1);
        let tail = ps.drop_first();
        assert forall|i: int, j: int| 0 <= i < j < tail.len() implies (#[trigger] tail[i]).0 != (
        #[trigger] tail[j]).0 by {
            assert(tail[i] == ps[i + 1] && tail[j] == ps[j + 1]);
        }
        assert forall|i: int, j: int| 0 <= i < acc1.len() && 0 <= j < tail.len() implies (
        #[trigger] acc1[i]).0 != (#[trigger] tail[j]).0 by {
            assert(acc1.contains(acc1[i]));
            assert(tail[j] == ps[j + 1]);
            if acc1[i] == (ps[0].0, ps[0].1) {
                assert(ps[0].0 != ps[j + 1].0);
            } else {
                assert(acc.contains(acc1[i]));
                let w = choose|w: int| 0 <= w < acc.len() && acc[w] == acc1[i];
                assert(acc[w].0 != ps[j + 1].0);
            }
        }
        lemma_ins_all_contains(acc1, tail);
        assert forall|x: (Seq<char>, SpecValue)| #[trigger] r.contains(x) <==> (acc.contains(x)
            || ps.contains(x)) by {
            assert(r == ins_all(acc1, tail));
            assert(ins_all(acc1, tail).contains(x) <==> (acc1.contains(x) || tail.contains(x)));
            assert(insert_pair(acc, ps[0].0, ps[0].1).contains(x) <==> (acc.contains(x) || x == (
                ps[0].0,
                ps[0].1,
            )));
            assert((ps[0].0, ps[0].1) == ps[0]);
            assert(ps.contains(x) <==> (x == ps[0] || tail.contains(x))) by {
                if ps.contains(x) {
                    let w = choose|w: int| 0 <= w < ps.len() && ps[w] == x;
                    if w > 0 {
                        assert(tail[w - 1] == x);
                        assert(tail.contains(x));
                    }
                }
                if tail.contains(x) {
                    let w = choose|w: int| 0 <= w < tail.len() && tail[w] == x;
                    assert(ps[w + 1] == x);
                    assert(ps.contains(x));
                }
                if x == ps[0] {
                    assert(ps.contains(x));
                }
            }
        }
    }
}

/// Two sorted pair lists holding the same pairs are the same list.
pub proof fn lemma_sorted_entries_eq(
    a: Seq<(Seq<char>, SpecValue)>,
    b: Seq<(Seq<char>, SpecValue)>,
)
    requires
        entries_sorted(a),
        entries_sorted(b),
        forall|x: (Seq<char>, SpecValue)| a.contains(x) <==> b.contains(x),
    ensures
        a == b,
    decreases a.len(),
{
    if a.len() == 0 {
        if b.len() > 0 {
            assert(b.contains(b[0]));
            assert(a.contains(b[0]));
            let w = choose|w: int| 0 <= w < a.len() && a[w] == b[0];
            assert(false);
        }
        assert(a =~= b);
    } else {
        assert(a.contains(a[0]));
        assert(b.contains(a[0]));
        let jb = choose|j: int| 0 <= j < b.len() && b[j] == a[0];
        assert(b.contains(b[0]));
        assert(a.contains(b[0]));
        let ja = choose|j: int| 0 <= j < a.len() && a[j] == b[0];
        if jb > 0 {
            assert(lex_lt(b[0].0, b[jb].0));
            if ja > 0 {
                assert(lex_lt(a[0].0, a[ja].0));
                crate::value::lemma_lex_trans(a[0].0, b[0].0, a[0].0);
                lemma_lex_trichotomy(a[0].0, a[0].0);
                assert(false);
            } else {
                assert(a[0] == b[0]);
                lemma_lex_trichotomy(b[0].0, b[jb].0);
                assert(false);
            }
        }
        assert(b[0] == a[0]);
        let ta = a.drop_first();
        let tb = b.drop_first();
        assert forall|i: int, j: int| 0 <= i < j < ta.len() implies lex_lt(
            (#[trigger] ta[i]).0,
            (#[trigger] ta[j]).0,
        ) by {
            assert(ta[i] == a[i + 1] && ta[j] == a[j + 1]);
        }
        assert forall|i: int, j: int| 0 <= i < j < tb.len() implies lex_lt(
            (#[trigger] tb[i]).0,
            (#[trigger] tb[j]).0,
        ) by {
            assert(tb[i] == b[i + 1] && tb[j] == b[j + 1]);
        }
        assert forall|x: (Seq<char>, SpecValue)| ta.contains(x) <==> tb.contains(x) by {
            if ta.contains(x) {
                let w = choose|w: int| 0 <= w < ta.len() && ta[w] == x;
                assert(a[w + 1] == x);
                assert(lex_lt(a[0].0, a[w + 1].0));
                lemma_lex_trichotomy(a[0].0, x.0);
                assert(a.contains(x));
                assert(b.contains(x));
                let u = choose|u: int| 0 <= u < b.len() && b[u] == x;
                assert(u != 0);
                assert(tb[u - 1] == x);
                assert(tb.contains(x));
            }
            if tb.contains(x) {
                let w = choose|w: int| 0 <= w < tb.len() && tb[w] == x;
                assert(b[w + 1] == x);
                assert(lex_lt(b[0].0, b[w + 1].0));
                lemma_lex_trichotomy(b[0].0, x.0);
                assert(b.contains(x));
                assert(a.contains(x));
                let u = choose|u: int| 0 <= u < a.len() && a[u] == x;
                assert(u != 0);
                assert(ta[u - 1] == x);
                assert(ta.contains(x));
            }
        }
        lemma_sorted_entries_eq(ta, tb);
        assert forall|i: int| 0 <= i < a.len() implies a[i] == b[i] by {
            if i > 0 {
                assert(ta[i - 1] == a[i]);
                assert(tb[i - 1] == b[i]);
            }
        }
        assert(a =~= b);
    }
}

/// Determinism across key order: two objects with the same bindings, given
/// in any order, canonicalize to the same sorted pair list, so their
/// encodings are byte-identical. This is the content of the sorted-key rule.
pub proof fn lemma_key_order_independent(
    ps1: Seq<(Seq<char>, SpecValue)>,
    ps2: Seq<(Seq<char>, SpecValue)>,
)
    requires
        forall|i: int, j: int| 0 <= i < j < ps1.len() ==> (#[trigger] ps1[i]).0 != (
        #[trigger] ps1[j]).0,
        forall|i: int, j: int| 0 <= i < j < ps2.len() ==> (#[trigger] ps2[i]).0 != (
        #[trigger] ps2[j]).0,
        forall|x: (Seq<char>, SpecValue)| ps1.contains(x) <==> ps2.contains(x),
    ensures
        ins_all(Seq::empty(), ps1) == ins_all(Seq::empty(), ps2),
        spec_encoded(SpecValue::Obj(ins_all(Seq::empty(), ps1))) == spec_encoded(
            SpecValue::Obj(ins_all(Seq::empty(), ps2)),
        ),
{
    let e = Seq::<(Seq<char>, SpecValue)>::empty();
    assert(entries_sorted(e));
    lemma_ins_all_contains(e, ps1);
    lemma_ins_all_contains(e, ps2);
    lemma_ins_all_sorted(e, ps1);
    lemma_ins_all_sorted(e, ps2);
    assert forall|x: (Seq<char>, SpecValue)| ins_all(e, ps1).contains(x) <==> ins_all(
        e,
        ps2,
    ).contains(x) by {
        assert(ins_all(e, ps1).contains(x) <==> (e.contains(x) || ps1.contains(x)));
        assert(ins_all(e, ps2).contains(x) <==> (e.contains(x) || ps2.contains(x)));
    }
    lemma_sorted_entries_eq(ins_all(e, ps1), ins_all(e, ps2));
}

/// Length exactness: decoding `"<len>:<text>"` yields exactly the text,
/// whatever characters it holds, consuming the whole input.
pub proof fn lemma_length_exactness(t: Seq<char>)
    requires
        t.len() <= usize::MAX as int,
    ensures
        spec_decode_value(str_encoded(t), 0) == Ok::<_, DecodeError>(
            (SpecValue::Str(t), str_encoded(t).len() as int),
        ),
{
    let s = str_encoded(t);
    lemma_nat_digits(t.len() as int);
    assert(s.subrange(0, s.len() as int) =~= s);
    lemma_decode_string_encoded(s, 0, t);
    assert(s[0] == (nat_digits(t.len() as int) + seq![':'])[0]);
    assert(s[0] == nat_digits(t.len() as int)[0]);
    assert(is_digit(s[0]));
}

/// A declared length exceeding the remaining input fails with an
/// end-of-input error.
pub proof fn lemma_length_eof(t: Seq<char>, n: int)
    requires
        t.len() < n <= usize::MAX as int,
    ensures
        spec_decode_value(nat_digits(n) + seq![':'] + t, 0) == Err::<(SpecValue, int), _>(
            DecodeError::UnexpectedEof,
        ),
{
    let d = nat_digits(n);
    lemma_nat_digits(n);
    let s = d + seq![':'] + t;
    assert forall|k: int| 0 <= k < d.len() implies s[k] == d[k] && is_digit(d[k]) by {
        assert((d + seq![':'] + t)[k] == (d + seq![':'])[k]);
        assert((d + seq![':'])[k] == d[k]);
    }
    assert(s[0] == d[0]);
    assert(is_digit(s[0]));
    assert(s[d.len() as int] == (d + seq![':'])[d.len() as int]);
    assert(s[d.len() as int] == ':');
    assert forall|k: int| 0 <= k < d.len() implies s[k] != ':' by {
        assert(is_digit(s[k]));
    }
    lemma_scan_until(s, 0, ':', d.len() as int);
    assert(s.subrange(0, d.len() as int) =~= d);
    assert(d[0] != '+');
    assert(parse_usize_spec(d) == Some(n));
    assert(d.len() + 1 + n > s.len());
}

} // verus!
