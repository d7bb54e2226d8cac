use vstd::prelude::*;
use vstd::string::StrSliceExecFns;
use crate::value::{Value, SpecValue, view_value, view_values, view_entries, lemma_view_values,
    insert_pair, insert_entry};
use crate::num::{is_digit, is_digit_char, parse_i64_spec, parse_usize_spec, parse_i64_range,
    parse_usize_range, push_char, all_digits, digits_value, lemma_digits_value_nonneg};

verus! {

/// Why a decode failed, as the grammar defines it.
#[derive(Debug, Clone, Copy, PartialEq, Eq)]
pub enum DecodeError {
    /// A value or a dictionary key began with a character no rule allows.
    InvalidFormat,
    /// The text between `'i'` and `'e'` is not a signed 64-bit number.
    InvalidInteger,
    /// The text before a `':'` is not an unsigned machine-sized number.
    InvalidLength,
    /// The input ended before a required `'e'` terminator or `':'` separator
    /// arrived, before a length-prefixed string was complete, or where a
    /// value was required.
    UnexpectedEof,
}

impl DecodeError {
    /// A one-line diagnostic for this error.
    pub fn message(&self) -> (m: &'static str)
        ensures
            *self == DecodeError::InvalidFormat ==> m@ == "Invalid Bencode format"@,
            *self == DecodeError::InvalidInteger ==> m@ == "Invalid integer"@,
            *self == DecodeError::InvalidLength ==> m@ == "Invalid string length"@,
            *self == DecodeError::UnexpectedEof ==> m@ == "Unexpected end of input"@,
    {
        match self {
            DecodeError::InvalidFormat => "Invalid Bencode format",
            DecodeError::InvalidInteger => "Invalid integer",
            DecodeError::InvalidLength => "Invalid string length",
            DecodeError::UnexpectedEof => "Unexpected end of input",
        }
    }
}

/// The first position at or after `pos` holding `c`, or the length if none.
pub open spec fn scan_until(s: Seq<char>, pos: int, c: char) -> int
    decreases s.len() - pos,
{
    if pos >= s.len() {
        s.len() as int
    } else if s[pos] == c {
        pos
    } else {
        scan_until(s, pos + 1, c)
    }
}

pub proof fn lemma_scan_until(s: Seq<char>, pos: int, c: char, q: int)
    requires
        0 <= pos <= q <= s.len(),
        forall|k: int| pos <= k < q ==> s[k] != c,
        q < s.len() ==> s[q] == c,
    ensures
        scan_until(s, pos, c) == q,
    decreases q - pos,
{
    if pos < q {
        lemma_scan_until(s, pos + 1, c, q);
    }
}

pub proof fn lemma_scan_until_bounds(s: Seq<char>, pos: int, c: char)
    requires
        0 <= pos <= s.len(),
    ensures
        pos <= scan_until(s, pos, c) <= s.len(),
    decreases s.len() - pos,
{
    if pos < s.len() && s[pos] != c {
        lemma_scan_until_bounds(s, pos + 1, c);
    }
}

/// What decoding an integer body (after the `'i'`) yields: the characters up
/// to the first `'e'` (consumed), read as a signed 64-bit number. Input that
/// ends before the terminator arrives is an error.
pub open spec fn spec_decode_integer(s: Seq<char>, pos: int) -> Result<(SpecValue, int), DecodeError> {
    let end = scan_until(s, pos, 'e');
    if end >= s.len() {
        Err(DecodeError::UnexpectedEof)
    } else {
        match parse_i64_spec(s.subrange(pos, end)) {
            Some(n) => Ok((SpecValue::Int(n), end + 1)),
            None => Err(DecodeError::InvalidInteger),
        }
    }
}

/// What decoding a length-prefixed string yields: the characters up to the
/// first `':'` (consumed) read as a length, then exactly that many
/// characters. Input that ends before the `':'`, or before the declared
/// number of characters, is an error.
pub open spec fn spec_decode_string(s: Seq<char>, pos: int) -> Result<(Seq<char>, int), DecodeError> {
    let colon = scan_until(s, pos, ':');
    if colon >= s.len() {
        Err(DecodeError::UnexpectedEof)
    } else {
        let start = colon + 1;
        match parse_usize_spec(s.subrange(pos, colon)) {
            Some(n) => if start + n <= s.len() {
                Ok((s.subrange(start, start + n), start + n))
            } else {
                Err(DecodeError::UnexpectedEof)
            },
            None => Err(DecodeError::InvalidLength),
        }
    }
}

/// What decoding one value at `pos` yields: the value and the position just
/// after it, or the first error. Dispatch is on the next character.
pub open spec fn spec_decode_value(s: Seq<char>, pos: int) -> Result<(SpecValue, int), DecodeError>
    decreases s.len() - pos, 0int,
{
    if pos >= s.len() {
        Err(DecodeError::UnexpectedEof)
    } else if s[pos] == 'i' {
        spec_decode_integer(s, pos + 1)
    } else if s[pos] == 'l' {
        spec_decode_list(s, pos + 1, Seq::empty())
    } else if s[pos] == 'd' {
        spec_decode_dict(s, pos + 1, Seq::empty())
    } else if is_digit(s[pos]) {
        match spec_decode_string(s, pos) {
            Ok((t, p)) => Ok((SpecValue::Str(t), p)),
            Err(e) => Err(e),
        }
    } else {
        Err(DecodeError::InvalidFormat)
    }
}

/// What decoding list elements yields, given the elements decoded so far:
/// elements accumulate until a terminating `'e'` (consumed); input that ends
/// before the terminator arrives is an error.
pub open spec fn spec_decode_list(s: Seq<char>, pos: int, acc: Seq<SpecValue>) -> Result<
    (SpecValue, int),
    DecodeError,
>
    decreases s.len() - pos, 1int,
{
    if pos >= s.len() {
        Err(DecodeError::UnexpectedEof)
    } else if s[pos] == 'e' {
        Ok((SpecValue::Arr(acc), pos + 1))
    } else {
        match spec_decode_value(s, pos) {
            Err(e) => Err(e),
            Ok((v, p)) => if pos < p <= s.len() {
                spec_decode_list(s, p, acc.push(v))
            } else {
                Err(DecodeError::InvalidFormat)
            },
        }
    }
}

/// What decoding dictionary entries yields, given the entries decoded so
/// far: key/value pairs accumulate in sorted key order, a later binding of a
/// key replacing an earlier one, until a terminating `'e'` (consumed). Input
/// that ends before the terminator arrives is an error, and so is a key
/// position that does not start a string.
pub open spec fn spec_decode_dict(
    s: Seq<char>,
    pos: int,
    acc: Seq<(Seq<char>, SpecValue)>,
) -> Result<(SpecValue, int), DecodeError>
    decreases s.len() - pos, 1int,
{
    if pos >= s.len() {
        Err(DecodeError::UnexpectedEof)
    } else if s[pos] == 'e' {
        Ok((SpecValue::Obj(acc), pos + 1))
    } else if !is_digit(s[pos]) {
        Err(DecodeError::InvalidFormat)
    } else {
        match spec_decode_string(s, pos) {
            Err(e) => Err(e),
            Ok((k, p1)) => if pos < p1 <= s.len() {
                match spec_decode_value(s, p1) {
                    Err(e) => Err(e),
                    Ok((v, p2)) => if p1 < p2 <= s.len() {
                        spec_decode_dict(s, p2, insert_pair(acc, k, v))
                    } else {
                        Err(DecodeError::InvalidFormat)
                    },
                }
            } else {
                Err(DecodeError::InvalidFormat)
            },
        }
    }
}

/// A successfully decoded string consumes at least one character.
pub proof fn lemma_decode_string_consumes(s: Seq<char>, pos: int)
    requires
        0 <= pos <= s.len(),
        spec_decode_string(s, pos) is Ok,
    ensures
        spec_decode_string(s, pos) matches Ok(o) && pos < o.1 <= s.len(),
{
    lemma_scan_until_bounds(s, pos, ':');
    let colon = scan_until(s, pos, ':');
    let pref = s.subrange(pos, colon);
    if pref.len() == 0 {
        assert(parse_usize_spec(pref) is None);
    }
    let body = if pref.len() > 0 && pref[0] == '+' {
        pref.drop_first()
    } else {
        pref
    };
    assert(all_digits(body));
    lemma_digits_value_nonneg(body);
}

/// Scans for the first occurrence of `c` at or after `pos`.
#[verifier::loop_isolation(false)]
fn scan_for(s: &Vec<char>, pos: usize, c: char) -> (end: usize)
    requires
        pos <= s@.len(),
    ensures
        end == scan_until(s@, pos as int, c),
        pos <= end <= s@.len(),
{
    let n = s.len();
    let mut end = pos;
    while end < n && s[end] != c
        invariant
            pos <= end <= n,
            forall|k: int| pos <= k < end ==> s@[k] != c,
        decreases n - end,
    {
        end += 1;
    }
    proof {
        lemma_scan_until(s@, pos as int, c, end as int);
    }
    end
}

#[verifier::loop_isolation(false)]
fn decode_integer(s: &Vec<char>, pos: usize) -> (r: Result<(Value, usize), DecodeError>)
    requires
        pos <= s@.len(),
    ensures
        match r {
            Ok((v, p)) => spec_decode_integer(s@, pos as int) == Ok::<_, DecodeError>(
                (view_value(v), p as int),
            ) && pos <= p <= s@.len(),
            Err(e) => spec_decode_integer(s@, pos as int) == Err::<(SpecValue, int), _>(e),
        },
{
    let end = scan_for(s, pos, 'e');
    if end >= s.len() {
        return Err(DecodeError::UnexpectedEof);
    }
    match parse_i64_range(s, pos, end) {
        Some(n) => Ok((Value::Int(n), end + 1)),
        None => Err(DecodeError::InvalidInteger),
    }
}

#[verifier::loop_isolation(false)]
fn decode_string(s: &Vec<char>, pos: usize) -> (r: Result<(String, usize), DecodeError>)
    requires
        pos <= s@.len(),
    ensures
        match r {
            Ok((t, p)) => spec_decode_string(s@, pos as int) == Ok::<_, DecodeError>(
                (t@, p as int),
            ) && pos <= p <= s@.len(),
            Err(e) => spec_decode_string(s@, pos as int) == Err::<(Seq<char>, int), _>(e),
        },
{
    let colon = scan_for(s, pos, ':');
    if colon >= s.len() {
        return Err(DecodeError::UnexpectedEof);
    }
    let start = colon + 1;
    match parse_usize_range(s, pos, colon) {
        None => Err(DecodeError::InvalidLength),
        Some(n) => {
            if n > s.len() - start {
                return Err(DecodeError::UnexpectedEof);
            }
            let mut t = String::new();
            let mut k: usize = 0;
            while k < n
                invariant
                    0 <= k <= n,
                    start + n <= s@.len(),
                    t@ == s@.subrange(start as int, start as int + k as int),
                decreases n - k,
            {
                push_char(&mut t, s[start + k]);
                proof {
                    assert(s@.subrange(start as int, start as int + k as int).push(
                        s@[start as int + k as int],
                    ) =~= s@.subrange(start as int, start as int + k as int + 1));
                }
                k += 1;
            }
            Ok((t, start + n))
        },
    }
}

#[verifier::loop_isolation(false)]
pub(crate) fn decode_value(s: &Vec<char>, pos: usize) -> (r: Result<(Value, usize), DecodeError>)
    requires
        pos <= s@.len(),
    ensures
        match r {
            Ok((v, p)) => spec_decode_value(s@, pos as int) == Ok::<_, DecodeError>(
                (view_value(v), p as int),
            ) && pos < p <= s@.len(),
            Err(e) => spec_decode_value(s@, pos as int) == Err::<(SpecValue, int), _>(e),
        },
    decreases s@.len() - pos, 0int,
{
    if pos >= s.len() {
        return Err(DecodeError::UnexpectedEof);
    }
    let c = s[pos];
    if c == 'i' {
        match decode_integer(s, pos + 1) {
            Ok((v, p)) => Ok((v, p)),
            Err(e) => Err(e),
        }
    } else if c == 'l' {
        match decode_list(s, pos + 1) {
            Ok((v, p)) => Ok((v, p)),
            Err(e) => Err(e),
        }
    } else if c == 'd' {
        match decode_dict(s, pos + 1) {
            Ok((v, p)) => Ok((v, p)),
            Err(e) => Err(e),
        }
    } else if is_digit_char(c) {
        match decode_string(s, pos) {
            Ok((t, p)) => {
                proof {
                    lemma_decode_string_consumes(s@, pos as int);
                }
                Ok((Value::Str(t), p))
            },
            Err(e) => Err(e),
        }
    } else {
        Err(DecodeError::InvalidFormat)
    }
}

#[verifier::loop_isolation(false)]
fn decode_list(s: &Vec<char>, pos: usize) -> (r: Result<(Value, usize), DecodeError>)
    requires
        pos <= s@.len(),
    ensures
        match r {
            Ok((v, p)) => spec_decode_list(s@, pos as int, Seq::empty()) == Ok::<_, DecodeError>(
                (view_value(v), p as int),
            ) && pos <= p <= s@.len(),
            Err(e) => spec_decode_list(s@, pos as int, Seq::empty()) == Err::<(SpecValue, int), _>(
                e,
            ),
        },
    decreases s@.len() - pos, 1int,
{
    let mut items: Vec<Value> = Vec::new();
    let mut cur = pos;
    while cur < s.len() && s[cur] != 'e'
        invariant
            pos <= cur <= s@.len(),
            spec_decode_list(s@, pos as int, Seq::empty()) == spec_decode_list(
                s@,
                cur as int,
                view_values(items@),
            ),
        decreases s@.len() - cur,
    {
        match decode_value(s, cur) {
            Err(e) => {
                return Err(e);
            },
            Ok((v, p)) => {
                proof {
                    lemma_view_values(items@);
                    lemma_view_values(items@.push(v));
                    assert forall|i: int| 0 <= i < items@.push(v).len() implies view_values(
                        items@.push(v),
                    )[i] == view_values(items@).push(view_value(v))[i] by {
                        if i < items@.len() {
                            assert(items@.push(v)[i] == items@[i]);
                        } else {
                            assert(items@.push(v)[i] == v);
                        }
                    }
                    assert(view_values(items@.push(v)) =~= view_values(items@).push(view_value(v)));
                }
                items.push(v);
                cur = p;
            },
        }
    }
    if cur < s.len() {
        Ok((Value::Arr(items), cur + 1))
    } else {
        Err(DecodeError::UnexpectedEof)
    }
}

#[verifier::loop_isolation(false)]
fn decode_dict(s: &Vec<char>, pos: usize) -> (r: Result<(Value, usize), DecodeError>)
    requires
        pos <= s@.len(),
    ensures
        match r {
            Ok((v, p)) => spec_decode_dict(s@, pos as int, Seq::empty()) == Ok::<_, DecodeError>(
                (view_value(v), p as int),
            ) && pos <= p <= s@.len(),
            Err(e) => spec_decode_dict(s@, pos as int, Seq::empty()) == Err::<(SpecValue, int), _>(
                e,
            ),
        },
    decreases s@.len() - pos, 1int,
{
    let mut pairs: Vec<(String, Value)> = Vec::new();
    let mut cur = pos;
    while cur < s.len() && s[cur] != 'e'
        invariant
            pos <= cur <= s@.len(),
            spec_decode_dict(s@, pos as int, Seq::empty()) == spec_decode_dict(
                s@,
                cur as int,
                view_entries(pairs@),
            ),
        decreases s@.len() - cur,
    {
        if !is_digit_char(s[cur]) {
            return Err(DecodeError::InvalidFormat);
        }
        match decode_string(s, cur) {
            Err(e) => {
                return Err(e);
            },
            Ok((key, p1)) => {
                match decode_value(s, p1) {
                    Err(e) => {
                        return Err(e);
                    },
                    Ok((v, p2)) => {
                        let ghost acc = view_entries(pairs@);
                        let ghost kview = key@;
                        let ghost vview = view_value(v);
                        insert_entry(&mut pairs, key, v);
                        proof {
                            assert(view_entries(pairs@) == insert_pair(acc, kview, vview));
                        }
                        cur = p2;
                    },
                }
            },
        }
    }
    if cur < s.len() {
        Ok((Value::Obj(pairs), cur + 1))
    } else {
        Err(DecodeError::UnexpectedEof)
    }
}

/// Turns text into its sequence of characters.
#[verifier::loop_isolation(false)]
fn str_to_chars(s: &str) -> (r: Vec<char>)
    ensures
        r@ == s@,
{
    let n = s.unicode_len();
    let mut v: Vec<char> = Vec::new();
    let mut i: usize = 0;
    while i < n
        invariant
            0 <= i <= n,
            v@ == s@.subrange(0, i as int),
        decreases n - i,
    {
        let c = s.get_char(i);
        proof {
            assert(s@.subrange(0, i as int).push(s@[i as int]) =~= s@.subrange(0, i as int + 1));
        }
        v.push(c);
        i += 1;
    }
    proof {
        assert(s@.subrange(0, n as int) =~= s@);
    }
    v
}

/// Decodes one binary-encoded value from the start of `input`.
///
/// Returns the decoded value tree, or the first error the grammar gives;
/// characters after the first complete value are ignored. Exactly which of
/// the two happens, and what comes back, is `spec_decode_value` on the text.
pub fn bencode_to_json(input: &str) -> (r: Result<Value, DecodeError>)
    ensures
        match r {
            Ok(v) => spec_decode_value(input@, 0) matches Ok(t) && t.0 == v@,
            Err(e) => spec_decode_value(input@, 0) == Err::<(SpecValue, int), _>(e),
        },
{
    let chars = str_to_chars(input);
    match decode_value(&chars, 0) {
        Ok((v, _p)) => Ok(v),
        Err(e) => Err(e),
    }
}

} // verus!
