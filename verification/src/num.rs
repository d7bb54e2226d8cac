use vstd::prelude::*;

verus! {

/// Relies on `String::push`: appends exactly the one character to the string.
#[verifier::external_body]
pub(crate) fn push_char(s: &mut String, c: char)
    ensures
        final(s)@ == old(s)@.push(c),
{
    s.push(c)
}

pub open spec fn is_digit(c: char) -> bool {
    '0' <= c && c <= '9'
}

pub open spec fn digit_val(c: char) -> int {
    (c as u32) - ('0' as u32)
}

pub open spec fn digit_char(d: int) -> char {
    if d == 0 {
        '0'
    } else if d == 1 {
        '1'
    } else if d == 2 {
        '2'
    } else if d == 3 {
        '3'
    } else if d == 4 {
        '4'
    } else if d == 5 {
        '5'
    } else if d == 6 {
        '6'
    } else if d == 7 {
        '7'
    } else if d == 8 {
        '8'
    } else {
        '9'
    }
}

pub open spec fn all_digits(s: Seq<char>) -> bool {
    forall|i: int| 0 <= i < s.len() ==> is_digit(#[trigger] s[i])
}

/// The number a sequence of decimal digits denotes, most significant first.
pub open spec fn digits_value(s: Seq<char>) -> int
    decreases s.len(),
{
    if s.len() == 0 {
        0
    } else {
        digits_value(s.drop_last()) * 10 + digit_val(s.last())
    }
}

/// The decimal digits of a nonnegative number, without leading zeros
/// (a single `'0'` for zero).
pub open spec fn nat_digits(n: int) -> Seq<char>
    recommends
        n >= 0,
    decreases n,
{
    if n < 10 {
        seq![digit_char(n)]
    } else {
        nat_digits(n / 10).push(digit_char(n % 10))
    }
}

/// The decimal form of an integer: a `'-'` sign for negative numbers,
/// then the digits of its magnitude.
pub open spec fn int_chars(n: int) -> Seq<char> {
    if n < 0 {
        seq!['-'] + nat_digits(-n)
    } else {
        nat_digits(n)
    }
}

/// What parsing text as an unsigned machine-sized number yields: an optional
/// leading `'+'`, then one or more digits, denoting a value that fits.
pub open spec fn parse_usize_spec(s: Seq<char>) -> Option<int> {
    let body = if s.len() > 0 && s[0] == '+' {
        s.drop_first()
    } else {
        s
    };
    if body.len() > 0 && all_digits(body) && digits_value(body) <= usize::MAX as int {
        Some(digits_value(body))
    } else {
        None
    }
}

/// What parsing text as a signed 64-bit number yields: an optional leading
/// sign, then one or more digits, denoting a value in the 64-bit range.
pub open spec fn parse_i64_spec(s: Seq<char>) -> Option<int> {
    let neg = s.len() > 0 && s[0] == '-';
    let body = if s.len() > 0 && (s[0] == '-' || s[0] == '+') {
        s.drop_first()
    } else {
        s
    };
    if body.len() > 0 && all_digits(body) {
        let n = if neg {
            -digits_value(body)
        } else {
            digits_value(body)
        };
        if i64::MIN as int <= n <= i64::MAX as int {
            Some(n)
        } else {
            None
        }
    } else {
        None
    }
}

pub proof fn lemma_digit_char_is_digit(d: int)
    requires
        0 <= d < 10,
    ensures
        is_digit(digit_char(d)),
        digit_val(digit_char(d)) == d,
        digit_char(d) != 'e',
        digit_char(d) != ':',
        digit_char(d) != '-',
{
}

pub proof fn lemma_digits_value_push(s: Seq<char>, c: char)
    ensures
        digits_value(s.push(c)) == digits_value(s) * 10 + digit_val(c),
{
    assert(s.push(c).drop_last() =~= s);
    assert(s.push(c).last() == c);
}

pub proof fn lemma_digits_value_nonneg(s: Seq<char>)
    requires
        all_digits(s),
    ensures
        digits_value(s) >= 0,
    decreases s.len(),
{
    if s.len() > 0 {
        assert(forall|i: int| 0 <= i < s.drop_last().len() ==> s.drop_last()[i] == s[i]);
        lemma_digits_value_nonneg(s.drop_last());
        assert(is_digit(s.last()));
        assert(digit_val(s.last()) >= 0);
    }
}

pub proof fn lemma_digits_value_mono(s: Seq<char>, k: int)
    requires
        all_digits(s),
        0 <= k <= s.len(),
    ensures
        digits_value(s.take(k)) <= digits_value(s),
    decreases s.len() - k,
{
    if k < s.len() {
        lemma_digits_value_mono(s, k + 1);
        assert(s.take(k + 1) =~= s.take(k).push(s[k]));
        lemma_digits_value_push(s.take(k), s[k]);
        assert(forall|i: int| 0 <= i < k ==> s.take(k)[i] == s[i]);
        lemma_digits_value_nonneg(s.take(k));
        assert(digit_val(s[k]) >= 0);
    } else {
        assert(s.take(k) =~= s);
    }
}

/// The decimal digits of a number denote that number, and are digits.
pub proof fn lemma_nat_digits(n: int)
    requires
        n >= 0,
    ensures
        nat_digits(n).len() >= 1,
        all_digits(nat_digits(n)),
        digits_value(nat_digits(n)) == n,
    decreases n,
{
    if n < 10 {
        lemma_digit_char_is_digit(n);
        assert(nat_digits(n).drop_last() =~= Seq::<char>::empty());
        assert(digits_value(Seq::<char>::empty()) == 0);
        assert(nat_digits(n).last() == digit_char(n));
    } else {
        lemma_nat_digits(n / 10);
        lemma_digit_char_is_digit(n % 10);
        lemma_digits_value_push(nat_digits(n / 10), digit_char(n % 10));
        assert forall|i: int| 0 <= i < nat_digits(n).len() implies is_digit(
            #[trigger] nat_digits(n)[i],
        ) by {
            if i < nat_digits(n / 10).len() {
                assert(nat_digits(n)[i] == nat_digits(n / 10)[i]);
            }
        }
    }
}

pub(crate) fn is_digit_char(c: char) -> (r: bool)
    ensures
        r == is_digit(c),
{
    '0' <= c && c <= '9'
}

fn exec_digit_char(d: u64) -> (c: char)
    requires
        d < 10,
    ensures
        c == digit_char(d as int),
{
    if d == 0 {
        '0'
    } else if d == 1 {
        '1'
    } else if d == 2 {
        '2'
    } else if d == 3 {
        '3'
    } else if d == 4 {
        '4'
    } else if d == 5 {
        '5'
    } else if d == 6 {
        '6'
    } else if d == 7 {
        '7'
    } else if d == 8 {
        '8'
    } else {
        '9'
    }
}

/// Parses the characters `s[start..end]` as an unsigned machine-sized
/// decimal number, exactly as `parse_usize_spec` describes.
#[verifier::loop_isolation(false)]
pub(crate) fn parse_usize_range(s: &Vec<char>, start: usize, end: usize) -> (r: Option<usize>)
    requires
        start <= end <= s@.len(),
    ensures
        match r {
            Some(u) => parse_usize_spec(s@.subrange(start as int, end as int)) == Some(u as int),
            None => parse_usize_spec(s@.subrange(start as int, end as int)) is None,
        },
{
    let ghost whole = s@.subrange(start as int, end as int);
    let mut i: usize = start;
    if i < end && s[i] == '+' {
        i += 1;
    }
    let ghost b0 = i as int;
    let ghost body = s@.subrange(b0, end as int);
    proof {
        if whole.len() > 0 && whole[0] == '+' {
            assert(body =~= whole.drop_first());
        } else {
            assert(body =~= whole);
        }
    }
    if i == end {
        return None;
    }
    let mut acc: u128 = 0;
    while i < end
        invariant
            0 <= b0 <= i as int <= end <= s@.len(),
            body == s@.subrange(b0, end as int),
            all_digits(s@.subrange(b0, i as int)),
            acc == digits_value(s@.subrange(b0, i as int)),
            acc <= usize::MAX as u128,
        decreases end - i,
    {
        let c = s[i];
        proof {
            assert(s@.subrange(b0, end as int)[i - b0] == s@[i as int]);
            assert(body[i - b0] == s@[i as int]);
        }
        if !is_digit_char(c) {
            proof {
                assert(!is_digit(body[i - b0]));
                assert(!all_digits(body));
            }
            return None;
        }
        let d: u128 = (c as u32 - 48) as u128;
        proof {
            assert(('0' as u32) == 48);
            assert(d as int == digit_val(c));
            assert(0 <= digit_val(c) <= 9);
            lemma_digits_value_push(s@.subrange(b0, i as int), c);
            assert(s@.subrange(b0, i as int + 1) =~= s@.subrange(b0, i as int).push(c));
            assert forall|j: int| 0 <= j < s@.subrange(b0, i as int + 1).len() implies is_digit(
                #[trigger] s@.subrange(b0, i as int + 1)[j],
            ) by {
                if j < i - b0 {
                    assert(s@.subrange(b0, i as int + 1)[j] == s@.subrange(b0, i as int)[j]);
                } else {
                    assert(s@.subrange(b0, i as int + 1)[j] == c);
                }
            }
        }
        acc = acc * 10 + d;
        if acc > usize::MAX as u128 {
            proof {
                if all_digits(body) {
                    lemma_digits_value_mono(body, i as int + 1 - b0);
                    assert(body.take(i as int + 1 - b0) =~= s@.subrange(b0, i as int + 1));
                    assert(digits_value(body) > usize::MAX as int);
                }
            }
            return None;
        }
        i += 1;
    }
    proof {
        assert(s@.subrange(b0, end as int) == body);
        lemma_digits_value_nonneg(body);
    }
    Some(acc as usize)
}

/// Parses the characters `s[start..end]` as a signed 64-bit decimal number,
/// exactly as `parse_i64_spec` describes.
#[verifier::loop_isolation(false)]
pub(crate) fn parse_i64_range(s: &Vec<char>, start: usize, end: usize) -> (r: Option<i64>)
    requires
        start <= end <= s@.len(),
    ensures
        match r {
            Some(u) => parse_i64_spec(s@.subrange(start as int, end as int)) == Some(u as int),
            None => parse_i64_spec(s@.subrange(start as int, end as int)) is None,
        },
{
    let ghost whole = s@.subrange(start as int, end as int);
    let mut i: usize = start;
    let mut neg: bool = false;
    if i < end && (s[i] == '+' || s[i] == '-') {
        neg = s[i] == '-';
        i += 1;
    }
    let ghost b0 = i as int;
    let ghost body = s@.subrange(b0, end as int);
    proof {
        if whole.len() > 0 && (whole[0] == '+' || whole[0] == '-') {
            assert(body =~= whole.drop_first());
        } else {
            assert(body =~= whole);
        }
    }
    if i == end {
        return None;
    }
    let ghost bound: int = if neg {
        -(i64::MIN as int)
    } else {
        i64::MAX as int
    };
    let ebound: u128 = if neg {
        9223372036854775808u128
    } else {
        9223372036854775807u128
    };
    proof {
        assert(ebound as int == bound);
    }
    let mut acc: u128 = 0;
    while i < end
        invariant
            0 <= b0 <= i as int <= end <= s@.len(),
            body == s@.subrange(b0, end as int),
            all_digits(s@.subrange(b0, i as int)),
            acc == digits_value(s@.subrange(b0, i as int)),
            acc <= ebound,
            ebound as int == bound,
            neg ==> bound == -(i64::MIN as int),
            !neg ==> bound == i64::MAX as int,
        decreases end - i,
    {
        let c = s[i];
        proof {
            assert(s@.subrange(b0, end as int)[i - b0] == s@[i as int]);
            assert(body[i - b0] == s@[i as int]);
        }
        if !is_digit_char(c) {
            proof {
                assert(!is_digit(body[i - b0]));
                assert(!all_digits(body));
            }
            return None;
        }
        let d: u128 = (c as u32 - 48) as u128;
        proof {
            assert(('0' as u32) == 48);
            assert(d as int == digit_val(c));
            assert(0 <= digit_val(c) <= 9);
            lemma_digits_value_push(s@.subrange(b0, i as int), c);
            assert(s@.subrange(b0, i as int + 1) =~= s@.subrange(b0, i as int).push(c));
            assert forall|j: int| 0 <= j < s@.subrange(b0, i as int + 1).len() implies is_digit(
                #[trigger] s@.subrange(b0, i as int + 1)[j],
            ) by {
                if j < i - b0 {
                    assert(s@.subrange(b0, i as int + 1)[j] == s@.subrange(b0, i as int)[j]);
                } else {
                    assert(s@.subrange(b0, i as int + 1)[j] == c);
                }
            }
        }
        acc = acc * 10 + d;
        if acc > ebound {
            proof {
                if all_digits(body) {
                    lemma_digits_value_mono(body, i as int + 1 - b0);
                    assert(body.take(i as int + 1 - b0) =~= s@.subrange(b0, i as int + 1));
                    assert(digits_value(body) > bound);
                }
            }
            return None;
        }
        i += 1;
    }
    proof {
        assert(s@.subrange(b0, end as int) == body);
        lemma_digits_value_nonneg(body);
    }
    if neg {
        if acc == 9223372036854775808u128 {
            Some(i64::MIN)
        } else {
            Some(-(acc as i64))
        }
    } else {
        Some(acc as i64)
    }
}

/// The reversal of a character sequence.
pub open spec fn rev_chars(s: Seq<char>) -> Seq<char>
    decreases s.len(),
{
    if s.len() == 0 {
        s
    } else {
        seq![s.last()] + rev_chars(s.drop_last())
    }
}

pub proof fn lemma_rev_chars(s: Seq<char>)
    ensures
        rev_chars(s).len() == s.len(),
        forall|k: int| 0 <= k < s.len() ==> rev_chars(s)[k] == s[s.len() - 1 - k],
    decreases s.len(),
{
    if s.len() > 0 {
        lemma_rev_chars(s.drop_last());
        assert forall|k: int| 0 <= k < s.len() implies rev_chars(s)[k] == s[s.len() - 1 - k] by {
            if k > 0 {
                assert(rev_chars(s)[k] == rev_chars(s.drop_last())[k - 1]);
                assert(s.drop_last()[s.len() - 1 - k] == s[s.len() - 1 - k]);
            }
        }
    }
}

/// Appends the decimal digits of `n` to `out`.
#[verifier::loop_isolation(false)]
pub(crate) fn push_u64(out: &mut String, n: u64)
    ensures
        final(out)@ == old(out)@ + nat_digits(n as int),
{
    let mut rev: Vec<char> = Vec::new();
    let mut m: u64 = n;
    while m >= 10
        invariant
            nat_digits(n as int) == nat_digits(m as int) + rev_chars(rev@),
        decreases m,
    {
        let c = exec_digit_char(m % 10);
        proof {
            assert(rev@.push(c).drop_last() =~= rev@);
            assert(nat_digits(m as int) == nat_digits(m as int / 10).push(digit_char(m as int % 10)));
            assert(nat_digits(m as int / 10).push(c) =~= nat_digits(m as int / 10) + seq![c]);
            assert(nat_digits(m as int / 10) + (seq![c] + rev_chars(rev@)) =~= (nat_digits(
                m as int / 10,
            ) + seq![c]) + rev_chars(rev@));
            assert((m / 10) as int == m as int / 10);
            assert((m % 10) as int == m as int % 10);
        }
        rev.push(c);
        m = m / 10;
    }
    let c = exec_digit_char(m);
    proof {
        assert(rev@.push(c).drop_last() =~= rev@);
        assert(nat_digits(m as int) =~= seq![c]);
        assert(seq![c] + rev_chars(rev@) =~= rev_chars(rev@.push(c)));
    }
    rev.push(c);
    let ghost base = out@;
    let ghost target = rev_chars(rev@);
    proof {
        lemma_rev_chars(rev@);
    }
    let n_digits = rev.len();
    let mut k: usize = 0;
    while k < n_digits
        invariant
            n_digits == rev@.len(),
            0 <= k <= n_digits,
            target == rev_chars(rev@),
            target.len() == rev@.len(),
            forall|j: int| 0 <= j < rev@.len() ==> target[j] == rev@[rev@.len() - 1 - j],
            out@ == base + target.take(k as int),
            nat_digits(n as int) == target,
        decreases n_digits - k,
    {
        push_char(out, rev[n_digits - 1 - k]);
        proof {
            assert(target.take(k as int + 1) =~= target.take(k as int).push(target[k as int]));
            assert((base + target.take(k as int)).push(target[k as int]) =~= base + target.take(
                k as int + 1,
            ));
        }
        k += 1;
    }
    proof {
        assert(target.take(n_digits as int) =~= target);
    }
}

/// Appends the decimal form of `n` to `out`, with a `'-'` sign if negative.
#[verifier::loop_isolation(false)]
pub(crate) fn push_i64(out: &mut String, n: i64)
    ensures
        final(out)@ == old(out)@ + int_chars(n as int),
{
    if n >= 0 {
        push_u64(out, n as u64);
    } else {
        let ghost base = out@;
        push_char(out, '-');
        let m: u64 = ((-(n + 1)) as u64) + 1;
        proof {
            assert(m as int == -(n as int));
        }
        push_u64(out, m);
        proof {
            assert(base.push('-') =~= base + seq!['-']);
            assert((base + seq!['-']) + nat_digits(m as int) =~= base + (seq!['-'] + nat_digits(
                m as int,
            )));
        }
    }
}

} // verus!
