//! ASCII decimal text, as used for lengths, counts and integers on the wire.
use vstd::prelude::*;

verus! {

pub open spec fn is_digit(b: u8) -> bool {
    48 <= b <= 57
}

pub open spec fn all_digits(s: Seq<u8>) -> bool {
    forall|i: int| 0 <= i < s.len() ==> is_digit(#[trigger] s[i])
}

/// The number that a string of ASCII digits denotes.
pub open spec fn digits_value(s: Seq<u8>) -> nat
    decreases s.len(),
{
    if s.len() == 0 {
        0
    } else {
        digits_value(s.drop_last()) * 10 + (s.last() - 48) as nat
    }
}

/// The shortest decimal text of a natural number.
pub open spec fn nat_text(n: nat) -> Seq<u8>
    decreases n,
{
    if n < 10 {
        seq![(48 + n) as u8]
    } else {
        nat_text(n / 10).push((48 + n % 10) as u8)
    }
}

/// The decimal text of an integer, with a leading `-` when it is negative.
pub open spec fn int_text(i: int) -> Seq<u8> {
    if i < 0 {
        seq![45u8] + nat_text((-i) as nat)
    } else {
        nat_text(i as nat)
    }
}

/// What an unsigned decimal line denotes: an optional `+`, then one or more digits.
pub open spec fn unsigned_value(line: Seq<u8>) -> Option<nat> {
    let digits = if line.len() > 0 && line[0] == 43u8 {
        line.drop_first()
    } else {
        line
    };
    if digits.len() > 0 && all_digits(digits) {
        Some(digits_value(digits))
    } else {
        None
    }
}

/// What a signed decimal line denotes: an optional `+` or `-`, then one or more digits.
pub open spec fn signed_value(line: Seq<u8>) -> Option<int> {
    if line.len() > 0 && line[0] == 45u8 {
        let digits = line.drop_first();
        if digits.len() > 0 && all_digits(digits) {
            Some(-(digits_value(digits) as int))
        } else {
            None
        }
    } else {
        match unsigned_value(line) {
            Some(n) => Some(n as int),
            None => None,
        }
    }
}

pub proof fn lemma_nat_text_digits(n: nat)
    ensures
        nat_text(n).len() > 0,
        all_digits(nat_text(n)),
        digits_value(nat_text(n)) == n,
        nat_text(n)[0] != 43u8,
        nat_text(n)[0] != 45u8,
    decreases n,
{
    if n >= 10 {
        lemma_nat_text_digits(n / 10);
        let t = nat_text(n);
        assert(t.drop_last() =~= nat_text(n / 10));
        assert(t.last() == (48 + n % 10) as u8);
        assert((n / 10) * 10 + n % 10 == n);
        assert(digits_value(t) == digits_value(t.drop_last()) * 10 + (t.last() - 48) as nat);
        assert(digits_value(t) == (n / 10) * 10 + n % 10);
        assert forall|i: int| 0 <= i < t.len() implies is_digit(#[trigger] t[i]) by {
            if i < t.len() - 1 {
                assert(t[i] == nat_text(n / 10)[i]);
            }
        }
    } else {
        assert(nat_text(n).drop_last() =~= Seq::<u8>::empty());
        assert(digits_value(nat_text(n)) == digits_value(Seq::<u8>::empty()) * 10 + (nat_text(n).last() - 48) as nat);
    }
}

pub proof fn lemma_unsigned_value_of_text(n: nat)
    ensures
        unsigned_value(nat_text(n)) == Some(n),
{
    lemma_nat_text_digits(n);
}

pub proof fn lemma_signed_value_of_text(i: int)
    ensures
        signed_value(int_text(i)) == Some(i),
{
    if i < 0 {
        lemma_nat_text_digits((-i) as nat);
        assert((seq![45u8] + nat_text((-i) as nat)).drop_first() =~= nat_text((-i) as nat));
    } else {
        lemma_nat_text_digits(i as nat);
    }
}

pub proof fn lemma_digits_value_prefix(s: Seq<u8>, i: int)
    requires
        0 <= i <= s.len(),
        all_digits(s),
    ensures
        digits_value(s.take(i)) <= digits_value(s),
    decreases s.len(),
{
    if i < s.len() {
        assert(s.drop_last().take(i) =~= s.take(i));
        lemma_digits_value_prefix(s.drop_last(), i);
    } else {
        assert(s.take(i) =~= s);
    }
}

/// The value of the digits `buf[start..end]`, when they are all digits and the value
/// fits in a `u64`.
pub fn digits_to_u64(buf: &[u8], start: usize, end: usize) -> (r: Option<u64>)
    requires
        start <= end <= buf@.len(),
    ensures
        ({
            let s = buf@.subrange(start as int, end as int);
            match r {
                Some(v) => all_digits(s) && v == digits_value(s),
                None => !all_digits(s) || digits_value(s) > u64::MAX,
            }
        }),
{
    let ghost s = buf@.subrange(start as int, end as int);
    let mut acc: u64 = 0;
    let mut i: usize = start;
    while i < end
        invariant
            start <= i <= end <= buf@.len(),
            s == buf@.subrange(start as int, end as int),
            all_digits(s.take(i - start)),
            acc == digits_value(s.take(i - start)),
        decreases end - i,
    {
        let b = buf[i];
        if b < 48 || b > 57 {
            assert(!is_digit(s[i - start]));
            return None;
        }
        let d: u64 = (b - 48) as u64;
        let ghost k: int = i - start;
        assert(s.take(k + 1).drop_last() =~= s.take(k));
        assert(s.take(k + 1).last() == b);
        if acc > (u64::MAX - d) / 10 {
            assert(acc * 10 + d > u64::MAX) by (nonlinear_arith)
                requires
                    acc > (u64::MAX - d) / 10,
                    d <= 9,
            ;
            proof {
                if all_digits(s) {
                    lemma_digits_value_prefix(s, k + 1);
                }
            }
            return None;
        }
        assert(acc * 10 + d <= u64::MAX) by (nonlinear_arith)
            requires
                acc <= (u64::MAX - d) / 10,
                d <= 9,
        ;
        acc = acc * 10 + d;
        i = i + 1;
        assert forall|j: int| 0 <= j < s.take(k + 1).len() implies is_digit(
            #[trigger] s.take(k + 1)[j],
        ) by {
            if j < k {
                assert(s.take(k + 1)[j] == s.take(k)[j]);
            }
        }
    }
    assert(s.take(end - start) =~= s);
    Some(acc)
}

/// The value of an unsigned decimal line `buf[start..end]` that fits in a `usize`.
pub fn parse_usize(buf: &[u8], start: usize, end: usize) -> (r: Option<usize>)
    requires
        start <= end <= buf@.len(),
    ensures
        ({
            let v = unsigned_value(buf@.subrange(start as int, end as int));
            match r {
                Some(n) => v == Some(n as nat),
                None => v is None || v->0 > usize::MAX,
            }
        }),
{
    let ghost line = buf@.subrange(start as int, end as int);
    let mut from = start;
    if start < end && buf[start] == 43 {
        from = start + 1;
        assert(buf@.subrange(from as int, end as int) =~= line.drop_first());
    } else {
        assert(buf@.subrange(from as int, end as int) =~= line);
    }
    if from == end {
        return None;
    }
    match digits_to_u64(buf, from, end) {
        Some(v) => {
            if v > usize::MAX as u64 {
                None
            } else {
                Some(v as usize)
            }
        },
        None => None,
    }
}

/// The value of a signed decimal line `buf[start..end]` that fits in an `i64`.
pub fn parse_i64_range(buf: &[u8], start: usize, end: usize) -> (r: Option<i64>)
    requires
        start <= end <= buf@.len(),
    ensures
        ({
            let v = signed_value(buf@.subrange(start as int, end as int));
            match r {
                Some(n) => v == Some(n as int),
                None => v is None || v->0 < i64::MIN || v->0 > i64::MAX,
            }
        }),
{
    let ghost line = buf@.subrange(start as int, end as int);
    let negative = start < end && buf[start] == 45;
    let mut from = start;
    if start < end && (buf[start] == 43 || buf[start] == 45) {
        from = start + 1;
        assert(buf@.subrange(from as int, end as int) =~= line.drop_first());
    } else {
        assert(buf@.subrange(from as int, end as int) =~= line);
    }
    if from == end {
        return None;
    }
    match digits_to_u64(buf, from, end) {
        Some(v) => {
            if negative {
                if v > 9223372036854775808u64 {
                    None
                } else if v == 9223372036854775808u64 {
                    Some(i64::MIN)
                } else {
                    Some(-(v as i64))
                }
            } else {
                if v > i64::MAX as u64 {
                    None
                } else {
                    Some(v as i64)
                }
            }
        },
        None => None,
    }
}

/// The value of a signed decimal text that fits in an `i64`.
pub fn parse_i64(text: &[u8]) -> (r: Option<i64>)
    ensures
        ({
            let v = signed_value(text@);
            match r {
                Some(n) => v == Some(n as int),
                None => v is None || v->0 < i64::MIN || v->0 > i64::MAX,
            }
        }),
{
    assert(text@.subrange(0, text@.len() as int) =~= text@);
    parse_i64_range(text, 0, text.len())
}

/// Appends the decimal text of `n` to `out`.
pub fn push_nat_text(out: &mut Vec<u8>, n: u64)
    ensures
        final(out)@ == old(out)@ + nat_text(n as nat),
    decreases n,
{
    if n >= 10 {
        push_nat_text(out, n / 10);
    }
    let d: u8 = (n % 10) as u8;
    out.push(48 + d);
    proof {
        if n >= 10 {
            assert(final(out)@ =~= old(out)@ + nat_text(n as nat));
        } else {
            assert(final(out)@ =~= old(out)@ + nat_text(n as nat));
        }
    }
}

/// Appends the decimal text of `i` to `out`.
pub fn push_int_text(out: &mut Vec<u8>, i: i64)
    ensures
        final(out)@ == old(out)@ + int_text(i as int),
{
    if i < 0 {
        out.push(45);
        let magnitude: u64 = if i == i64::MIN {
            9223372036854775808u64
        } else {
            (-i) as u64
        };
        push_nat_text(out, magnitude);
        assert(final(out)@ =~= old(out)@ + int_text(i as int));
    } else {
        push_nat_text(out, i as u64);
    }
}

} // verus!
