//! ASCII decimal text for integers, as the value encoding writes and reads it.
use vstd::prelude::*;

verus! {

pub open spec fn is_digit(b: u8) -> bool {
    48 <= b <= 57
}

/// A non-empty run of ASCII digits.
pub open spec fn all_digits(s: Seq<u8>) -> bool {
    s.len() > 0 && forall|i: int| 0 <= i < s.len() ==> is_digit(#[trigger] s[i])
}

/// The number that a run of digits denotes (leading zeros allowed).
pub open spec fn digits_value(s: Seq<u8>) -> nat
    decreases s.len(),
{
    if s.len() == 0 {
        0
    } else {
        digits_value(s.drop_last()) * 10 + (s.last() - 48) as nat
    }
}

/// Shortest decimal text of a natural number.
pub open spec fn nat_text(n: nat) -> Seq<u8>
    decreases n,
{
    if n < 10 {
        seq![(48 + n) as u8]
    } else {
        nat_text(n / 10).push((48 + n % 10) as u8)
    }
}

/// Decimal text of an integer, with a leading `-` when negative.
pub open spec fn int_text(i: int) -> Seq<u8> {
    if i < 0 {
        seq![45u8] + nat_text((-i) as nat)
    } else {
        nat_text(i as nat)
    }
}

pub open spec fn in_i64(v: int) -> bool {
    i64::MIN <= v <= i64::MAX
}

/// The signed 64-bit integer that a text denotes: an optional `+` or `-`
/// followed by at least one digit, within the range of `i64`.
pub open spec fn int_text_value(s: Seq<u8>) -> Option<int> {
    if s.len() > 0 && s[0] == 45u8 {
        let rest = s.drop_first();
        if all_digits(rest) && in_i64(-digits_value(rest)) {
            Some(-digits_value(rest))
        } else {
            None
        }
    } else if s.len() > 0 && s[0] == 43u8 {
        let rest = s.drop_first();
        if all_digits(rest) && in_i64(digits_value(rest) as int) {
            Some(digits_value(rest) as int)
        } else {
            None
        }
    } else if all_digits(s) && in_i64(digits_value(s) as int) {
        Some(digits_value(s) as int)
    } else {
        None
    }
}

pub proof fn lemma_digits_value_grows(s: Seq<u8>, k: int)
    requires
        0 <= k <= s.len(),
        forall|i: int| 0 <= i < s.len() ==> is_digit(#[trigger] s[i]),
    ensures
        digits_value(s.subrange(0, k)) <= digits_value(s),
    decreases s.len() - k,
{
    if k < s.len() {
        lemma_digits_value_grows(s, k + 1);
        let p = s.subrange(0, k + 1);
        assert(p.drop_last() =~= s.subrange(0, k));
    } else {
        assert(s.subrange(0, k) =~= s);
    }
}

pub proof fn lemma_nat_text(n: nat)
    ensures
        all_digits(nat_text(n)),
        digits_value(nat_text(n)) == n,
    decreases n,
{
    if n >= 10 {
        lemma_nat_text(n / 10);
        let t = nat_text(n);
        assert(t.drop_last() =~= nat_text(n / 10));
        assert(t.last() == (48 + n % 10) as u8);
        assert((n / 10) * 10 + n % 10 == n) by (nonlinear_arith);
        assert(digits_value(t) == digits_value(t.drop_last()) * 10 + (t.last() - 48) as nat);
        assert forall|i: int| 0 <= i < t.len() implies is_digit(#[trigger] t[i]) by {
            if i < t.len() - 1 {
                assert(t[i] == nat_text(n / 10)[i]);
            }
        }
    } else {
        let t = nat_text(n);
        assert(t.drop_last() =~= Seq::<u8>::empty());
        assert(digits_value(t.drop_last()) == 0);
        assert(t.last() == (48 + n) as u8);
    }
}

pub proof fn lemma_int_text_round_trip(i: int)
    requires
        in_i64(i),
    ensures
        int_text_value(int_text(i)) == Some(i),
{
    if i < 0 {
        lemma_nat_text((-i) as nat);
        let s = int_text(i);
        assert(s.drop_first() =~= nat_text((-i) as nat));
    } else {
        lemma_nat_text(i as nat);
        let s = nat_text(i as nat);
        assert(is_digit(s[0]));
    }
}

/// Reads the digits `b[from..to]` as a number no larger than `bound`;
/// `None` when the run is empty, holds a non-digit, or exceeds `bound`.
pub fn parse_digits(b: &[u8], from: usize, to: usize, bound: u64) -> (r: Option<u64>)
    requires
        from <= to <= b@.len(),
    ensures
        r matches Some(v) ==> all_digits(b@.subrange(from as int, to as int)) && v
            == digits_value(b@.subrange(from as int, to as int)) && v <= bound,
        r is None ==> !(all_digits(b@.subrange(from as int, to as int)) && digits_value(
            b@.subrange(from as int, to as int),
        ) <= bound),
{
    if from == to {
        return None;
    }
    let ghost s = b@.subrange(from as int, to as int);
    let mut acc: u64 = 0;
    let mut i: usize = from;
    while i < to
        invariant
            from <= i <= to <= b@.len(),
            s == b@.subrange(from as int, to as int),
            forall|j: int| from <= j < i ==> is_digit(#[trigger] b@[j]),
            acc == digits_value(b@.subrange(from as int, i as int)),
            acc <= bound,
        decreases to - i,
    {
        let c = b[i];
        if c < 48 || c > 57 {
            proof {
                assert(s[i - from] == c);
            }
            return None;
        }
        let d = (c - 48) as u64;
        proof {
            let p = b@.subrange(from as int, i as int + 1);
            assert(p.drop_last() =~= b@.subrange(from as int, i as int));
        }
        if d > bound || acc > (bound - d) / 10 {
            proof {
                let k = i - from + 1;
                assert(acc * 10 + d > bound) by (nonlinear_arith)
                    requires
                        d > bound || acc > (bound - d) / 10,
                        acc >= 0,
                        d >= 0,
                ;
                if all_digits(s) {
                    lemma_digits_value_grows(s, k);
                    assert(s.subrange(0, k) =~= b@.subrange(from as int, i as int + 1));
                }
            }
            return None;
        }
        assert(acc * 10 + d <= bound) by (nonlinear_arith)
            requires
                d <= bound,
                acc <= (bound - d) / 10,
                acc >= 0,
        ;
        acc = acc * 10 + d;
        i = i + 1;
    }
    proof {
        assert(b@.subrange(from as int, i as int) =~= s);
    }
    Some(acc)
}

/// Reads `b[from..to]` as a signed 64-bit integer.
pub fn parse_int_text(b: &[u8], from: usize, to: usize) -> (r: Option<i64>)
    requires
        from <= to <= b@.len(),
    ensures
        match r {
            Some(v) => int_text_value(b@.subrange(from as int, to as int)) == Some(v as int),
            None => int_text_value(b@.subrange(from as int, to as int)) is None,
        },
{
    let ghost s = b@.subrange(from as int, to as int);
    if from < to && (b[from] == 45u8 || b[from] == 43u8) {
        proof {
            assert(s.drop_first() =~= b@.subrange(from + 1, to as int));
        }
        if b[from] == 45u8 {
            match parse_digits(b, from + 1, to, 9223372036854775808u64) {
                Some(v) => {
                    if v == 9223372036854775808u64 {
                        Some(i64::MIN)
                    } else {
                        Some(-(v as i64))
                    }
                },
                None => None,
            }
        } else {
            match parse_digits(b, from + 1, to, 9223372036854775807u64) {
                Some(v) => Some(v as i64),
                None => None,
            }
        }
    } else {
        match parse_digits(b, from, to, 9223372036854775807u64) {
            Some(v) => Some(v as i64),
            None => None,
        }
    }
}

/// Appends the decimal text of `n`.
pub fn write_nat(out: &mut Vec<u8>, n: u64)
    ensures
        final(out)@ == old(out)@ + nat_text(n as nat),
    decreases n,
{
    if n >= 10 {
        write_nat(out, n / 10);
    }
    out.push((48 + n % 10) as u8);
    proof {
        if n >= 10 {
            assert(final(out)@ =~= old(out)@ + nat_text(n as nat));
        } else {
            assert(final(out)@ =~= old(out)@ + nat_text(n as nat));
        }
    }
}

/// Appends the decimal text of `i`, with a leading `-` when negative.
pub fn write_int(out: &mut Vec<u8>, i: i64)
    ensures
        final(out)@ == old(out)@ + int_text(i as int),
{
    if i < 0 {
        out.push(45u8);
        let m: u64 = if i == i64::MIN {
            9223372036854775808u64
        } else {
            (-i) as u64
        };
        write_nat(out, m);
        proof {
            assert(final(out)@ =~= old(out)@ + int_text(i as int));
        }
    } else {
        write_nat(out, i as u64);
    }
}

/// The characters of ASCII bytes.
pub open spec fn ascii_chars(s: Seq<u8>) -> Seq<char> {
    Seq::new(s.len(), |i: int| s[i] as char)
}

pub open spec fn ascii_only(s: Seq<u8>) -> bool {
    forall|i: int| 0 <= i < s.len() ==> s[i] < 128
}

/// Relies on `String::from_utf8`: ASCII bytes are valid UTF-8, and each
/// byte becomes the character with that code.
#[verifier::external_body]
pub(crate) fn ascii_string(b: Vec<u8>) -> (r: String)
    requires
        forall|i: int| 0 <= i < b@.len() ==> b@[i] < 128,
    ensures
        r@ == ascii_chars(b@),
{
    String::from_utf8(b).unwrap_or_default()
}

pub proof fn lemma_nat_text_ascii(n: nat)
    ensures
        ascii_only(nat_text(n)),
{
    crate::decimal::lemma_nat_text(n);
}

/// Decimal text of a natural number as a string.
pub fn decimal_string(n: u64) -> (r: String)
    ensures
        r@ == ascii_chars(nat_text(n as nat)),
{
    let mut out: Vec<u8> = Vec::new();
    write_nat(&mut out, n);
    proof {
        assert(out@ =~= nat_text(n as nat));
        lemma_nat_text_ascii(n as nat);
    }
    ascii_string(out)
}

} // verus!
