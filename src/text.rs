use vstd::prelude::*;

verus! {

/// Decimal digits of `n`, most significant first, without leading zeros.
pub open spec fn decimal(n: nat) -> Seq<u8>
    decreases n,
{
    if n < 10 {
        seq![(48 + n) as u8]
    } else {
        decimal(n / 10).push((48 + n % 10) as u8)
    }
}

/// Appends the decimal digits of `n` to `out`.
pub fn push_decimal(n: u64, out: &mut Vec<u8>)
    ensures
        final(out)@ == old(out)@ + decimal(n as nat),
    decreases n,
{
    if n >= 10 {
        push_decimal(n / 10, out);
    }
    out.push((48 + n % 10) as u8);
    proof {
        assert(final(out)@ =~= old(out)@ + decimal(n as nat));
    }
}

/// Appends `src` to `out`.
pub fn push_all(out: &mut Vec<u8>, src: &[u8])
    ensures
        final(out)@ == old(out)@ + src@,
{
    let mut i: usize = 0;
    while i < src.len()
        invariant
            i <= src@.len(),
            out@ == old(out)@ + src@.subrange(0, i as int),
        decreases src@.len() - i,
    {
        out.push(src[i]);
        i = i + 1;
        proof {
            assert(out@ =~= old(out)@ + src@.subrange(0, i as int));
        }
    }
    proof {
        assert(src@.subrange(0, i as int) =~= src@);
    }
}

/// Spaces, tabs and carriage returns separate tokens.
pub open spec fn is_space(b: u8) -> bool {
    b == 32 || b == 9 || b == 13
}

pub open spec fn is_digit(b: u8) -> bool {
    48 <= b <= 57
}

/// The value of a string of decimal digits.
pub open spec fn digits_value(s: Seq<u8>) -> nat
    decreases s.len(),
{
    if s.len() == 0 {
        0
    } else {
        digits_value(s.drop_last()) * 10 + (s.last() - 48) as nat
    }
}

pub open spec fn all_digits(s: Seq<u8>) -> bool {
    forall|i: int| 0 <= i < s.len() ==> is_digit(#[trigger] s[i])
}

/// The value of a decimal integer token: an optional sign, then digits.
pub open spec fn token_value(s: Seq<u8>) -> Option<int> {
    if s.len() > 0 && (s[0] == 45 || s[0] == 43) {
        let d = s.subrange(1, s.len() as int);
        if d.len() > 0 && all_digits(d) {
            Some(if s[0] == 45 { -(digits_value(d) as int) } else { digits_value(d) as int })
        } else {
            None
        }
    } else if s.len() > 0 && all_digits(s) {
        Some(digits_value(s) as int)
    } else {
        None
    }
}

/// Reads a string of decimal digits whose value is at most `max`.
pub fn parse_digits(s: &[u8], max: u64) -> (r: Option<u64>)
    ensures
        r matches Some(v) ==> s@.len() > 0 && all_digits(s@) && v == digits_value(s@) && v <= max,
        r is None ==> !(s@.len() > 0 && all_digits(s@) && digits_value(s@) <= max),
{
    if s.len() == 0 {
        return None;
    }
    let mut v: u64 = 0;
    let mut i: usize = 0;
    while i < s.len()
        invariant
            i <= s@.len(),
            all_digits(s@.subrange(0, i as int)),
            v == digits_value(s@.subrange(0, i as int)),
            v <= max,
        decreases s@.len() - i,
    {
        let ghost pre = s@.subrange(0, i as int);
        let ghost next = s@.subrange(0, i as int + 1);
        proof {
            assert(next.drop_last() =~= pre);
        }
        let b = s[i];
        if b < 48 || b > 57 {
            proof {
                lemma_digits_prefix_not_all(s@, i as int);
            }
            return None;
        }
        let d = (b - 48) as u64;
        if d > max || v > (max - d) / 10 {
            proof {
                assert(digits_value(next) == v * 10 + d);
                assert(v * 10 + d > max) by (nonlinear_arith) requires d > max || v > (max - d) / 10, v >= 0;
                lemma_digits_value_grows(s@, i as int + 1);
            }
            return None;
        }
        proof {
            assert(v * 10 + d <= max) by (nonlinear_arith) requires v <= (max - d) / 10, d <= max;
        }
        v = v * 10 + d;
        i = i + 1;
    }
    proof {
        assert(s@.subrange(0, i as int) =~= s@);
    }
    Some(v)
}

proof fn lemma_digits_prefix_not_all(s: Seq<u8>, i: int)
    requires
        0 <= i < s.len(),
        !is_digit(s[i]),
    ensures
        !all_digits(s),
{
}

/// The value of a digit string is at least that of any of its prefixes.
proof fn lemma_digits_value_grows(s: Seq<u8>, i: int)
    requires
        0 <= i <= s.len(),
    ensures
        all_digits(s) ==> digits_value(s.subrange(0, i)) <= digits_value(s),
    decreases s.len() - i,
{
    if i < s.len() && all_digits(s) {
        lemma_digits_value_grows(s, i + 1);
        let p = s.subrange(0, i + 1);
        assert(p.drop_last() =~= s.subrange(0, i));
        assert(is_digit(s[i]));
    } else if i == s.len() {
        assert(s.subrange(0, i) =~= s);
    }
}

/// Reads a decimal integer token, with an optional sign, whose value lies
/// in `-neg_max ..= pos_max`.
pub fn parse_integer(s: &[u8], neg_max: u64, pos_max: u64) -> (r: Option<i64>)
    requires
        neg_max <= 9223372036854775808,
        pos_max <= 9223372036854775807,
    ensures
        r matches Some(v) ==> token_value(s@) == Some(v as int) && -(neg_max as int) <= v <= pos_max,
        r is None ==> !(token_value(s@) matches Some(v) && -(neg_max as int) <= v <= pos_max),
{
    if s.len() > 0 && (s[0] == 45 || s[0] == 43) {
        let neg = s[0] == 45;
        let digits = &s[1..s.len()];
        proof {
            assert(digits@ =~= s@.subrange(1, s@.len() as int));
        }
        let bound = if neg { neg_max } else { pos_max };
        match parse_digits(digits, bound) {
            Some(d) => {
                if neg {
                    if d == 9223372036854775808 {
                        Some(-9223372036854775807i64 - 1)
                    } else {
                        Some(-(d as i64))
                    }
                } else {
                    Some(d as i64)
                }
            },
            None => None,
        }
    } else {
        match parse_digits(s, pos_max) {
            Some(d) => Some(d as i64),
            None => None,
        }
    }
}

/// Index of the first line feed at or after `start`, or the length.
pub fn line_end(bytes: &[u8], start: usize) -> (r: usize)
    requires
        start <= bytes@.len(),
    ensures
        start <= r <= bytes@.len(),
        r < bytes@.len() ==> bytes@[r as int] == 10,
        forall|i: int| start <= i < r ==> bytes@[i] != 10,
{
    let mut i = start;
    while i < bytes.len()
        invariant
            start <= i <= bytes@.len(),
            forall|q: int| start <= q < i ==> bytes@[q] != 10,
        decreases bytes@.len() - i,
    {
        if bytes[i] == 10 {
            return i;
        }
        i = i + 1;
    }
    i
}

/// A token: a non-empty run of bytes with no separator in it.
pub open spec fn is_token(t: Seq<u8>) -> bool {
    t.len() > 0 && forall|i: int| 0 <= i < t.len() ==> !is_space(#[trigger] t[i])
}

/// The tokens of `s` when the token `cur` has been read just before it.
pub open spec fn tokens_from(s: Seq<u8>, cur: Seq<u8>) -> Seq<Seq<u8>>
    decreases s.len(),
{
    let done: Seq<Seq<u8>> = if cur.len() > 0 { seq![cur] } else { seq![] };
    if s.len() == 0 {
        done
    } else if is_space(s[0]) {
        done + tokens_from(s.drop_first(), seq![])
    } else {
        tokens_from(s.drop_first(), cur.push(s[0]))
    }
}

/// The whitespace-separated tokens of `s`, in order.
pub open spec fn tokens_of(s: Seq<u8>) -> Seq<Seq<u8>> {
    tokens_from(s, seq![])
}

/// Splits `bytes[start .. end]` into its whitespace-separated tokens, in order.
pub fn split_tokens(bytes: &[u8], start: usize, end: usize) -> (r: Vec<Vec<u8>>)
    requires
        start <= end <= bytes@.len(),
    ensures
        r@.map_values(|t: Vec<u8>| t@) == tokens_of(bytes@.subrange(start as int, end as int)),
        forall|k: int| 0 <= k < r@.len() ==> is_token(#[trigger] r@[k]@),
{
    let ghost whole = bytes@.subrange(start as int, end as int);
    let mut out: Vec<Vec<u8>> = Vec::new();
    let mut tok: Vec<u8> = Vec::new();
    let mut i = start;
    proof {
        assert(bytes@.subrange(i as int, end as int) =~= whole);
        assert(out@.map_values(|t: Vec<u8>| t@) =~= Seq::<Seq<u8>>::empty());
        assert(tokens_of(whole) =~= Seq::<Seq<u8>>::empty() + tokens_from(whole, tok@));
    }
    while i < end
        invariant
            start <= i <= end <= bytes@.len(),
            tokens_of(whole) == out@.map_values(|t: Vec<u8>| t@) + tokens_from(bytes@.subrange(i as int, end as int), tok@),
            forall|k: int| 0 <= k < out@.len() ==> is_token(#[trigger] out@[k]@),
            forall|q: int| 0 <= q < tok@.len() ==> !is_space(#[trigger] tok@[q]),
        decreases end - i,
    {
        let ghost rest = bytes@.subrange(i as int, end as int);
        let ghost ov = out@.map_values(|t: Vec<u8>| t@);
        proof {
            assert(rest.drop_first() =~= bytes@.subrange(i as int + 1, end as int));
        }
        let b = bytes[i];
        if b == 32 || b == 9 || b == 13 {
            if tok.len() > 0 {
                let t = tok;
                tok = Vec::new();
                out.push(t);
                proof {
                    assert(out@.map_values(|t: Vec<u8>| t@) =~= ov.push(t@));
                    assert(ov.push(t@) =~= ov + seq![t@]);
                    assert(tok@ =~= Seq::<u8>::empty());
                }
            } else {
                proof {
                    assert(out@.map_values(|t: Vec<u8>| t@) =~= ov);
                    assert(tok@ =~= Seq::<u8>::empty());
                }
            }
        } else {
            tok.push(b);
        }
        i = i + 1;
    }
    proof {
        assert(bytes@.subrange(i as int, end as int) =~= Seq::<u8>::empty());
    }
    if tok.len() > 0 {
        let ghost ov = out@.map_values(|t: Vec<u8>| t@);
        out.push(tok);
        proof {
            assert(out@.map_values(|t: Vec<u8>| t@) =~= ov + seq![out@[out@.len() - 1]@]);
        }
    } else {
        proof {
            assert(tokens_of(whole) =~= out@.map_values(|t: Vec<u8>| t@));
        }
    }
    out
}

/// Byte-wise equality of two strings.
pub fn bytes_eq(a: &[u8], b: &[u8]) -> (r: bool)
    ensures
        r == (a@ == b@),
{
    if a.len() != b.len() {
        return false;
    }
    let mut i: usize = 0;
    while i < a.len()
        invariant
            i <= a@.len(),
            a@.len() == b@.len(),
            forall|q: int| 0 <= q < i ==> a@[q] == b@[q],
        decreases a@.len() - i,
    {
        if a[i] != b[i] {
            return false;
        }
        i = i + 1;
    }
    proof {
        assert(a@ =~= b@);
    }
    true
}

} // verus!
