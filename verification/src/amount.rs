use vstd::prelude::*;

verus! {

/// A fixed-point unsigned decimal amount with exactly four fractional
/// digits, stored as a count of ten-thousandths. Every `u64` count is a
/// valid amount; the largest representable value is `u64::MAX / 10000`
/// whole units, that is 1,844,674,407,370,955.1615.
#[derive(Debug, Clone, Copy, PartialEq, Eq, Structural)]
pub struct Amount(pub u64);

/// The ways a textual amount can be rejected.
#[derive(Debug, Clone, Copy, PartialEq, Eq, Structural)]
pub enum AmountParseError {
    /// The text does not match `digits ['.' one-to-four-digits]`.
    InvalidFormat,
    /// The text is well formed but its value exceeds the representable range.
    TooLarge,
}

impl Amount {
    /// Exact sum, or `None` if the sum exceeds the representable range.
    pub fn checked_add(self, other: Amount) -> (r: Option<Amount>)
        ensures
            self.0 + other.0 <= u64::MAX ==> r == Some(Amount((self.0 + other.0) as u64)),
            self.0 + other.0 > u64::MAX ==> r.is_none(),
    {
        match self.0.checked_add(other.0) {
            Some(v) => Some(Amount(v)),
            None => None,
        }
    }

    /// Exact difference, or `None` if `other` is larger than `self`.
    pub fn checked_sub(self, other: Amount) -> (r: Option<Amount>)
        ensures
            other.0 <= self.0 ==> r == Some(Amount((self.0 - other.0) as u64)),
            other.0 > self.0 ==> r.is_none(),
    {
        match self.0.checked_sub(other.0) {
            Some(v) => Some(Amount(v)),
            None => None,
        }
    }
}

/// Whether a character is a decimal digit.
pub open spec fn is_digit_char(c: char) -> bool {
    c == '0' || c == '1' || c == '2' || c == '3' || c == '4' || c == '5' || c == '6' || c == '7'
        || c == '8' || c == '9'
}

/// The value of a digit character; meaningful only on digits.
pub open spec fn digit_val(c: char) -> nat {
    if c == '0' {
        0
    } else if c == '1' {
        1
    } else if c == '2' {
        2
    } else if c == '3' {
        3
    } else if c == '4' {
        4
    } else if c == '5' {
        5
    } else if c == '6' {
        6
    } else if c == '7' {
        7
    } else if c == '8' {
        8
    } else {
        9
    }
}

/// The character for a digit value; meaningful only below ten.
pub open spec fn digit_char(d: nat) -> char {
    if d == 0 {
        '0'
    } else if d == 1 {
        '1'
    } else if d == 2 {
        '2'
    } else if d == 3 {
        '3'
    } else if d == 4 {
        '4'
    } else if d == 5 {
        '5'
    } else if d == 6 {
        '6'
    } else if d == 7 {
        '7'
    } else if d == 8 {
        '8'
    } else {
        '9'
    }
}

/// Whether every character of the sequence is a decimal digit.
pub open spec fn all_digits(s: Seq<char>) -> bool {
    forall|i: int| 0 <= i < s.len() ==> is_digit_char(s[i])
}

/// The number a digit sequence denotes, most significant digit first.
pub open spec fn digits_val(s: Seq<char>) -> nat
    decreases s.len(),
{
    if s.len() == 0 {
        0
    } else {
        digits_val(s.drop_last()) * 10 + digit_val(s.last())
    }
}

/// How many ten-thousandths one unit of the last digit of a fractional part
/// of the given length is worth: shorter fractions are padded with zeroes on
/// the right.
pub open spec fn frac_scale(len: int) -> nat {
    if len <= 1 {
        1000
    } else if len == 2 {
        100
    } else if len == 3 {
        10
    } else {
        1
    }
}

/// The shape a textual amount must have: one or more digits, optionally
/// followed by a separator and one to four digits.
pub open spec fn valid_amount_chars(s: Seq<char>) -> bool {
    (s.len() >= 1 && all_digits(s)) || (exists|p: int| #![auto]
        1 <= p && p + 2 <= s.len() && s.len() <= p + 5 && s[p] == '.' && all_digits(s.take(p))
            && all_digits(s.skip(p + 1)))
}

/// The position of the separator; meaningful only on valid text that has one.
pub open spec fn sep_index(s: Seq<char>) -> int {
    choose|p: int| #![auto]
        1 <= p && p + 2 <= s.len() && s.len() <= p + 5 && s[p] == '.' && all_digits(s.take(p))
            && all_digits(s.skip(p + 1))
}

/// The value in ten-thousandths that a valid textual amount denotes.
pub open spec fn amount_chars_value(s: Seq<char>) -> nat {
    if all_digits(s) {
        digits_val(s) * 10000
    } else {
        let p = sep_index(s);
        digits_val(s.take(p)) * 10000 + digits_val(s.skip(p + 1)) * frac_scale(s.len() - p - 1)
    }
}

/// The canonical text of a number: its decimal digits, no leading zero
/// except on the number zero itself.
pub open spec fn dec_chars(n: nat) -> Seq<char>
    decreases n,
{
    if n < 10 {
        seq![digit_char(n)]
    } else {
        dec_chars(n / 10) + seq![digit_char(n % 10)]
    }
}

/// The four digits of a fractional part, most significant first; meaningful
/// only below ten thousand.
pub open spec fn frac4_chars(f: nat) -> Seq<char> {
    seq![
        digit_char(f / 1000),
        digit_char((f / 100) % 10),
        digit_char((f / 10) % 10),
        digit_char(f % 10),
    ]
}

/// The canonical text of an amount of `v` ten-thousandths: the whole units
/// without leading zeroes, a separator, and exactly four fractional digits.
pub open spec fn amount_chars(v: nat) -> Seq<char> {
    dec_chars(v / 10000) + seq!['.'] + frac4_chars(v % 10000)
}

proof fn lemma_digits_val_step(s: Seq<char>, i: int)
    requires
        0 <= i < s.len(),
    ensures
        digits_val(s.take(i + 1)) == digits_val(s.take(i)) * 10 + digit_val(s[i]),
{
    assert(s.take(i + 1).drop_last() =~= s.take(i));
    assert(s.take(i + 1).last() == s[i]);
}

proof fn lemma_digits_val_bounds(s: Seq<char>)
    ensures
        s.len() == 0 ==> digits_val(s) == 0,
        s.len() <= 1 ==> digits_val(s) < 10,
        s.len() <= 2 ==> digits_val(s) < 100,
        s.len() <= 3 ==> digits_val(s) < 1000,
        s.len() <= 4 ==> digits_val(s) < 10000,
    decreases s.len(),
{
    if s.len() > 0 {
        lemma_digits_val_bounds(s.drop_last());
    }
}

proof fn lemma_sep_unique(s: Seq<char>, p: int)
    requires
        1 <= p,
        p < s.len(),
        s[p] == '.',
        all_digits(s.take(p)),
        all_digits(s.skip(p + 1)),
    ensures
        forall|q: int| #![auto]
            1 <= q && q + 2 <= s.len() && s.len() <= q + 5 && s[q] == '.' && all_digits(s.take(q))
                && all_digits(s.skip(q + 1)) ==> q == p,
        !all_digits(s),
{
    assert(!is_digit_char(s[p]));
    assert forall|q: int| #![auto]
        1 <= q && q + 2 <= s.len() && s.len() <= q + 5 && s[q] == '.' && all_digits(s.take(q))
            && all_digits(s.skip(q + 1)) implies q == p by {
        if q < p {
            assert(s.skip(q + 1)[p - q - 1] == s[p]);
        } else if q > p {
            assert(s.take(q)[p] == s[p]);
        }
    }
}

proof fn lemma_digits_val_positive(s: Seq<char>)
    requires
        s.len() >= 1,
        all_digits(s),
        s[0] != '0',
    ensures
        digits_val(s) >= 1,
    decreases s.len(),
{
    if s.len() > 1 {
        assert(s.drop_last()[0] == s[0]);
        lemma_digits_val_positive(s.drop_last());
    }
}

proof fn lemma_dec_chars_of_digits(s: Seq<char>)
    requires
        s.len() >= 1,
        all_digits(s),
        s[0] != '0' || s.len() == 1,
    ensures
        dec_chars(digits_val(s)) == s,
    decreases s.len(),
{
    if s.len() == 1 {
        assert(s.drop_last() =~= Seq::<char>::empty());
        assert(digits_val(s.drop_last()) == 0);
        assert(s.last() == s[0]);
        assert(digits_val(s) == digit_val(s[0]));
        assert(digit_char(digit_val(s[0])) == s[0]);
        assert(dec_chars(digits_val(s)) =~= s);
    } else {
        let d = s.drop_last();
        assert(d[0] == s[0]);
        lemma_digits_val_positive(d);
        lemma_dec_chars_of_digits(d);
        let q = digits_val(d);
        let r = digit_val(s.last());
        let n = digits_val(s);
        assert(n == q * 10 + r);
        assert(n / 10 == q && n % 10 == r) by (nonlinear_arith)
            requires
                n == q * 10 + r,
                q >= 1,
                0 <= r < 10,
        ;
        assert(n >= 10) by (nonlinear_arith)
            requires
                n == q * 10 + r,
                q >= 1,
                r >= 0,
        ;
        assert(dec_chars(n) == dec_chars(q) + seq![digit_char(r)]);
        assert(dec_chars(n) =~= s);
    }
}

proof fn lemma_frac4_of_digits(s: Seq<char>)
    requires
        s.len() == 4,
        all_digits(s),
    ensures
        frac4_chars(digits_val(s)) == s,
{
    let v0 = digit_val(s[0]);
    let v1 = digit_val(s[1]);
    let v2 = digit_val(s[2]);
    let v3 = digit_val(s[3]);
    assert(s.take(4) =~= s);
    lemma_digits_val_step(s, 3);
    lemma_digits_val_step(s, 2);
    lemma_digits_val_step(s, 1);
    lemma_digits_val_step(s, 0);
    assert(s.take(0) =~= Seq::<char>::empty());
    let f = digits_val(s);
    assert(f == ((v0 * 10 + v1) * 10 + v2) * 10 + v3);
    assert(f == v0 * 1000 + v1 * 100 + v2 * 10 + v3);
    assert(f / 1000 == v0 && (f / 100) % 10 == v1 && (f / 10) % 10 == v2 && f % 10 == v3)
        by (nonlinear_arith)
        requires
            f == v0 * 1000 + v1 * 100 + v2 * 10 + v3,
            0 <= v0 < 10,
            0 <= v1 < 10,
            0 <= v2 < 10,
            0 <= v3 < 10,
    ;
    assert(frac4_chars(f) =~= s);
}

proof fn lemma_digits_val_leading_zero(s: Seq<char>)
    ensures
        digits_val(seq!['0'] + s) == digits_val(s),
    decreases s.len(),
{
    let t = seq!['0'] + s;
    if s.len() == 0 {
        assert(t =~= seq!['0']);
        assert(t.drop_last() =~= Seq::<char>::empty());
        assert(t.last() == '0');
        assert(digits_val(Seq::<char>::empty()) == 0);
        assert(digits_val(t) == digits_val(t.drop_last()) * 10 + digit_val(t.last()));
    } else {
        assert(t.drop_last() =~= seq!['0'] + s.drop_last());
        assert(t.last() == s.last());
        assert(digits_val(t) == digits_val(t.drop_last()) * 10 + digit_val(t.last()));
        lemma_digits_val_leading_zero(s.drop_last());
    }
}

/// Normalization of leading zeroes: a zero prepended to valid amount text
/// leaves the text valid and its value unchanged.
pub proof fn lemma_leading_zero_value(s: Seq<char>)
    requires
        valid_amount_chars(s),
    ensures
        valid_amount_chars(seq!['0'] + s),
        amount_chars_value(seq!['0'] + s) == amount_chars_value(s),
{
    let t = seq!['0'] + s;
    if all_digits(s) {
        assert forall|i: int| 0 <= i < t.len() implies is_digit_char(t[i]) by {
            if i > 0 {
                assert(t[i] == s[i - 1]);
            }
        }
        lemma_digits_val_leading_zero(s);
    } else {
        let p = choose|p: int| #![auto]
            1 <= p && p + 2 <= s.len() && s.len() <= p + 5 && s[p] == '.' && all_digits(s.take(p))
                && all_digits(s.skip(p + 1));
        assert(1 <= p && p + 2 <= s.len() && s.len() <= p + 5 && s[p] == '.' && all_digits(
            s.take(p),
        ) && all_digits(s.skip(p + 1)));
        lemma_sep_unique(s, p);
        assert(sep_index(s) == p);
        assert(t.take(p + 1) =~= seq!['0'] + s.take(p));
        assert(t.skip(p + 2) =~= s.skip(p + 1));
        assert(t[p + 1] == s[p]);
        assert forall|i: int| 0 <= i < p + 1 implies is_digit_char(#[trigger] t.take(p + 1)[i]) by {
            if i > 0 {
                assert(t.take(p + 1)[i] == s.take(p)[i - 1]);
            }
        }
        assert(valid_amount_chars(t));
        lemma_sep_unique(t, p + 1);
        assert(sep_index(t) == p + 1);
        lemma_digits_val_leading_zero(s.take(p));
        assert(t.len() - (p + 1) - 1 == s.len() - p - 1);
    }
}

/// Parsing and formatting round-trip: a valid text with exactly four
/// fractional digits and no leading zero on its integer part, whose value
/// is representable, is returned verbatim by `format` after `parse`.
pub proof fn lemma_format_parse_round_trip(s: Seq<char>)
    requires
        valid_amount_chars(s),
        !all_digits(s),
        s.len() == sep_index(s) + 5,
        s[0] != '0' || sep_index(s) == 1,
        amount_chars_value(s) <= u64::MAX,
    ensures
        amount_chars(amount_chars_value(s)) == s,
{
    let p = sep_index(s);
    assert(1 <= p && p + 2 <= s.len() && s.len() <= p + 5 && s[p] == '.' && all_digits(s.take(p))
        && all_digits(s.skip(p + 1)));
    let whole = s.take(p);
    let frac = s.skip(p + 1);
    assert(frac.len() == 4);
    let a = digits_val(whole);
    let b = digits_val(frac);
    lemma_digits_val_bounds(frac);
    assert(frac_scale(4) == 1);
    let v = amount_chars_value(s);
    assert(v == a * 10000 + b);
    assert(v / 10000 == a && v % 10000 == b) by (nonlinear_arith)
        requires
            v == a * 10000 + b,
            a >= 0,
            0 <= b < 10000,
    ;
    assert(whole[0] == s[0]);
    lemma_dec_chars_of_digits(whole);
    lemma_frac4_of_digits(frac);
    assert(amount_chars(v) =~= s);
}

impl Amount {
    /// Parse a textual amount: one or more digits, optionally followed by a
    /// separator and one to four fractional digits. Leading zeroes are
    /// accepted and dropped; anything else is `InvalidFormat`; a well formed
    /// text whose value exceeds the representable range is `TooLarge`.
    #[verifier::rlimit(50)]
    pub fn parse(s: &str) -> (r: Result<Amount, AmountParseError>)
        ensures
            !valid_amount_chars(s@) ==> r == Err::<Amount, _>(AmountParseError::InvalidFormat),
            valid_amount_chars(s@) && amount_chars_value(s@) > u64::MAX ==> r == Err::<
                Amount,
                _,
            >(AmountParseError::TooLarge),
            valid_amount_chars(s@) && amount_chars_value(s@) <= u64::MAX ==> r == Ok::<
                _,
                AmountParseError,
            >(Amount(amount_chars_value(s@) as u64)),
    {
        let n = s.unicode_len();
        let mut sep: Option<usize> = None;
        let mut i: usize = 0;
        while i < n
            invariant
                n == s@.len(),
                i <= n,
                match sep {
                    None => forall|j: int| 0 <= j < i ==> is_digit_char(s@[j]),
                    Some(p) => p < i && s@[p as int] == '.' && (forall|j: int|
                        0 <= j < i && j != p ==> is_digit_char(s@[j])),
                },
            decreases n - i,
        {
            let c = s.get_char(i);
            if c == '.' {
                if sep.is_some() {
                    proof {
                        let p0 = sep.unwrap() as int;
                        assert forall|q: int| #![auto]
                            !(1 <= q && q + 2 <= s@.len() && s@.len() <= q + 5 && s@[q] == '.'
                                && all_digits(s@.take(q)) && all_digits(s@.skip(q + 1))) by {
                            if 1 <= q && q + 2 <= s@.len() && s@[q] == '.' {
                                if q < p0 {
                                    assert(!is_digit_char(s@.skip(q + 1)[p0 - q - 1]));
                                } else if q > p0 {
                                    assert(!is_digit_char(s@.take(q)[p0]));
                                } else {
                                    assert(!is_digit_char(s@.skip(q + 1)[i - q - 1]));
                                }
                            }
                        }
                        assert(!is_digit_char(s@[sep.unwrap() as int]));
                        assert(!all_digits(s@));
                    }
                    return Err(AmountParseError::InvalidFormat);
                }
                sep = Some(i);
            } else {
                let d = match c {
                    '0' => 0u64,
                    '1' => 1u64,
                    '2' => 2u64,
                    '3' => 3u64,
                    '4' => 4u64,
                    '5' => 5u64,
                    '6' => 6u64,
                    '7' => 7u64,
                    '8' => 8u64,
                    '9' => 9u64,
                    _ => {
                        proof {
                            assert(!is_digit_char(s@[i as int]));
                            assert forall|q: int| #![auto]
                                !(1 <= q && q + 2 <= s@.len() && s@.len() <= q + 5 && s@[q] == '.'
                                    && all_digits(s@.take(q)) && all_digits(s@.skip(q + 1))) by {
                                if 1 <= q && q + 2 <= s@.len() && s@[q] == '.' {
                                    if (i as int) < q {
                                        assert(!is_digit_char(s@.take(q)[i as int]));
                                    } else if (i as int) > q {
                                        assert(!is_digit_char(s@.skip(q + 1)[i - q - 1]));
                                    }
                                }
                            }
                            assert(!all_digits(s@));
                        }
                        return Err(AmountParseError::InvalidFormat);
                    },
                };
                proof {
                    assert(is_digit_char(s@[i as int]) && digit_val(s@[i as int]) == d);
                }
            }
            i = i + 1;
        }
        let int_end: usize = match sep {
            None => n,
            Some(p) => p,
        };
        // Check the shape: a non-empty run of digits, and if there is a
        // separator, one to four digits after it.
        let shape_ok: bool = match sep {
            None => n >= 1,
            Some(p) => p >= 1 && n - p >= 2 && n - p <= 5,
        };
        if !shape_ok {
            proof {
                match sep {
                    None => {
                        assert(s@.len() == 0);
                        assert(!valid_amount_chars(s@));
                    },
                    Some(p) => {
                        assert(!is_digit_char(s@[p as int]));
                        assert forall|q: int| #![auto]
                            !(1 <= q && q + 2 <= s@.len() && s@.len() <= q + 5 && s@[q] == '.'
                                && all_digits(s@.take(q)) && all_digits(s@.skip(q + 1))) by {
                            if 1 <= q && q + 2 <= s@.len() && s@[q] == '.' && q != p {
                                assert(is_digit_char(s@[q]));
                            }
                        }
                        assert(!all_digits(s@));
                        assert(!valid_amount_chars(s@));
                    },
                }
            }
            return Err(AmountParseError::InvalidFormat);
        }
        proof {
            match sep {
                None => {
                    assert(valid_amount_chars(s@));
                },
                Some(p) => {
                    assert(s@.take(p as int) =~= s@.take(p as int));
                    assert(forall|j: int|
                        0 <= j < p ==> is_digit_char(#[trigger] s@.take(p as int)[j]));
                    assert(forall|j: int|
                        0 <= j < s@.len() - p - 1 ==> is_digit_char(#[trigger] s@.skip(
                            p + 1,
                        )[j]));
                    lemma_sep_unique(s@, p as int);
                    assert(valid_amount_chars(s@));
                    assert(sep_index(s@) == p as int);
                },
            }
        }
        // The shape is valid; now compute the value with checked arithmetic.
        let ghost int_part = s@.take(int_end as int);
        let mut whole: u64 = 0;
        let mut too_large = false;
        let mut j: usize = 0;
        while j < int_end
            invariant
                n == s@.len(),
                int_end <= n,
                j <= int_end,
                forall|k: int| 0 <= k < int_end ==> is_digit_char(s@[k]),
                int_part == s@.take(int_end as int),
                !too_large ==> whole == digits_val(s@.take(j as int)),
                too_large ==> digits_val(s@.take(j as int)) > u64::MAX,
            decreases int_end - j,
        {
            let c = s.get_char(j);
            let d = digit_of(c);
            proof {
                lemma_digits_val_step(s@, j as int);
            }
            if !too_large {
                match whole.checked_mul(10) {
                    Some(w) => {
                        match w.checked_add(d) {
                            Some(w2) => {
                                whole = w2;
                            },
                            None => {
                                too_large = true;
                            },
                        }
                    },
                    None => {
                        too_large = true;
                    },
                }
            }
            j = j + 1;
        }
        let mut frac: u64 = 0;
        let ghost frac_part = if int_end < n {
            s@.skip(int_end + 1)
        } else {
            Seq::<char>::empty()
        };
        if int_end < n {
            let mut k: usize = int_end + 1;
            while k < n
                invariant
                    n == s@.len(),
                    int_end + 1 <= k <= n,
                    n - int_end <= 5,
                    forall|t: int| int_end < t < n ==> is_digit_char(s@[t]),
                    frac_part == s@.skip(int_end + 1),
                    frac == digits_val(s@.subrange(int_end + 1, k as int)),
                    frac < 10000,
                decreases n - k,
            {
                let c = s.get_char(k);
                let d = digit_of(c);
                proof {
                    let sub = s@.subrange(int_end + 1, k + 1);
                    assert(sub.drop_last() =~= s@.subrange(int_end + 1, k as int));
                    assert(sub.last() == s@[k as int]);
                    lemma_digits_val_bounds(s@.subrange(int_end + 1, k as int));
                }
                frac = frac * 10 + d;
                k = k + 1;
            }
            proof {
                assert(s@.subrange(int_end + 1, n as int) =~= frac_part);
            }
        }
        let scale: u64 = if int_end < n {
            let frac_len = n - int_end - 1;
            if frac_len == 1 {
                1000
            } else if frac_len == 2 {
                100
            } else if frac_len == 3 {
                10
            } else {
                1
            }
        } else {
            1
        };
        proof {
            lemma_digits_val_bounds(frac_part);
            if int_end < n {
                let frac_len = n - int_end - 1;
                assert(frac_part.len() == frac_len);
                if frac_len == 1 {
                    assert(frac < 10 && scale == 1000 && frac_scale(frac_len as int) == 1000);
                } else if frac_len == 2 {
                    assert(frac < 100 && scale == 100 && frac_scale(frac_len as int) == 100);
                } else if frac_len == 3 {
                    assert(frac < 1000 && scale == 10 && frac_scale(frac_len as int) == 10);
                } else {
                    assert(frac_len == 4);
                    assert(frac < 10000 && scale == 1 && frac_scale(frac_len as int) == 1);
                }
                assert(frac * scale == digits_val(frac_part) * frac_scale(
                    s@.len() - int_end - 1,
                ));
                assert(frac * scale < 10000);
            } else {
                assert(frac == 0 && scale == 1);
            }
        }
        let scaled: u64 = frac * scale;
        proof {
            assert(int_part == s@.take(sep_index(s@)) || (sep matches None && int_part == s@));
        }
        if too_large {
            proof {
                assert(digits_val(int_part) > u64::MAX);
                assert(digits_val(int_part) * 10000 >= digits_val(int_part) * 1) by (nonlinear_arith)
                    requires
                        digits_val(int_part) >= 0,
                ;
                assert(amount_chars_value(s@) > u64::MAX);
            }
            return Err(AmountParseError::TooLarge);
        }
        let value = match whole.checked_mul(10000) {
            Some(v) => v,
            None => {
                proof {
                    assert(digits_val(int_part) * 10000 > u64::MAX);
                    assert(amount_chars_value(s@) > u64::MAX);
                }
                return Err(AmountParseError::TooLarge);
            },
        };
        let value = match value.checked_add(scaled) {
            Some(v) => v,
            None => {
                proof {
                    assert(amount_chars_value(s@) > u64::MAX);
                }
                return Err(AmountParseError::TooLarge);
            },
        };
        proof {
            assert(value == amount_chars_value(s@));
        }
        Ok(Amount(value))
    }
}

impl Amount {
    /// Render the amount: the whole units without leading zeroes, a
    /// separator, and exactly four fractional digits, zero-padded.
    pub fn format(&self) -> (r: String)
        ensures
            r@ == amount_chars(self.0 as nat),
    {
        let whole = self.0 / 10000;
        let f = self.0 % 10000;
        let mut s = dec_string(whole);
        proof {
            reveal_strlit(".");
            assert("."@ =~= seq!['.']);
        }
        s.append(".");
        push_digit(&mut s, f / 1000);
        push_digit(&mut s, (f / 100) % 10);
        push_digit(&mut s, (f / 10) % 10);
        push_digit(&mut s, f % 10);
        proof {
            assert(s@ =~= amount_chars(self.0 as nat));
        }
        s
    }
}

/// Append one digit character to a string.
fn push_digit(s: &mut String, d: u64)
    requires
        d < 10,
    ensures
        final(s)@ == old(s)@ + seq![digit_char(d as nat)],
{
    match d {
        0 => {
            proof {
                reveal_strlit("0");
                assert("0"@ =~= seq![digit_char(0)]);
            }
            s.append("0");
        },
        1 => {
            proof {
                reveal_strlit("1");
                assert("1"@ =~= seq![digit_char(1)]);
            }
            s.append("1");
        },
        2 => {
            proof {
                reveal_strlit("2");
                assert("2"@ =~= seq![digit_char(2)]);
            }
            s.append("2");
        },
        3 => {
            proof {
                reveal_strlit("3");
                assert("3"@ =~= seq![digit_char(3)]);
            }
            s.append("3");
        },
        4 => {
            proof {
                reveal_strlit("4");
                assert("4"@ =~= seq![digit_char(4)]);
            }
            s.append("4");
        },
        5 => {
            proof {
                reveal_strlit("5");
                assert("5"@ =~= seq![digit_char(5)]);
            }
            s.append("5");
        },
        6 => {
            proof {
                reveal_strlit("6");
                assert("6"@ =~= seq![digit_char(6)]);
            }
            s.append("6");
        },
        7 => {
            proof {
                reveal_strlit("7");
                assert("7"@ =~= seq![digit_char(7)]);
            }
            s.append("7");
        },
        8 => {
            proof {
                reveal_strlit("8");
                assert("8"@ =~= seq![digit_char(8)]);
            }
            s.append("8");
        },
        _ => {
            proof {
                reveal_strlit("9");
                assert("9"@ =~= seq![digit_char(9)]);
            }
            s.append("9");
        },
    }
}

/// The decimal text of a number, most significant digit first, without
/// leading zeroes.
pub fn dec_string(n: u64) -> (s: String)
    ensures
        s@ == dec_chars(n as nat),
    decreases n,
{
    if n < 10 {
        let mut s = String::new();
        push_digit(&mut s, n);
        proof {
            assert(Seq::<char>::empty() + seq![digit_char(n as nat)] =~= seq![
                digit_char(n as nat),
            ]);
        }
        s
    } else {
        let mut s = dec_string(n / 10);
        push_digit(&mut s, n % 10);
        s
    }
}

/// The value of one digit character as a machine integer.
fn digit_of(c: char) -> (d: u64)
    requires
        is_digit_char(c),
    ensures
        d == digit_val(c),
        d <= 9,
{
    match c {
        '0' => 0,
        '1' => 1,
        '2' => 2,
        '3' => 3,
        '4' => 4,
        '5' => 5,
        '6' => 6,
        '7' => 7,
        '8' => 8,
        _ => 9,
    }
}

impl Default for Amount {
    /// The zero amount.
    fn default() -> (r: Self)
        ensures
            r.0 == 0,
    {
        Amount(0)
    }
}

} // verus!
