//! Exact decimal numbers, as written in the literal language.
use vstd::prelude::*;
use crate::text::{push_char, chars_of};

verus! {

pub open spec fn is_digit(c: char) -> bool {
    '0' <= c && c <= '9'
}

pub open spec fn all_digits(d: Seq<char>) -> bool {
    forall|i: int| 0 <= i < d.len() ==> is_digit(#[trigger] d[i])
}

/// `d` without its leading zeros.
pub open spec fn strip_leading_zeros(d: Seq<char>) -> Seq<char>
    decreases d.len(),
{
    if d.len() > 0 && d[0] == '0' {
        strip_leading_zeros(d.drop_first())
    } else {
        d
    }
}

/// `d` without its trailing zeros.
pub open spec fn strip_trailing_zeros(d: Seq<char>) -> Seq<char>
    decreases d.len(),
{
    if d.len() > 0 && d.last() == '0' {
        strip_trailing_zeros(d.drop_last())
    } else {
        d
    }
}

/// The mathematical content of a number: a sign, the digits before the point
/// without leading zeros, and the digits after it without trailing zeros.
/// Zero is never negative, so two numbers are equal exactly when their
/// models are.
pub struct Decimal {
    pub negative: bool,
    pub whole: Seq<char>,
    pub frac: Seq<char>,
}

/// The number written with the sign `negative`, the digits `whole` before the
/// point and the digits `frac` after it.
pub open spec fn decimal_of(negative: bool, whole: Seq<char>, frac: Seq<char>) -> Decimal {
    let w = strip_leading_zeros(whole);
    let f = strip_trailing_zeros(frac);
    Decimal { negative: negative && (w.len() > 0 || f.len() > 0), whole: w, frac: f }
}

/// The canonical text of a number: `-` if negative, the whole digits (`0` if
/// there are none), then `.` and the fraction digits if there are any.
pub open spec fn decimal_text(d: Decimal) -> Seq<char> {
    (if d.negative { seq!['-'] } else { Seq::empty() })
        + (if d.whole.len() == 0 { seq!['0'] } else { d.whole })
        + (if d.frac.len() == 0 { Seq::empty() } else { seq!['.'] + d.frac })
}

/// A decimal in canonical form: digits only, no leading zero before the
/// point, no trailing zero after it, and zero not negative.
pub open spec fn is_canonical(d: Decimal) -> bool {
    &&& all_digits(d.whole)
    &&& all_digits(d.frac)
    &&& d.whole.len() == 0 || d.whole[0] != '0'
    &&& d.frac.len() == 0 || d.frac.last() != '0'
    &&& d.negative ==> d.whole.len() > 0 || d.frac.len() > 0
}

proof fn lemma_strip_leading_canonical(d: Seq<char>)
    requires
        all_digits(d),
    ensures
        all_digits(strip_leading_zeros(d)),
        strip_leading_zeros(d).len() == 0 || strip_leading_zeros(d)[0] != '0',
    decreases d.len(),
{
    if d.len() > 0 && d[0] == '0' {
        let e = d.drop_first();
        assert forall|i: int| 0 <= i < e.len() implies is_digit(#[trigger] e[i]) by {
            assert(e[i] == d[i + 1]);
        }
        lemma_strip_leading_canonical(e);
    }
}

proof fn lemma_strip_trailing_canonical(d: Seq<char>)
    requires
        all_digits(d),
    ensures
        all_digits(strip_trailing_zeros(d)),
        strip_trailing_zeros(d).len() == 0 || strip_trailing_zeros(d).last() != '0',
    decreases d.len(),
{
    if d.len() > 0 && d.last() == '0' {
        let e = d.drop_last();
        assert forall|i: int| 0 <= i < e.len() implies is_digit(#[trigger] e[i]) by {
            assert(e[i] == d[i]);
        }
        lemma_strip_trailing_canonical(e);
    }
}

/// A decimal number kept exactly, in canonical form.
#[derive(Debug, PartialEq)]
pub struct Number {
    negative: bool,
    whole: Vec<char>,
    frac: Vec<char>,
}

proof fn lemma_strip_leading_step(d: Seq<char>, i: int)
    requires
        0 <= i < d.len(),
        d[i] == '0',
    ensures
        strip_leading_zeros(d.subrange(i, d.len() as int)) == strip_leading_zeros(
            d.subrange(i + 1, d.len() as int),
        ),
{
    assert(d.subrange(i, d.len() as int).drop_first() =~= d.subrange(i + 1, d.len() as int));
}

proof fn lemma_strip_trailing_step(d: Seq<char>, j: int)
    requires
        0 < j <= d.len(),
        d[j - 1] == '0',
    ensures
        strip_trailing_zeros(d.subrange(0, j)) == strip_trailing_zeros(d.subrange(0, j - 1)),
{
    assert(d.subrange(0, j).drop_last() =~= d.subrange(0, j - 1));
}

/// Copies `v[start..end]` into a new vector.
pub(crate) fn copy_range(v: &Vec<char>, start: usize, end: usize) -> (r: Vec<char>)
    requires
        start <= end <= v@.len(),
    ensures
        r@ == v@.subrange(start as int, end as int),
{
    let mut r: Vec<char> = Vec::new();
    let mut i: usize = start;
    while i < end
        invariant
            start <= i <= end <= v@.len(),
            r@ == v@.subrange(start as int, i as int),
        decreases end - i,
    {
        r.push(v[i]);
        assert(v@.subrange(start as int, i + 1) =~= v@.subrange(start as int, i as int).push(
            v@[i as int],
        ));
        i += 1;
    }
    r
}

impl View for Number {
    type V = Decimal;

    closed spec fn view(&self) -> Decimal {
        Decimal { negative: self.negative, whole: self.whole@, frac: self.frac@ }
    }
}

impl Number {
    #[verifier::type_invariant]
    spec fn well_formed(self) -> bool {
        is_canonical(self@)
    }

    /// Builds the number with the sign `negative`, the digits `whole` before
    /// the point and the digits `frac` after it, in canonical form.
    pub fn from_digits(negative: bool, whole: &Vec<char>, frac: &Vec<char>) -> (r: Number)
        requires
            all_digits(whole@),
            all_digits(frac@),
        ensures
            r@ == decimal_of(negative, whole@, frac@),
            is_canonical(r@),
    {
        let mut a: usize = 0;
        assert(whole@.subrange(0, whole@.len() as int) =~= whole@);
        while a < whole.len() && whole[a] == '0'
            invariant
                a <= whole@.len(),
                strip_leading_zeros(whole@) == strip_leading_zeros(
                    whole@.subrange(a as int, whole@.len() as int),
                ),
            decreases whole.len() - a,
        {
            proof {
                lemma_strip_leading_step(whole@, a as int);
            }
            a += 1;
        }
        let w = copy_range(whole, a, whole.len());
        let mut b: usize = frac.len();
        assert(frac@.subrange(0, frac@.len() as int) =~= frac@);
        while b > 0 && frac[b - 1] == '0'
            invariant
                b <= frac@.len(),
                strip_trailing_zeros(frac@) == strip_trailing_zeros(frac@.subrange(0, b as int)),
            decreases b,
        {
            proof {
                lemma_strip_trailing_step(frac@, b as int);
            }
            b -= 1;
        }
        let f = copy_range(frac, 0, b);
        proof {
            assert(whole@.subrange(0, whole@.len() as int) =~= whole@);
            assert(frac@.subrange(0, frac@.len() as int) =~= frac@);
        }
        let negative = negative && (w.len() > 0 || f.len() > 0);
        proof {
            lemma_strip_leading_canonical(whole@);
            lemma_strip_trailing_canonical(frac@);
        }
        Number { negative, whole: w, frac: f }
    }

    /// The number with the sign `negative`, the digits of `whole` before the
    /// point and those of `frac` after it; `None` where `whole` is empty or
    /// either holds a character that is not a decimal digit.
    pub fn new(negative: bool, whole: &str, frac: &str) -> (r: Option<Number>)
        ensures
            r is Some <==> whole@.len() > 0 && all_digits(whole@) && all_digits(frac@),
            r matches Some(n) ==> n@ == decimal_of(negative, whole@, frac@),
    {
        let w = chars_of(whole);
        let f = chars_of(frac);
        if w.len() == 0 || !Self::digits_only(&w) || !Self::digits_only(&f) {
            None
        } else {
            Some(Self::from_digits(negative, &w, &f))
        }
    }

    fn digits_only(d: &Vec<char>) -> (r: bool)
        ensures
            r == all_digits(d@),
    {
        let mut i: usize = 0;
        while i < d.len()
            invariant
                i <= d@.len(),
                forall|j: int| 0 <= j < i ==> is_digit(#[trigger] d@[j]),
            decreases d.len() - i,
        {
            if !('0' <= d[i] && d[i] <= '9') {
                return false;
            }
            i += 1;
        }
        true
    }

    /// Whether the number is below zero.
    pub fn is_negative(&self) -> (r: bool)
        ensures
            r == self@.negative,
    {
        self.negative
    }

    /// A copy of the number.
    pub fn copied(&self) -> (r: Number)
        ensures
            r@ == self@,
            is_canonical(r@),
    {
        proof {
            use_type_invariant(self);
        }
        let whole = copy_range(&self.whole, 0, self.whole.len());
        let frac = copy_range(&self.frac, 0, self.frac.len());
        assert(whole@ =~= self.whole@);
        assert(frac@ =~= self.frac@);
        Number { negative: self.negative, whole, frac }
    }

    /// The canonical decimal text of the number, such as `-0.25` or `5`.
    pub fn to_text(&self) -> (r: String)
        ensures
            r@ == decimal_text(self@),
    {
        let mut r = String::new();
        if self.negative {
            push_char(&mut r, '-');
        }
        if self.whole.len() == 0 {
            push_char(&mut r, '0');
        }
        let ghost head = r@;
        let mut i: usize = 0;
        while i < self.whole.len()
            invariant
                i <= self.whole@.len(),
                r@ == head + self.whole@.subrange(0, i as int),
            decreases self.whole.len() - i,
        {
            push_char(&mut r, self.whole[i]);
            assert(self.whole@.subrange(0, i + 1) =~= self.whole@.subrange(0, i as int).push(
                self.whole@[i as int],
            ));
            i += 1;
        }
        assert(self.whole@.subrange(0, self.whole@.len() as int) =~= self.whole@);
        if self.frac.len() > 0 {
            push_char(&mut r, '.');
            let ghost mid = r@;
            let mut j: usize = 0;
            while j < self.frac.len()
                invariant
                    j <= self.frac@.len(),
                    r@ == mid + self.frac@.subrange(0, j as int),
                decreases self.frac.len() - j,
            {
                push_char(&mut r, self.frac[j]);
                assert(self.frac@.subrange(0, j + 1) =~= self.frac@.subrange(0, j as int).push(
                    self.frac@[j as int],
                ));
                j += 1;
            }
            assert(self.frac@.subrange(0, self.frac@.len() as int) =~= self.frac@);
        }
        assert(r@ =~= decimal_text(self@));
        r
    }
}

} // verus!
