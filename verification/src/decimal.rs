//! Decimal texts as whole numbers of a fixed unit.

use vstd::arithmetic::power::{lemma_pow0, lemma_pow1, lemma_pow_adds, lemma_pow_positive, pow};
use vstd::prelude::*;

use crate::canonical::{RejectReason, RejectReasonView};
use crate::text::{
    chars_of, decimal, digit_char, is_white_space, padded_decimal, signed_decimal, trim_bounds,
    trimmed,
};

verus! {

/// Whether a text is all decimal digits.
pub open spec fn all_digits(s: Seq<char>) -> bool {
    forall|i: int| 0 <= i < s.len() ==> '0' <= #[trigger] s[i] <= '9'
}

/// The number that a text of decimal digits stands for.
pub open spec fn digits_value(s: Seq<char>) -> int
    decreases s.len(),
{
    if s.len() == 0 {
        0
    } else {
        digits_value(s.drop_last()) * 10 + (s.last() as int - '0' as int)
    }
}

/// How many characters stand before the first point.
pub open spec fn point(s: Seq<char>) -> int
    decreases s.len(),
{
    if s.len() == 0 || s[0] == '.' {
        0
    } else {
        1 + point(s.drop_first())
    }
}

/// What stands before the first point.
pub open spec fn int_part(s: Seq<char>) -> Seq<char> {
    s.take(point(s))
}

/// What stands after the first point.
pub open spec fn frac_part(s: Seq<char>) -> Seq<char> {
    if point(s) < s.len() {
        s.skip(point(s) + 1)
    } else {
        Seq::empty()
    }
}

/// The digits of a fraction that count at a scale of `scale` decimals.
pub open spec fn kept(frac: Seq<char>, scale: nat) -> Seq<char> {
    if frac.len() > scale {
        frac.take(scale as int)
    } else {
        frac
    }
}

/// Whether a text, without its sign, is a decimal number of at most `scale` decimals. Zeros may
/// follow, and either side of the point may be left out, but not both.
pub open spec fn is_decimal(body: Seq<char>, scale: nat) -> bool {
    let frac = frac_part(body);
    &&& int_part(body).len() + frac.len() > 0
    &&& all_digits(int_part(body))
    &&& all_digits(frac)
    &&& forall|i: int| scale <= i < frac.len() ==> #[trigger] frac[i] == '0'
}

/// A decimal number without its sign, counted in units of the `scale`-th decimal.
pub open spec fn magnitude(body: Seq<char>, scale: nat) -> int {
    let frac = kept(frac_part(body), scale);
    digits_value(int_part(body) + frac) * pow(10, (scale - frac.len()) as nat)
}

/// The number that a text stands for, counted in units of the `scale`-th decimal; `None` where
/// it is no such number or too large.
pub open spec fn fixed_value(s: Seq<char>, scale: nat) -> Option<int> {
    let t = trimmed(s);
    let negative = t.len() > 0 && t[0] == '-';
    let body = if negative {
        t.drop_first()
    } else {
        t
    };
    if !is_decimal(body, scale) || magnitude(body, scale) > i128::MAX {
        None
    } else if negative {
        Some(-magnitude(body, scale))
    } else {
        Some(magnitude(body, scale))
    }
}

proof fn lemma_point(s: Seq<char>)
    ensures
        0 <= point(s) <= s.len(),
    decreases s.len(),
{
    if s.len() > 0 && s[0] != '.' {
        lemma_point(s.drop_first());
    }
}

/// A number does not shrink when digits are put behind it.
proof fn lemma_digits_grow(s: Seq<char>, n: int)
    requires
        all_digits(s),
        0 <= n <= s.len(),
    ensures
        0 <= digits_value(s.take(n)) <= digits_value(s),
    decreases s.len(),
{
    if s.len() == 0 {
        assert(s.take(n) =~= s);
    } else {
        let shorter = s.drop_last();
        assert('0' <= s[s.len() - 1] <= '9');
        assert forall|i: int| 0 <= i < shorter.len() implies '0' <= #[trigger] shorter[i] <= '9' by {
            assert(shorter[i] == s[i]);
        }
        if n == s.len() {
            assert(s.take(n) =~= s);
            lemma_digits_grow(shorter, shorter.len() as int);
            assert(shorter.take(shorter.len() as int) =~= shorter);
        } else {
            lemma_digits_grow(shorter, n);
            assert(shorter.take(n) =~= s.take(n));
        }
    }
}

/// Where the first point of `chars[from..to]` is, or `to` where there is none.
fn find_point(chars: &Vec<char>, from: usize, to: usize) -> (at: usize)
    requires
        from <= to <= chars.len(),
    ensures
        from <= at <= to,
        at - from == point(chars@.subrange(from as int, to as int)),
{
    let mut at: usize = from;
    while at < to && chars[at] != '.'
        invariant
            from <= at <= to <= chars.len(),
            point(chars@.subrange(from as int, to as int)) == at - from + point(
                chars@.subrange(at as int, to as int),
            ),
        decreases to - at,
    {
        assert(chars@.subrange(at as int, to as int).drop_first() =~= chars@.subrange(
            at + 1,
            to as int,
        ));
        at = at + 1;
    }
    at
}

/// Whether `chars[from..to]` are all decimal digits.
fn digits_only(chars: &Vec<char>, from: usize, to: usize) -> (all: bool)
    requires
        from <= to <= chars.len(),
    ensures
        all == all_digits(chars@.subrange(from as int, to as int)),
{
    let ghost part = chars@.subrange(from as int, to as int);
    for i in from..to
        invariant
            from <= to <= chars.len(),
            part == chars@.subrange(from as int, to as int),
            forall|k: int| 0 <= k < i - from ==> '0' <= #[trigger] part[k] <= '9',
    {
        assert(part[i - from] == chars@[i as int]);
        if chars[i] < '0' || chars[i] > '9' {
            return false;
        }
    }
    true
}

/// Whether `chars[from..to]` are all zeros.
fn zeros_only(chars: &Vec<char>, from: usize, to: usize) -> (all: bool)
    requires
        to <= chars.len(),
    ensures
        all == (forall|i: int| from <= i < to ==> #[trigger] chars@[i] == '0'),
{
    let mut i: usize = from;
    while i < to
        invariant
            from <= i,
            from <= to ==> i <= to,
            to <= chars.len(),
            forall|k: int| from <= k < i ==> #[trigger] chars@[k] == '0',
        decreases to - i,
    {
        if chars[i] != '0' {
            return false;
        }
        i = i + 1;
    }
    true
}

/// `value` followed by the digits `chars[from..to]`; `None` where that is too large.
fn append_digits(value: i128, chars: &Vec<char>, from: usize, to: usize, digits: Ghost<
    Seq<char>,
>) -> (result: Option<i128>)
    requires
        from <= to <= chars.len(),
        all_digits(digits@ + chars@.subrange(from as int, to as int)),
        value == digits_value(digits@),
    ensures
        ({
            let total = digits_value(digits@ + chars@.subrange(from as int, to as int));
            match result {
                Some(appended) => appended == total,
                None => total > i128::MAX,
            }
        }),
{
    let mut value: i128 = value;
    let ghost all = digits@ + chars@.subrange(from as int, to as int);
    assert(all.take(digits@.len() as int) =~= digits@);
    for i in from..to
        invariant
            from <= to <= chars.len(),
            all == digits@ + chars@.subrange(from as int, to as int),
            all_digits(all),
            value == digits_value(all.take(digits@.len() + i - from)),
    {
        let ghost at = digits@.len() + i - from;
        proof {
            assert(all[at] == chars@[i as int]);
            assert(all.take(at + 1).drop_last() =~= all.take(at));
            lemma_digits_grow(all, at);
            lemma_digits_grow(all, at + 1);
        }
        let digit: i128 = (chars[i] as u32 - '0' as u32) as i128;
        value = match value.checked_mul(10) {
            Some(shifted) => match shifted.checked_add(digit) {
                Some(sum) => sum,
                None => {
                    return None;
                },
            },
            None => {
                return None;
            },
        };
    }
    assert(all.take(all.len() as int) =~= all);
    Some(value)
}

/// `value * 10^count`; `None` where that is too large.
pub(crate) fn append_zeros(value: i128, count: usize) -> (result: Option<i128>)
    requires
        value >= 0,
    ensures
        match result {
            Some(shifted) => shifted == value * pow(10, count as nat),
            None => value * pow(10, count as nat) > i128::MAX,
        },
{
    let mut shifted: i128 = value;
    proof {
        lemma_pow0(10);
    }
    assert(value * 1 == value);
    for i in 0..count
        invariant
            value >= 0,
            shifted == value * pow(10, i as nat),
    {
        proof {
            lemma_pow_adds(10, i as nat, 1);
            lemma_pow1(10);
            lemma_pow_positive(10, i as nat);
            lemma_pow_adds(10, (i + 1) as nat, (count - i - 1) as nat);
            lemma_pow_positive(10, (count - i - 1) as nat);
            assert(value * pow(10, i as nat) * 10 == value * pow(10, (i + 1) as nat))
                by (nonlinear_arith)
                requires
                    pow(10, (i + 1) as nat) == pow(10, i as nat) * 10,
            ;
            assert(value * pow(10, (i + 1) as nat) <= value * pow(10, count as nat))
                by (nonlinear_arith)
                requires
                    value >= 0,
                    pow(10, (i + 1) as nat) > 0,
                    pow(10, (count - i - 1) as nat) > 0,
                    pow(10, count as nat) == pow(10, (i + 1) as nat) * pow(
                        10,
                        (count - i - 1) as nat,
                    ),
            ;
            assert(shifted >= 0) by (nonlinear_arith)
                requires
                    shifted == value * pow(10, i as nat),
                    value >= 0,
                    pow(10, i as nat) > 0,
            ;
        }
        shifted = match shifted.checked_mul(10) {
            Some(product) => product,
            None => {
                return None;
            },
        };
    }
    Some(shifted)
}

/// Reads a decimal number, counted in units of the `scale`-th decimal.
pub fn parse_fixed(s: &str, scale: u32) -> (result: Result<i128, RejectReason>)
    ensures
        match result {
            Ok(value) => fixed_value(s@, scale as nat) == Some(value as int),
            Err(reason) => fixed_value(s@, scale as nat) is None && reason@
                == RejectReasonView::MalformedDecimal(s@),
        },
{
    match fixed_of(s, scale as usize) {
        Some(value) => Ok(value),
        None => Err(RejectReason::MalformedDecimal(s.to_string())),
    }
}

fn fixed_of(s: &str, scale: usize) -> (result: Option<i128>)
    ensures
        match result {
            Some(value) => fixed_value(s@, scale as nat) == Some(value as int),
            None => fixed_value(s@, scale as nat) is None,
        },
{
    let chars = chars_of(s);
    let (start, to) = trim_bounds(&chars);
    let ghost t = trimmed(s@);
    let negative = start < to && chars[start] == '-';
    let from: usize = if negative {
        start + 1
    } else {
        start
    };
    let ghost body = chars@.subrange(from as int, to as int);
    proof {
        if negative {
            assert(body =~= t.drop_first());
        } else {
            assert(body =~= t);
        }
    }
    match magnitude_of(&chars, from, to, scale) {
        Some(value) => Some(
            if negative {
                -value
            } else {
                value
            },
        ),
        None => None,
    }
}

/// Whether `chars[from..to]`, with its first point at `at`, is a decimal number.
fn decimal_shape(chars: &Vec<char>, from: usize, at: usize, to: usize, scale: usize) -> (shaped:
    bool)
    requires
        from <= at <= to <= chars.len(),
        at - from == point(chars@.subrange(from as int, to as int)),
    ensures
        shaped == is_decimal(chars@.subrange(from as int, to as int), scale as nat),
{
    let ghost body = chars@.subrange(from as int, to as int);
    let frac_from: usize = if at < to {
        at + 1
    } else {
        at
    };
    let ghost frac = frac_part(body);
    proof {
        assert(int_part(body) =~= chars@.subrange(from as int, at as int));
        assert(frac =~= chars@.subrange(frac_from as int, to as int));
    }
    if from == at && frac_from == to {
        return false;
    }
    if !digits_only(chars, from, at) || !digits_only(chars, frac_from, to) {
        return false;
    }
    if to - frac_from <= scale {
        return true;
    }
    let zeros = zeros_only(chars, frac_from + scale, to);
    proof {
        if zeros {
            assert forall|i: int| scale <= i < frac.len() implies #[trigger] frac[i] == '0' by {
                assert(frac[i] == chars@[frac_from + i]);
            }
        } else {
            let i = choose|i: int| frac_from + scale <= i < to && #[trigger] chars@[i] != '0';
            assert(frac[i - frac_from] == chars@[i]);
        }
    }
    zeros
}

/// The decimal number `chars[from..to]`, counted in units of the `scale`-th decimal.
fn magnitude_of(chars: &Vec<char>, from: usize, to: usize, scale: usize) -> (result: Option<i128>)
    requires
        from <= to <= chars.len(),
    ensures
        ({
            let body = chars@.subrange(from as int, to as int);
            match result {
                Some(value) => is_decimal(body, scale as nat) && value == magnitude(
                    body,
                    scale as nat,
                ) && value >= 0,
                None => !is_decimal(body, scale as nat) || magnitude(body, scale as nat)
                    > i128::MAX,
            }
        }),
{
    let ghost body = chars@.subrange(from as int, to as int);
    let at = find_point(chars, from, to);
    if !decimal_shape(chars, from, at, to, scale) {
        return None;
    }
    let frac_from: usize = if at < to {
        at + 1
    } else {
        at
    };
    let frac_to: usize = if to - frac_from > scale {
        frac_from + scale
    } else {
        to
    };
    let ghost ints = int_part(body);
    let ghost digits = kept(frac_part(body), scale as nat);
    proof {
        assert(ints =~= chars@.subrange(from as int, at as int));
        assert(digits =~= chars@.subrange(frac_from as int, frac_to as int));
        lemma_magnitude(ints, digits, (scale - digits.len()) as nat);
        assert(Seq::<char>::empty() + ints =~= ints);
    }
    let value = match append_digits(0, chars, from, at, Ghost(Seq::empty())) {
        Some(value) => value,
        None => {
            return None;
        },
    };
    let value = match append_digits(value, chars, frac_from, frac_to, Ghost(ints)) {
        Some(value) => value,
        None => {
            return None;
        },
    };
    append_zeros(value, scale - (frac_to - frac_from))
}

/// A number does not shrink when digits and zeros are put behind it.
proof fn lemma_magnitude(ints: Seq<char>, digits: Seq<char>, zeros: nat)
    requires
        all_digits(ints),
        all_digits(digits),
    ensures
        all_digits(ints + digits),
        0 <= digits_value(ints) <= digits_value(ints + digits),
        digits_value(ints + digits) <= digits_value(ints + digits) * pow(10, zeros),
{
    let whole = digits_value(ints + digits);
    let factor = pow(10, zeros);
    lemma_digits_grow(ints + digits, ints.len() as int);
    assert((ints + digits).take(ints.len() as int) =~= ints);
    lemma_pow_positive(10, zeros);
    assert(whole * factor >= whole) by (nonlinear_arith)
        requires
            whole >= 0,
            factor >= 1,
    ;
}

/// Digits count in tens: a digit behind others is worth itself, and they are worth ten times as
/// much.
pub proof fn law_digits_count_in_tens(s: Seq<char>, digit: char)
    ensures
        digits_value(Seq::empty()) == 0,
        digits_value(s.push(digit)) == 10 * digits_value(s) + (digit as int - 48),
{
    assert(s.push(digit).drop_last() =~= s);
}

/// Whether a text is all white space.
pub open spec fn all_blank(s: Seq<char>) -> bool {
    forall|i: int| 0 <= i < s.len() ==> is_white_space(#[trigger] s[i])
}

/// A decimal text in its parts.
pub struct Spelling {
    /// White space in front.
    pub lead: Seq<char>,
    /// Whether a minus sign comes first.
    pub negative: bool,
    /// The digits before the point.
    pub ints: Seq<char>,
    /// Whether there is a point.
    pub pointed: bool,
    /// The digits after the point.
    pub frac: Seq<char>,
    /// White space behind.
    pub tail: Seq<char>,
}

impl Spelling {
    /// The text that these parts make up.
    pub open spec fn text(self) -> Seq<char> {
        let sign = if self.negative {
            seq!['-']
        } else {
            Seq::empty()
        };
        let point = if self.pointed {
            seq!['.']
        } else {
            Seq::empty()
        };
        self.lead + sign + self.ints + point + self.frac + self.tail
    }

    /// Whether these are parts of a decimal number of at most `scale` decimals: digits on either
    /// side of the point or on both, none behind it without it, and nothing but zeros beyond the
    /// last decimal that counts.
    pub open spec fn is_number(self, scale: nat) -> bool {
        &&& all_blank(self.lead) && all_blank(self.tail)
        &&& forall|i: int| 0 <= i < self.ints.len() ==> '0' <= #[trigger] self.ints[i] <= '9'
        &&& forall|i: int| 0 <= i < self.frac.len() ==> '0' <= #[trigger] self.frac[i] <= '9'
        &&& self.ints.len() + self.frac.len() > 0
        &&& !self.pointed ==> self.frac.len() == 0
        &&& forall|i: int| scale <= i < self.frac.len() ==> #[trigger] self.frac[i] == '0'
    }

    /// The number that these parts stand for, without its sign, in units of the `scale`-th
    /// decimal.
    pub open spec fn units(self, scale: nat) -> int {
        let frac = if self.frac.len() > scale {
            self.frac.take(scale as int)
        } else {
            self.frac
        };
        digits_value(self.ints + frac) * pow(10, (scale - frac.len()) as nat)
    }
}

proof fn lemma_trim_lead(lead: Seq<char>, t: Seq<char>)
    requires
        all_blank(lead),
    ensures
        trimmed(lead + t) == trimmed(t),
    decreases lead.len(),
{
    if lead.len() == 0 {
        assert(lead + t =~= t);
    } else {
        let rest = lead.drop_first();
        assert(is_white_space(lead[0]));
        assert forall|i: int| 0 <= i < rest.len() implies is_white_space(#[trigger] rest[i]) by {
            assert(rest[i] == lead[i + 1]);
        }
        assert((lead + t).drop_first() =~= rest + t);
        lemma_trim_lead(rest, t);
    }
}

proof fn lemma_trim_tail(t: Seq<char>, tail: Seq<char>)
    requires
        all_blank(tail),
        t.len() > 0,
        !is_white_space(t[0]),
        !is_white_space(t.last()),
    ensures
        trimmed(t + tail) == t,
    decreases tail.len(),
{
    if tail.len() == 0 {
        assert(t + tail =~= t);
    } else {
        let rest = tail.drop_last();
        let whole = t + tail;
        assert(is_white_space(tail[tail.len() - 1]));
        assert(whole.last() == tail[tail.len() - 1]);
        assert(whole[0] == t[0]);
        assert forall|i: int| 0 <= i < rest.len() implies is_white_space(#[trigger] rest[i]) by {
            assert(rest[i] == tail[i]);
        }
        assert(whole.drop_last() =~= t + rest);
        lemma_trim_tail(t, rest);
    }
}

/// What is trimmed off a text is white space at its two ends.
proof fn lemma_trimmed_parts(s: Seq<char>) -> (parts: (Seq<char>, Seq<char>))
    ensures
        s == parts.0 + trimmed(s) + parts.1,
        all_blank(parts.0),
        all_blank(parts.1),
    decreases s.len(),
{
    if s.len() == 0 {
        assert(s =~= s + s + s);
        (s, s)
    } else if is_white_space(s[0]) {
        let (lead, tail) = lemma_trimmed_parts(s.drop_first());
        let longer = seq![s[0]] + lead;
        assert(s =~= seq![s[0]] + s.drop_first());
        assert(s =~= longer + trimmed(s) + tail);
        assert forall|i: int| 0 <= i < longer.len() implies is_white_space(
            #[trigger] longer[i],
        ) by {
            if i > 0 {
                assert(longer[i] == lead[i - 1]);
            }
        }
        (longer, tail)
    } else if is_white_space(s.last()) {
        let (lead, tail) = lemma_trimmed_parts(s.drop_last());
        let longer = tail.push(s.last());
        assert(s =~= s.drop_last().push(s.last()));
        assert(s =~= lead + trimmed(s) + longer);
        assert forall|i: int| 0 <= i < longer.len() implies is_white_space(
            #[trigger] longer[i],
        ) by {
            if i < tail.len() {
                assert(longer[i] == tail[i]);
            }
        }
        (lead, longer)
    } else {
        let none = Seq::<char>::empty();
        assert(s =~= none + s + none);
        (none, none)
    }
}

/// The first point stands behind the digits before it.
proof fn lemma_point_behind(digits: Seq<char>, rest: Seq<char>)
    requires
        forall|i: int| 0 <= i < digits.len() ==> #[trigger] digits[i] != '.',
        rest.len() > 0 ==> rest[0] == '.',
    ensures
        point(digits + rest) == digits.len(),
    decreases digits.len(),
{
    let text = digits + rest;
    if digits.len() == 0 {
        assert(text =~= rest);
    } else {
        let shorter = digits.drop_first();
        assert(text[0] == digits[0]);
        assert forall|i: int| 0 <= i < shorter.len() implies #[trigger] shorter[i] != '.' by {
            assert(shorter[i] == digits[i + 1]);
        }
        assert(text.drop_first() =~= shorter + rest);
        lemma_point_behind(shorter, rest);
    }
}

/// What stands at the first point is a point.
proof fn lemma_point_is_there(s: Seq<char>)
    ensures
        0 <= point(s) <= s.len(),
        point(s) < s.len() ==> s[point(s)] == '.',
    decreases s.len(),
{
    if s.len() > 0 && s[0] != '.' {
        lemma_point_is_there(s.drop_first());
    }
}

/// Every decimal text reads as the number that its digits stand for, with its sign, whatever white
/// space is around it, with or without a point, and with any number of zeros in front and
/// behind. It is refused only where that number does not fit.
pub proof fn law_a_decimal_text_reads_as_its_number(parts: Spelling, scale: nat)
    requires
        parts.is_number(scale),
    ensures
        fixed_value(parts.text(), scale) == if parts.units(scale) > i128::MAX {
            None
        } else if parts.negative {
            Some(-parts.units(scale))
        } else {
            Some(parts.units(scale))
        },
{
    reveal(is_white_space);
    let none = Seq::<char>::empty();
    let sign = if parts.negative {
        seq!['-']
    } else {
        none
    };
    let dot = if parts.pointed {
        seq!['.']
    } else {
        none
    };
    let body = parts.ints + dot + parts.frac;
    let t = sign + body;
    assert(parts.text() =~= parts.lead + (t + parts.tail));
    lemma_trim_lead(parts.lead, t + parts.tail);
    assert(body.len() > 0);
    assert(body[0] == '.' || '0' <= body[0] <= '9') by {
        if parts.ints.len() > 0 {
            assert(body[0] == parts.ints[0]);
        } else {
            assert(parts.pointed);
        }
    }
    let end = body.len() - 1;
    assert(body[end] == '.' || '0' <= body[end] <= '9') by {
        if parts.frac.len() > 0 {
            assert(body[end] == parts.frac[parts.frac.len() - 1]);
        } else if !parts.pointed {
            assert(body[end] == parts.ints[end]);
        }
    }
    assert(t.last() == body[end]);
    lemma_trim_tail(t, parts.tail);
    if parts.negative {
        assert(t.drop_first() =~= body);
    } else {
        assert(t =~= body);
    }
    assert forall|i: int| 0 <= i < parts.ints.len() implies #[trigger] parts.ints[i] != '.' by {
        assert('0' <= parts.ints[i] <= '9');
    }
    let rest = dot + parts.frac;
    assert(body =~= parts.ints + rest);
    assert(rest.len() > 0 ==> rest[0] == '.');
    lemma_point_behind(parts.ints, rest);
    assert(int_part(body) =~= parts.ints);
    assert(frac_part(body) =~= parts.frac);
    assert(is_decimal(body, scale));
}

/// Nothing else reads as a number: a text that does is white space, perhaps a minus sign, digits,
/// perhaps a point and digits, and white space.
pub proof fn law_only_decimal_texts_read_as_numbers(s: Seq<char>, scale: nat)
    requires
        fixed_value(s, scale) is Some,
    ensures
        exists|parts: Spelling| #[trigger] parts.is_number(scale) && parts.text() == s,
{
    let t = trimmed(s);
    let (lead, tail) = lemma_trimmed_parts(s);
    let negative = t.len() > 0 && t[0] == '-';
    let body = if negative {
        t.drop_first()
    } else {
        t
    };
    lemma_point_is_there(body);
    let parts = Spelling {
        lead,
        negative,
        ints: int_part(body),
        pointed: point(body) < body.len(),
        frac: frac_part(body),
        tail,
    };
    assert(parts.text() =~= s);
    assert(parts.is_number(scale));
}

/// A number is written in decimal digits that stand for it, at least one and as many as asked for,
/// and without a zero in front that was not asked for.
pub proof fn law_a_number_is_written_in_decimal(n: nat, width: nat)
    ensures
        ({
            let text = padded_decimal(n, width);
            &&& all_digits(text)
            &&& digits_value(text) == n
            &&& text.len() >= 1 && text.len() >= width
            &&& text.len() > 1 && text.len() > width ==> text[0] != '0'
        }),
    decreases n, width,
{
    let text = padded_decimal(n, width);
    let last = digit_char((n % 10) as int);
    assert('0' <= last <= '9' && last as int - 48 == n % 10);
    if n < 10 && width <= 1 {
        let none = Seq::<char>::empty();
        assert(text =~= none.push(last));
        law_digits_count_in_tens(none, last);
    } else {
        let narrower = if width == 0 {
            0
        } else {
            (width - 1) as nat
        };
        let rest = padded_decimal(n / 10, narrower);
        law_a_number_is_written_in_decimal(n / 10, narrower);
        law_digits_count_in_tens(rest, last);
        assert forall|i: int| 0 <= i < text.len() implies '0' <= #[trigger] text[i] <= '9' by {
            if i < rest.len() {
                assert(text[i] == rest[i]);
            }
        }
        assert(text[0] == rest[0]);
        if rest.len() == 1 && text.len() > width {
            assert(n >= 10);
            let none = Seq::<char>::empty();
            assert(rest =~= none.push(rest[0]));
            law_digits_count_in_tens(none, rest[0]);
        }
    }
}

/// A number written with its sign reads back as itself.
pub proof fn law_a_signed_number_reads_back(n: int)
    requires
        -i128::MAX <= n <= i128::MAX,
    ensures
        fixed_value(signed_decimal(n), 0) == Some(n),
{
    let size = (if n < 0 {
        -n
    } else {
        n
    }) as nat;
    let digits = decimal(size);
    let none = Seq::<char>::empty();
    law_a_number_is_written_in_decimal(size, 0);
    let parts = Spelling {
        lead: none,
        negative: n < 0,
        ints: digits,
        pointed: false,
        frac: none,
        tail: none,
    };
    assert(parts.text() =~= signed_decimal(n));
    assert(parts.is_number(0));
    law_a_decimal_text_reads_as_its_number(parts, 0);
    lemma_pow0(10);
    assert(digits + none =~= digits);
    assert(digits_value(digits) * 1 == size);
}

/// What a text is read as fits.
pub proof fn lemma_fixed_value_fits(s: Seq<char>, scale: nat)
    requires
        fixed_value(s, scale) is Some,
    ensures
        -i128::MAX <= fixed_value(s, scale)->0 <= i128::MAX,
{
    let t = trimmed(s);
    let body = if t.len() > 0 && t[0] == '-' {
        t.drop_first()
    } else {
        t
    };
    let digits = kept(frac_part(body), scale);
    lemma_magnitude(int_part(body), digits, (scale - digits.len()) as nat);
}

} // verus!
