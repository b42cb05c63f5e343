//! Text as a sequence of characters: comparison, order, white space and decimal rendering.

use vstd::prelude::*;

verus! {

/// `String::push` appends one character at the end of the string.
pub assume_specification[ String::push ](s: &mut String, c: char)
    ensures
        final(s)@ == old(s)@.push(c),
;

/// The characters of `s`, in order.
pub fn chars_of(s: &str) -> (chars: Vec<char>)
    ensures
        chars@ == s@,
{
    let mut chars: Vec<char> = Vec::new();
    for c in it: s.chars()
        invariant
            chars@ == it.seq().take(it.index() as int),
            it.seq() == s@,
    {
        chars.push(c);
    }
    assert(s@.take(s@.len() as int) == s@);
    chars
}

/// Appends the characters `chars[from..to]` to a new string.
pub fn text_of(chars: &Vec<char>, from: usize, to: usize) -> (text: String)
    requires
        from <= to <= chars.len(),
    ensures
        text@ == chars@.subrange(from as int, to as int),
{
    let mut text = String::new();
    for i in from..to
        invariant
            from <= to <= chars.len(),
            text@ == chars@.subrange(from as int, i as int),
    {
        text.push(chars[i]);
        assert(chars@.subrange(from as int, i + 1) == chars@.subrange(from as int, i as int).push(
            chars@[i as int],
        ));
    }
    text
}

/// Whether two texts hold the same characters.
pub fn same_text(a: &str, b: &str) -> (same: bool)
    ensures
        same == (a@ == b@),
{
    match text_order(a, b) {
        TextOrder::Same => true,
        _ => false,
    }
}

/// How one text stands to another in dictionary order.
#[derive(Clone, Copy, PartialEq, Eq, Debug, Structural)]
pub enum TextOrder {
    Before,
    Same,
    After,
}

/// Dictionary order of texts, by the code points of their characters.
pub open spec fn text_before(a: Seq<char>, b: Seq<char>) -> bool
    decreases a.len(),
{
    if b.len() == 0 {
        false
    } else if a.len() == 0 {
        true
    } else if a[0] != b[0] {
        (a[0] as int) < (b[0] as int)
    } else {
        text_before(a.drop_first(), b.drop_first())
    }
}

/// Dictionary order is strict and total: of two texts exactly one of "before", "same" and
/// "after" holds.
pub proof fn lemma_text_before_total(a: Seq<char>, b: Seq<char>)
    ensures
        text_before(a, b) ==> !text_before(b, a) && a != b,
        !text_before(a, b) && !text_before(b, a) ==> a == b,
    decreases a.len(),
{
    if a.len() > 0 && b.len() > 0 && a[0] == b[0] {
        lemma_text_before_total(a.drop_first(), b.drop_first());
        assert(a == seq![a[0]] + a.drop_first());
        assert(b == seq![b[0]] + b.drop_first());
    }
    if a.len() == 0 && b.len() == 0 {
        assert(a == b);
    }
}

/// Dictionary order is transitive.
pub proof fn lemma_text_before_transitive(a: Seq<char>, b: Seq<char>, c: Seq<char>)
    requires
        text_before(a, b),
        text_before(b, c),
    ensures
        text_before(a, c),
    decreases a.len(),
{
    if a.len() > 0 && a[0] == b[0] && b[0] == c[0] {
        lemma_text_before_transitive(a.drop_first(), b.drop_first(), c.drop_first());
    }
}

/// Where `a` stands to `b` in dictionary order.
pub fn text_order(a: &str, b: &str) -> (order: TextOrder)
    ensures
        order == (if text_before(a@, b@) {
            TextOrder::Before
        } else if text_before(b@, a@) {
            TextOrder::After
        } else {
            TextOrder::Same
        }),
        (order == TextOrder::Same) == (a@ == b@),
{
    let left = chars_of(a);
    let right = chars_of(b);
    let mut i: usize = 0;
    proof {
        lemma_text_before_total(a@, b@);
        lemma_text_before_total(b@, a@);
        assert(a@.skip(0) == a@);
        assert(b@.skip(0) == b@);
    }
    while i < left.len() && i < right.len()
        invariant
            left@ == a@,
            right@ == b@,
            i <= left.len(),
            i <= right.len(),
            text_before(a@, b@) == text_before(a@.skip(i as int), b@.skip(i as int)),
            text_before(b@, a@) == text_before(b@.skip(i as int), a@.skip(i as int)),
            text_before(a@, b@) ==> !text_before(b@, a@) && a@ != b@,
            text_before(b@, a@) ==> a@ != b@,
            !text_before(a@, b@) && !text_before(b@, a@) ==> a@ == b@,
        decreases left.len() - i,
    {
        if left[i] != right[i] {
            if left[i] < right[i] {
                return TextOrder::Before;
            } else {
                return TextOrder::After;
            }
        }
        assert(a@.skip(i as int).drop_first() == a@.skip(i + 1));
        assert(b@.skip(i as int).drop_first() == b@.skip(i + 1));
        i = i + 1;
    }
    if i < right.len() {
        TextOrder::Before
    } else if i < left.len() {
        TextOrder::After
    } else {
        TextOrder::Same
    }
}

/// The characters with the Unicode property White_Space.
#[verifier::opaque]
pub open spec fn is_white_space(c: char) -> bool {
    let code = c as u32;
    ||| 0x9 <= code <= 0xD
    ||| code == 0x20
    ||| code == 0x85
    ||| code == 0xA0
    ||| code == 0x1680
    ||| 0x2000 <= code <= 0x200A
    ||| code == 0x2028
    ||| code == 0x2029
    ||| code == 0x202F
    ||| code == 0x205F
    ||| code == 0x3000
}

/// Whether `c` is white space.
pub fn white_space(c: char) -> (white: bool)
    ensures
        white == is_white_space(c),
{
    reveal(is_white_space);
    let code: u32 = c as u32;
    (0x9 <= code && code <= 0xD) || code == 0x20 || code == 0x85 || code == 0xA0 || code == 0x1680
        || (0x2000 <= code && code <= 0x200A) || code == 0x2028 || code == 0x2029 || code == 0x202F
        || code == 0x205F || code == 0x3000
}

/// `s` without the white space at its two ends.
pub open spec fn trimmed(s: Seq<char>) -> Seq<char>
    decreases s.len(),
{
    if s.len() == 0 {
        s
    } else if is_white_space(s[0]) {
        trimmed(s.drop_first())
    } else if is_white_space(s.last()) {
        trimmed(s.drop_last())
    } else {
        s
    }
}

/// The bounds of `chars` without the white space at its two ends.
pub fn trim_bounds(chars: &Vec<char>) -> (bounds: (usize, usize))
    ensures
        bounds.0 <= bounds.1 <= chars.len(),
        chars@.subrange(bounds.0 as int, bounds.1 as int) == trimmed(chars@),
{
    let mut from: usize = 0;
    let mut to: usize = chars.len();
    assert(chars@.subrange(0, chars.len() as int) == chars@);
    while from < to && white_space(chars[from])
        invariant
            from <= to == chars.len(),
            trimmed(chars@) == trimmed(chars@.subrange(from as int, to as int)),
        decreases to - from,
    {
        assert(chars@.subrange(from as int, to as int).drop_first() == chars@.subrange(
            from + 1,
            to as int,
        ));
        from = from + 1;
    }
    while from < to && white_space(chars[to - 1])
        invariant
            from <= to <= chars.len(),
            from < to ==> !is_white_space(chars@[from as int]),
            trimmed(chars@) == trimmed(chars@.subrange(from as int, to as int)),
        decreases to - from,
    {
        assert(chars@.subrange(from as int, to as int).drop_last() == chars@.subrange(
            from as int,
            to - 1,
        ));
        to = to - 1;
    }
    (from, to)
}

/// Appends a text to another.
pub fn push_text(text: &mut String, more: &str)
    ensures
        final(text)@ == old(text)@ + more@,
{
    for c in it: more.chars()
        invariant
            text@ == old(text)@ + it.seq().take(it.index() as int),
            it.seq() == more@,
    {
        text.push(c);
        assert(text@ =~= old(text)@ + more@.take(it.index() + 1));
    }
    assert(more@.take(more@.len() as int) =~= more@);
}

/// The character of a decimal digit.
pub open spec fn digit_char(digit: int) -> char {
    (digit + 48) as char
}

/// `n` written in decimal, filled up with zeros on the left to at least `width` digits.
pub open spec fn padded_decimal(n: nat, width: nat) -> Seq<char>
    decreases n, width,
{
    let last = digit_char((n % 10) as int);
    if n < 10 && width <= 1 {
        seq![last]
    } else {
        padded_decimal(n / 10, if width == 0 { 0 } else { (width - 1) as nat }).push(last)
    }
}

/// `n` written in decimal, without leading zeros.
pub open spec fn decimal(n: nat) -> Seq<char> {
    padded_decimal(n, 0)
}

/// `n` in decimal, with a minus sign in front where it is negative.
pub open spec fn signed_decimal(n: int) -> Seq<char> {
    if n < 0 {
        seq!['-'] + decimal((-n) as nat)
    } else {
        decimal(n as nat)
    }
}

fn digit_of(digit: u128) -> (c: char)
    requires
        digit < 10,
    ensures
        c == digit_char(digit as int),
{
    let byte: u8 = 48u8 + digit as u8;
    byte as char
}

/// Appends `n` in decimal, filled up with zeros on the left to at least `width` digits.
pub fn push_padded_decimal(text: &mut String, n: u128, width: usize)
    ensures
        final(text)@ == old(text)@ + padded_decimal(n as nat, width as nat),
    decreases n, width,
{
    if n >= 10 || width > 1 {
        push_padded_decimal(text, n / 10, if width == 0 { 0 } else { width - 1 });
    }
    text.push(digit_of(n % 10));
    assert(text@ =~= old(text)@ + padded_decimal(n as nat, width as nat));
}

/// Appends `n` in decimal.
pub fn push_decimal(text: &mut String, n: u128)
    ensures
        final(text)@ == old(text)@ + decimal(n as nat),
{
    push_padded_decimal(text, n, 0);
}

/// `n` in decimal, with a minus sign in front where it is negative.
pub fn decimal_text(n: i128) -> (text: String)
    ensures
        text@ == signed_decimal(n as int),
{
    let mut text = String::new();
    if n < 0 {
        text.push('-');
        let below: i128 = -(n + 1);
        push_decimal(&mut text, below as u128 + 1);
        assert(text@ == seq!['-'] + decimal((-n) as nat));
    } else {
        push_decimal(&mut text, n as u128);
        assert(text@ == decimal(n as nat));
    }
    text
}

/// Dictionary order: one text is before another where it runs out first and the other goes on, or
/// where the first characters in which they differ are in the order of their code points.
pub proof fn law_dictionary_order_goes_by_the_first_difference(a: Seq<char>, b: Seq<char>, k: int)
    requires
        0 <= k <= a.len(),
        k <= b.len(),
        forall|i: int| 0 <= i < k ==> #[trigger] a[i] == b[i],
        k < a.len() && k < b.len() ==> a[k] != b[k],
    ensures
        k == a.len() && k == b.len() ==> a == b && !text_before(a, b) && !text_before(b, a),
        k == a.len() && k < b.len() ==> text_before(a, b) && !text_before(b, a),
        k < a.len() && k == b.len() ==> text_before(b, a) && !text_before(a, b),
        k < a.len() && k < b.len() ==> text_before(a, b) == ((a[k] as int) < (b[k] as int))
            && text_before(b, a) == ((b[k] as int) < (a[k] as int)),
    decreases k,
{
    if k > 0 {
        let x = a.drop_first();
        let y = b.drop_first();
        assert(a[0] == b[0]);
        assert forall|i: int| 0 <= i < k - 1 implies #[trigger] x[i] == y[i] by {
            assert(a[i + 1] == b[i + 1]);
        }
        law_dictionary_order_goes_by_the_first_difference(x, y, k - 1);
    }
    if k == a.len() && k == b.len() {
        assert(a =~= b);
        lemma_text_before_total(a, b);
        lemma_text_before_total(b, a);
    }
}

} // verus!
