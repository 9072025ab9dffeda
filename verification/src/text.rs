//! Text as bytes, and numbers as text.
use vstd::prelude::*;
use vstd::string::StringExecFns;
use vstd::utf8::{decode_utf8, valid_utf8};

verus! {

/// `String::from_utf8`: the text that some bytes encode, if they are valid
/// UTF-8.
#[verifier::external_body]
pub(crate) fn text_of(bytes: Vec<u8>) -> (r: Option<String>)
    ensures
        match r {
            Some(text) => valid_utf8(bytes@) && text@ == decode_utf8(bytes@),
            None => !valid_utf8(bytes@),
        },
{
    String::from_utf8(bytes).ok()
}

/// The characters of a text.
pub(crate) fn chars_of(text: &str) -> (r: Vec<char>)
    ensures
        r@ == text@,
{
    broadcast use vstd::string::axiom_spec_iter;

    let mut r: Vec<char> = Vec::new();
    for c in it: text.chars()
        invariant
            it.seq() == text@,
            r@ == text@.take(it.index() as int),
    {
        r.push(c);
        assert(r@ =~= text@.take(it.index() as int + 1));
    }
    assert(r@ =~= text@);
    r
}

/// Whether two texts are the same.
pub(crate) fn same_text(a: &str, b: &str) -> (r: bool)
    ensures
        r == (a@ == b@),
{
    let x: Vec<char> = chars_of(a);
    let y: Vec<char> = chars_of(b);
    if x.len() != y.len() {
        return false;
    }
    for i in 0..x.len()
        invariant
            x@ == a@,
            y@ == b@,
            x@.len() == y@.len(),
            forall|j: int| 0 <= j < i ==> x@[j] == y@[j],
    {
        if x[i] != y[i] {
            return false;
        }
    }
    assert(a@ =~= b@);
    true
}

/// The decimal digit for `d`.
pub open spec fn digit(d: nat) -> char {
    if d == 0 {
        '0'
    } else if d == 1 {
        '1'
    } else if d == 2 {
        '2'
    } else if d == 3 {
        '3'
    } else if d == 4 {
        '4'
    } else if d == 5 {
        '5'
    } else if d == 6 {
        '6'
    } else if d == 7 {
        '7'
    } else if d == 8 {
        '8'
    } else {
        '9'
    }
}

/// A number in decimal notation, without leading zeros.
pub open spec fn decimal(n: nat) -> Seq<char>
    decreases n,
{
    if n < 10 {
        seq![digit(n)]
    } else {
        decimal(n / 10).push(digit(n % 10))
    }
}

/// `n` zeros.
pub open spec fn zeros(n: nat) -> Seq<char> {
    Seq::new(n, |i: int| '0')
}

/// A number in decimal notation, with leading zeros up to `width` characters.
pub open spec fn padded(n: nat, width: nat) -> Seq<char> {
    let digits = decimal(n);
    if digits.len() < width {
        zeros((width - digits.len()) as nat) + digits
    } else {
        digits
    }
}

/// The digit for `d` as a text.
fn digit_text(d: u8) -> (r: &'static str)
    requires
        d < 10,
    ensures
        r@ == seq![digit(d as nat)],
{
    proof {
        reveal_strlit("0");
        reveal_strlit("1");
        reveal_strlit("2");
        reveal_strlit("3");
        reveal_strlit("4");
        reveal_strlit("5");
        reveal_strlit("6");
        reveal_strlit("7");
        reveal_strlit("8");
        reveal_strlit("9");
    }
    let r: &'static str = match d {
        0 => "0",
        1 => "1",
        2 => "2",
        3 => "3",
        4 => "4",
        5 => "5",
        6 => "6",
        7 => "7",
        8 => "8",
        _ => "9",
    };
    assert(r@ =~= seq![digit(d as nat)]);
    r
}

/// Appends a number in decimal notation.
pub(crate) fn put_decimal(text: &mut String, n: u128)
    ensures
        final(text)@ == old(text)@ + decimal(n as nat),
    decreases n,
{
    if n >= 10 {
        put_decimal(text, n / 10);
    }
    text.append(digit_text((n % 10) as u8));
    assert(text@ =~= old(text)@ + decimal(n as nat));
}

/// A number in decimal notation.
pub fn decimal_text(n: u128) -> (r: String)
    ensures
        r@ == decimal(n as nat),
{
    let mut text: String = String::new();
    put_decimal(&mut text, n);
    assert(text@ =~= decimal(n as nat));
    text
}

/// A number in decimal notation, with leading zeros up to `width` characters.
pub(crate) fn padded_text(n: u128, width: usize) -> (r: String)
    ensures
        r@ == padded(n as nat, width as nat),
{
    let digits: String = decimal_text(n);
    let count: usize = chars_of(digits.as_str()).len();
    let mut text: String = String::new();
    assert(text@ =~= zeros(0));
    if count < width {
        proof {
            reveal_strlit("0");
        }
        for i in 0..(width - count)
            invariant
                text@ == zeros(i as nat),
        {
            proof {
                reveal_strlit("0");
            }
            text.append("0");
            assert(text@ =~= zeros(i as nat + 1));
        }
    }
    text.append(digits.as_str());
    assert(text@ =~= padded(n as nat, width as nat));
    text
}

/// Whether a character is a decimal digit.
pub open spec fn is_digit(c: char) -> bool {
    '0' <= c <= '9'
}

/// The value of a decimal digit.
pub open spec fn digit_value(c: char) -> nat {
    (c as nat - '0' as nat) as nat
}

/// Whether every character is a decimal digit.
pub open spec fn all_digits(text: Seq<char>) -> bool {
    forall|i: int| 0 <= i < text.len() ==> is_digit(#[trigger] text[i])
}

/// The number that some decimal digits stand for.
pub open spec fn decimal_value(text: Seq<char>) -> nat
    decreases text.len(),
{
    if text.len() == 0 {
        0
    } else {
        10 * decimal_value(text.drop_last()) + digit_value(text.last())
    }
}

/// The 32 bit number that a text stands for: one or more decimal digits, after
/// a plus sign or not.
pub open spec fn number_of(text: Seq<char>) -> Option<u32> {
    let digits = if text.len() > 0 && text[0] == '+' {
        text.drop_first()
    } else {
        text
    };
    if digits.len() > 0 && all_digits(digits) && decimal_value(digits) <= u32::MAX {
        Some(decimal_value(digits) as u32)
    } else {
        None
    }
}

/// More digits make no smaller number.
proof fn lemma_value_grows(text: Seq<char>, n: int)
    requires
        0 <= n <= text.len(),
    ensures
        decimal_value(text.take(n)) <= decimal_value(text),
    decreases text.len() - n,
{
    if n == text.len() {
        assert(text.take(n) =~= text);
    } else {
        lemma_value_grows(text, n + 1);
        assert(text.take(n + 1).drop_last() =~= text.take(n));
    }
}

/// The number that the characters from `start` to `end` stand for.
pub(crate) fn parse_number(chars: &Vec<char>, start: usize, end: usize) -> (r: Option<u32>)
    requires
        start <= end <= chars@.len(),
    ensures
        r == number_of(chars@.subrange(start as int, end as int)),
{
    let ghost text = chars@.subrange(start as int, end as int);
    let first: usize = if start < end && chars[start] == '+' {
        start + 1
    } else {
        start
    };
    let ghost digits = chars@.subrange(first as int, end as int);
    proof {
        if start < end && chars@[start as int] == '+' {
            assert(text[0] == '+');
            assert(text.drop_first() =~= digits);
        } else if start < end {
            assert(text[0] == chars@[start as int]);
        }
    }
    if first == end {
        return None;
    }
    let mut value: u64 = 0;
    assert(digits.take(0) =~= Seq::empty());
    for i in first..end
        invariant
            first <= end <= chars@.len(),
            text == chars@.subrange(start as int, end as int),
            digits == chars@.subrange(first as int, end as int),
            value <= u32::MAX,
            value == decimal_value(digits.take(i - first)),
            forall|j: int| 0 <= j < i - first ==> is_digit(#[trigger] digits[j]),
            number_of(text) == if digits.len() > 0 && all_digits(digits) && decimal_value(digits) <= u32::MAX {
                Some(decimal_value(digits) as u32)
            } else {
                None
            },
    {
        let c: char = chars[i];
        let ghost k = i - first;
        assert(digits[k] == c);
        if !('0' <= c && c <= '9') {
            return None;
        }
        proof {
            assert(digits.take(k + 1).drop_last() =~= digits.take(k));
            lemma_value_grows(digits, k + 1);
        }
        value = value * 10 + (c as u64 - '0' as u64);
        if value > 0xffff_ffff {
            return None;
        }
    }
    assert(digits.take(digits.len() as int) =~= digits);
    Some(value as u32)
}

/// The 128 bit number that a text stands for: one or more decimal digits.
pub open spec fn id_of(text: Seq<char>) -> Option<u128> {
    if text.len() > 0 && all_digits(text) && decimal_value(text) <= u128::MAX {
        Some(decimal_value(text) as u128)
    } else {
        None
    }
}

/// The 128 bit number that a text stands for.
pub(crate) fn parse_id(text: &str) -> (r: Option<u128>)
    ensures
        r == id_of(text@),
{
    let chars: Vec<char> = chars_of(text);
    if chars.len() == 0 {
        return None;
    }
    let mut value: u128 = 0;
    assert(text@.take(0) =~= Seq::empty());
    for i in 0..chars.len()
        invariant
            chars@ == text@,
            value == decimal_value(text@.take(i as int)),
            forall|j: int| 0 <= j < i ==> is_digit(#[trigger] text@[j]),
    {
        let c: char = chars[i];
        if !('0' <= c && c <= '9') {
            return None;
        }
        proof {
            assert(text@.take(i as int + 1).drop_last() =~= text@.take(i as int));
            lemma_value_grows(text@, i as int + 1);
        }
        let d: u128 = c as u128 - '0' as u128;
        if value > (0xffff_ffff_ffff_ffff_ffff_ffff_ffff_ffff - d) / 10 {
            return None;
        }
        value = value * 10 + d;
    }
    assert(text@.take(text@.len() as int) =~= text@);
    Some(value)
}

/// A number is found again in its decimal notation, with leading zeros or
/// without.
pub proof fn lemma_decimal_back(n: nat)
    ensures
        decimal(n).len() > 0,
        all_digits(decimal(n)),
        decimal_value(decimal(n)) == n,
    decreases n,
{
    assert(digit_value(digit(n % 10)) == n % 10);
    if n < 10 {
        assert(decimal(n).drop_last() =~= Seq::empty());
        assert(decimal_value(Seq::empty()) == 0);
    } else {
        lemma_decimal_back(n / 10);
        assert(decimal(n).drop_last() =~= decimal(n / 10));
    }
}

/// Leading zeros change no number.
proof fn lemma_leading_zeros(k: nat, digits: Seq<char>)
    ensures
        decimal_value(zeros(k) + digits) == decimal_value(digits),
    decreases k + digits.len(),
{
    let text = zeros(k) + digits;
    if digits.len() > 0 {
        assert(text.drop_last() =~= zeros(k) + digits.drop_last());
        lemma_leading_zeros(k, digits.drop_last());
    } else if k > 0 {
        assert(text.drop_last() =~= zeros((k - 1) as nat) + digits);
        assert(text.last() == '0');
        lemma_leading_zeros((k - 1) as nat, digits);
    } else {
        assert(text =~= digits);
    }
}

/// A number is found again in its padded decimal notation.
pub proof fn lemma_padded_back(n: u32, width: nat)
    ensures
        number_of(padded(n as nat, width)) == Some(n),
{
    let text = padded(n as nat, width);
    let digits = decimal(n as nat);
    lemma_decimal_back(n as nat);
    if digits.len() < width {
        lemma_leading_zeros((width - digits.len()) as nat, digits);
        assert(text[0] == '0');
        assert forall|i: int| 0 <= i < text.len() implies is_digit(#[trigger] text[i]) by {
            if i >= width - digits.len() {
                assert(text[i] == digits[i - (width - digits.len())]);
            }
        }
    } else {
        assert(is_digit(digits[0]));
    }
}

/// How a number reads in decimal notation: its last digit is the number of
/// units, the digits before it are those of the tens, and there is no leading
/// zero.
pub proof fn law_decimal_digits(n: nat)
    ensures
        decimal(n).len() > 0,
        decimal(n).last() as nat == '0' as nat + n % 10,
        n < 10 ==> decimal(n).len() == 1,
        n >= 10 ==> decimal(n).drop_last() == decimal(n / 10),
        n > 0 ==> decimal(n)[0] != '0',
    decreases n,
{
    if n >= 10 {
        law_decimal_digits(n / 10);
        assert(decimal(n).drop_last() =~= decimal(n / 10));
        assert(decimal(n)[0] == decimal(n / 10)[0]);
    }
}

/// The value of decimal digits: 0 for none, and each further digit makes the
/// digits before it tens.
pub proof fn law_decimal_value(digits: Seq<char>, d: char)
    requires
        '0' <= d <= '9',
    ensures
        decimal_value(Seq::<char>::empty()) == 0,
        decimal_value(digits.push(d)) == 10 * decimal_value(digits) + (d as nat - '0' as nat),
{
    assert(digits.push(d).drop_last() =~= digits);
}

/// Padding puts zeros before a number, up to the width and no further.
pub proof fn law_padded(n: nat, width: nat)
    ensures
        ({
            let text = padded(n, width);
            let digits = decimal(n);
            let k = text.len() - digits.len();
            &&& k >= 0
            &&& text.len() >= width
            &&& k > 0 ==> text.len() == width
            &&& text.skip(k) == digits
            &&& forall|i: int| 0 <= i < k ==> #[trigger] text[i] == '0'
            &&& forall|i: int| 0 <= i < text.len() ==> '0' <= #[trigger] text[i] <= '9'
            &&& n < 100_000 && width == 6 ==> text.len() == 6
        }),
{
    let text = padded(n, width);
    let digits = decimal(n);
    let k = text.len() - digits.len();
    lemma_decimal_back(n);
    assert(text.skip(k) =~= digits);
    assert forall|i: int| 0 <= i < text.len() implies '0' <= #[trigger] text[i] <= '9' by {
        if i >= k {
            assert(text[i] == digits[i - k]);
            assert(is_digit(digits[i - k]));
        }
    }
    if n < 100_000 {
        reveal_with_fuel(decimal, 6);
    }
}

/// What is read as a number of 32 bits: one or more decimal digits, after a plus
/// sign or not, whose value fits.
pub proof fn law_number_read(text: Seq<char>, digits: Seq<char>)
    requires
        text.len() > 0 && text[0] == '+' ==> digits == text.skip(1),
        !(text.len() > 0 && text[0] == '+') ==> digits == text,
    ensures
        number_of(text) is Some <==> digits.len() > 0 && (forall|i: int|
            0 <= i < digits.len() ==> '0' <= #[trigger] digits[i] <= '9') && decimal_value(digits) <= u32::MAX,
        number_of(text) matches Some(n) ==> decimal_value(digits) == n,
{
    if text.len() > 0 {
        assert(text.skip(1) =~= text.drop_first());
    }
    if forall|i: int| 0 <= i < digits.len() ==> '0' <= #[trigger] digits[i] <= '9' {
        assert forall|i: int| 0 <= i < digits.len() implies is_digit(#[trigger] digits[i]) by {}
    }
    if all_digits(digits) {
        assert forall|i: int| 0 <= i < digits.len() implies '0' <= #[trigger] digits[i] <= '9' by {
            assert(is_digit(digits[i]));
        }
    }
}

/// What is read as an id: one or more decimal digits whose value fits in 128
/// bits; and every id is read back from its decimal notation.
pub proof fn law_id_read(text: Seq<char>, id: u128)
    ensures
        id_of(decimal(id as nat)) == Some(id),
        id_of(text) is Some <==> text.len() > 0 && (forall|i: int|
            0 <= i < text.len() ==> '0' <= #[trigger] text[i] <= '9') && decimal_value(text) <= u128::MAX,
        id_of(text) matches Some(n) ==> decimal_value(text) == n,
{
    lemma_decimal_back(id as nat);
    if forall|i: int| 0 <= i < text.len() ==> '0' <= #[trigger] text[i] <= '9' {
        assert forall|i: int| 0 <= i < text.len() implies is_digit(#[trigger] text[i]) by {}
    }
    if all_digits(text) {
        assert forall|i: int| 0 <= i < text.len() implies '0' <= #[trigger] text[i] <= '9' by {
            assert(is_digit(text[i]));
        }
    }
}

} // verus!
