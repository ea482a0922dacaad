//! Plain text: decimal numbers, padding, and the order of names.
use vstd::prelude::*;
use vstd::string::StringExecFns;
use vstd::string::StrSliceExecFns;
use vstd::string::StringSliceAdditionalSpecFns;

verus! {

/// The decimal digit of `d`, for `d` below ten.
pub open spec fn digit_char(d: nat) -> char {
    (('0' as int + d) as u32) as char
}

/// `value` in decimal, without leading zeros.
pub open spec fn decimal(value: nat) -> Seq<char>
    decreases value,
{
    if value < 10 {
        seq![digit_char(value)]
    } else {
        decimal(value / 10).push(digit_char(value % 10))
    }
}

/// `count` spaces.
pub open spec fn spaces(count: nat) -> Seq<char> {
    Seq::new(count, |i: int| ' ')
}

/// `text` filled up with spaces on the right to `width` characters.
pub open spec fn pad_right(text: Seq<char>, width: nat) -> Seq<char> {
    if text.len() < width {
        text + spaces((width - text.len()) as nat)
    } else {
        text
    }
}

/// `text` filled up with spaces on the left to `width` characters.
pub open spec fn pad_left(text: Seq<char>, width: nat) -> Seq<char> {
    if text.len() < width {
        spaces((width - text.len()) as nat) + text
    } else {
        text
    }
}

/// The byte string `a` comes no later than `b` in dictionary order.
pub open spec fn bytes_ordered(a: Seq<u8>, b: Seq<u8>) -> bool
    decreases a.len(),
{
    if a.len() == 0 {
        true
    } else if b.len() == 0 {
        false
    } else if a[0] != b[0] {
        a[0] < b[0]
    } else {
        bytes_ordered(a.drop_first(), b.drop_first())
    }
}

/// The name `a` comes no later than `b`: the byte order that strings compare by.
pub open spec fn names_ordered(a: Seq<char>, b: Seq<char>) -> bool {
    bytes_ordered(vstd::utf8::encode_utf8(a), vstd::utf8::encode_utf8(b))
}

/// The one-character text of a decimal digit.
fn digit_text(digit: u64) -> (text: &'static str)
    requires
        digit < 10,
    ensures
        text@ == seq![digit_char(digit as nat)],
{
    proof {
        reveal_strlit("0");
        reveal_strlit("1");
        reveal_strlit("2");
        reveal_strlit("3");
        reveal_strlit("4");
        reveal_strlit("5");
        reveal_strlit("6");
        reveal_strlit("7");
        reveal_strlit("8");
        reveal_strlit("9");
    }
    let text = if digit == 0 {
        "0"
    } else if digit == 1 {
        "1"
    } else if digit == 2 {
        "2"
    } else if digit == 3 {
        "3"
    } else if digit == 4 {
        "4"
    } else if digit == 5 {
        "5"
    } else if digit == 6 {
        "6"
    } else if digit == 7 {
        "7"
    } else if digit == 8 {
        "8"
    } else {
        "9"
    };
    assert(text@ =~= seq![digit_char(digit as nat)]);
    text
}

/// Write `value` in decimal.
pub fn decimal_text(value: u64) -> (text: String)
    ensures
        text@ == decimal(value as nat),
    decreases value,
{
    if value < 10 {
        String::from_str(digit_text(value))
    } else {
        let mut text = decimal_text(value / 10);
        text.append(digit_text(value % 10));
        assert(text@ =~= decimal((value / 10) as nat).push(digit_char((value % 10) as nat)));
        text
    }
}

/// `count` spaces in a row.
fn blank(count: usize) -> (text: String)
    ensures
        text@ == spaces(count as nat),
{
    let mut text = String::new();
    let mut written: usize = 0;
    proof {
        reveal_strlit(" ");
    }
    while written < count
        invariant
            written <= count,
            text@ =~= spaces(written as nat),
            " "@ =~= seq![' '],
        decreases count - written,
    {
        text.append(" ");
        written = written + 1;
    }
    text
}

/// Fill `text` up with spaces on the right to `width` characters.
pub fn left_aligned(text: &str, width: usize) -> (padded: String)
    ensures
        padded@ == pad_right(text@, width as nat),
{
    let mut padded = String::from_str(text);
    let length = text.unicode_len();
    if length < width {
        let fill = blank(width - length);
        padded.append(fill.as_str());
    }
    padded
}

/// Fill `text` up with spaces on the left to `width` characters.
pub fn right_aligned(text: &str, width: usize) -> (padded: String)
    ensures
        padded@ == pad_left(text@, width as nat),
{
    let length = text.unicode_len();
    if length < width {
        let mut padded = blank(width - length);
        padded.append(text);
        padded
    } else {
        String::from_str(text)
    }
}

/// Whether the name `a` comes no later than `b`.
pub fn name_at_or_before(a: &str, b: &str) -> (ordered: bool)
    ensures
        ordered == names_ordered(a@, b@),
{
    let left = a.as_bytes();
    let right = b.as_bytes();
    let mut at: usize = 0;
    assert(left@.skip(0) =~= left@);
    assert(right@.skip(0) =~= right@);
    while at < left.len() && at < right.len() && left[at] == right[at]
        invariant
            at <= left.len(),
            at <= right.len(),
            bytes_ordered(left@, right@) == bytes_ordered(
                left@.skip(at as int),
                right@.skip(at as int),
            ),
        decreases left.len() - at,
    {
        assert(left@.skip(at as int).drop_first() =~= left@.skip(at + 1));
        assert(right@.skip(at as int).drop_first() =~= right@.skip(at + 1));
        at = at + 1;
    }
    if at == left.len() {
        true
    } else if at == right.len() {
        false
    } else {
        left[at] < right[at]
    }
}

proof fn lemma_bytes_total(a: Seq<u8>, b: Seq<u8>)
    ensures
        bytes_ordered(a, b) || bytes_ordered(b, a),
    decreases a.len(),
{
    if a.len() > 0 && b.len() > 0 && a[0] == b[0] {
        lemma_bytes_total(a.drop_first(), b.drop_first());
    }
}

proof fn lemma_bytes_transitive(a: Seq<u8>, b: Seq<u8>, c: Seq<u8>)
    requires
        bytes_ordered(a, b),
        bytes_ordered(b, c),
    ensures
        bytes_ordered(a, c),
    decreases a.len(),
{
    if a.len() > 0 && b.len() > 0 && c.len() > 0 && a[0] == b[0] && b[0] == c[0] {
        lemma_bytes_transitive(a.drop_first(), b.drop_first(), c.drop_first());
    }
}

/// Of two names one comes no later than the other.
pub proof fn name_order_is_total(a: Seq<char>, b: Seq<char>)
    ensures
        names_ordered(a, b) || names_ordered(b, a),
{
    lemma_bytes_total(vstd::utf8::encode_utf8(a), vstd::utf8::encode_utf8(b));
}

/// The order of names is transitive.
pub proof fn name_order_is_transitive(a: Seq<char>, b: Seq<char>, c: Seq<char>)
    requires
        names_ordered(a, b),
        names_ordered(b, c),
    ensures
        names_ordered(a, c),
{
    lemma_bytes_transitive(
        vstd::utf8::encode_utf8(a),
        vstd::utf8::encode_utf8(b),
        vstd::utf8::encode_utf8(c),
    );
}

proof fn lemma_bytes_antisymmetric(a: Seq<u8>, b: Seq<u8>)
    requires
        bytes_ordered(a, b),
        bytes_ordered(b, a),
    ensures
        a == b,
    decreases a.len(),
{
    if a.len() > 0 {
        lemma_bytes_antisymmetric(a.drop_first(), b.drop_first());
        assert(a =~= seq![a[0]] + a.drop_first());
        assert(b =~= seq![b[0]] + b.drop_first());
    }
    assert(a =~= b);
}

/// Two names that come no later than each other are the same.
pub proof fn name_order_is_antisymmetric(a: Seq<char>, b: Seq<char>)
    requires
        names_ordered(a, b),
        names_ordered(b, a),
    ensures
        a == b,
{
    lemma_bytes_antisymmetric(vstd::utf8::encode_utf8(a), vstd::utf8::encode_utf8(b));
    vstd::utf8::encode_utf8_decode_utf8(a);
    vstd::utf8::encode_utf8_decode_utf8(b);
}

/// The number that decimal digits spell.
pub open spec fn spelled(digits: Seq<char>) -> int
    decreases digits.len(),
{
    if digits.len() == 0 {
        0
    } else {
        spelled(digits.drop_last()) * 10 + (digits.last() as int - '0' as int)
    }
}

/// The text of a number is decimal digits that spell it, with no zero in front of others.
pub proof fn decimal_spells_the_number(value: nat)
    ensures
        spelled(decimal(value)) == value,
        decimal(value).len() > 0,
        forall|i: int| 0 <= i < decimal(value).len() ==> '0' <= #[trigger] decimal(value)[i] <= '9',
        decimal(value).len() > 1 ==> decimal(value)[0] != '0',
    decreases value,
{
    reveal_with_fuel(spelled, 2);
    if value < 10 {
        assert(decimal(value).drop_last() =~= Seq::<char>::empty());
    } else {
        decimal_spells_the_number(value / 10);
        assert(decimal(value).drop_last() =~= decimal(value / 10));
        if decimal(value / 10).len() == 1 {
            assert(decimal(value / 10).drop_last() =~= Seq::<char>::empty());
        }
    }
}

/// Padding makes a text that is too short as wide as asked, by spaces behind it or before it,
/// and leaves any other as it is.
pub proof fn padding_fills_with_spaces(text: Seq<char>, width: nat)
    ensures
        pad_right(text, width).len() == if text.len() < width {
            width
        } else {
            text.len()
        },
        pad_right(text, width).take(text.len() as int) == text,
        forall|i: int|
            text.len() <= i < pad_right(text, width).len() ==> #[trigger] pad_right(text, width)[i]
                == ' ',
        pad_left(text, width).len() == pad_right(text, width).len(),
        pad_left(text, width).skip(pad_left(text, width).len() - text.len()) == text,
        forall|i: int|
            0 <= i < pad_left(text, width).len() - text.len() ==> #[trigger] pad_left(
                text,
                width,
            )[i] == ' ',
{
    assert(pad_right(text, width).take(text.len() as int) =~= text);
    assert(pad_left(text, width).skip(pad_left(text, width).len() - text.len()) =~= text);
}

/// The first byte in which two byte strings differ decides which comes first, and of two that
/// differ in none the shorter does.
pub proof fn first_difference_orders(a: Seq<u8>, b: Seq<u8>, common: int)
    requires
        0 <= common <= a.len(),
        common <= b.len(),
        forall|i: int| 0 <= i < common ==> #[trigger] a[i] == b[i],
    ensures
        common < a.len() && common < b.len() && a[common] != b[common] ==> (bytes_ordered(a, b)
            <==> a[common] < b[common]),
        common == a.len() ==> bytes_ordered(a, b),
        common == b.len() && common < a.len() ==> !bytes_ordered(a, b),
    decreases common,
{
    if common > 0 {
        assert(a[0] == b[0]);
        let (rest, other) = (a.drop_first(), b.drop_first());
        assert forall|i: int| 0 <= i < common - 1 implies #[trigger] rest[i] == other[i] by {
            assert(a[i + 1] == b[i + 1]);
        }
        first_difference_orders(rest, other, common - 1);
        if common < a.len() {
            assert(rest[common - 1] == a[common]);
        }
        if common < b.len() {
            assert(other[common - 1] == b[common]);
        }
    }
}

} // verus!
