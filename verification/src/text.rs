//! Numbers as text.
use vstd::prelude::*;
use vstd::string::{StrSliceExecFns, StringExecFns};

verus! {

/// The character of a digit.
pub open spec fn digit(d: int) -> char {
    (d + '0' as int) as char
}

/// A number in decimal notation.
pub open spec fn digits(n: nat) -> Seq<char>
    decreases n,
{
    if n < 10 {
        seq![digit(n as int)]
    } else {
        digits(n / 10).push(digit(n as int % 10))
    }
}

fn digit_text(d: u64) -> (r: &'static str)
    requires
        d < 10,
    ensures
        r@ == seq![digit(d as int)],
{
    proof {
        reveal_strlit("0");
        reveal_strlit("1");
        reveal_strlit("2");
        reveal_strlit("3");
        reveal_strlit("4");
        reveal_strlit("5");
        reveal_strlit("6");
        reveal_strlit("7");
        reveal_strlit("8");
        reveal_strlit("9");
    }
    let text: &'static str = match d {
        0 => "0",
        1 => "1",
        2 => "2",
        3 => "3",
        4 => "4",
        5 => "5",
        6 => "6",
        7 => "7",
        8 => "8",
        _ => "9",
    };
    assert(text@ =~= seq![digit(d as int)]);
    text
}

/// A number in decimal notation.
pub fn decimal(n: u64) -> (r: String)
    ensures
        r@ == digits(n as nat),
    decreases n,
{
    if n < 10 {
        digit_text(n).to_owned()
    } else {
        let mut text: String = decimal(n / 10);
        text.append(digit_text(n % 10));
        assert(text@ =~= digits(n as nat));
        text
    }
}

/// The value of a digit, if the character is one.
pub open spec fn digit_value(c: char) -> Option<int> {
    if '0' <= c <= '9' {
        Some(c as int - '0' as int)
    } else {
        None
    }
}

/// The value of a string of digits, if it is one; the empty string counts as zero.
pub open spec fn digits_value(text: Seq<char>) -> Option<int>
    decreases text.len(),
{
    if text.len() == 0 {
        Some(0)
    } else {
        match (digits_value(text.drop_last()), digit_value(text.last())) {
            (Some(high), Some(low)) => Some(high * 10 + low),
            _ => None,
        }
    }
}

/// The value of at least one digit after an optional sign, if the text is that.
pub open spec fn whole_value(text: Seq<char>) -> Option<int> {
    if text.len() == 0 {
        None
    } else if text[0] == '+' || text[0] == '-' {
        match digits_value(text.skip(1)) {
            Some(value) if text.len() > 1 => Some(
                if text[0] == '-' {
                    -value
                } else {
                    value
                },
            ),
            _ => None,
        }
    } else {
        digits_value(text)
    }
}

proof fn lemma_digits_nonnegative(text: Seq<char>)
    ensures
        digits_value(text) matches Some(value) ==> value >= 0,
    decreases text.len(),
{
    if text.len() > 0 {
        lemma_digits_nonnegative(text.drop_last());
    }
}

/// A number has at least the value of its leading digits.
proof fn lemma_digits_prefix(text: Seq<char>, length: int)
    requires
        0 <= length <= text.len(),
        digits_value(text) is Some,
    ensures
        digits_value(text.take(length)) is Some,
        digits_value(text.take(length))->0 <= digits_value(text)->0,
    decreases text.len(),
{
    if length == text.len() {
        assert(text.take(length) =~= text);
    } else {
        let shorter = text.drop_last();
        assert(shorter.take(length) =~= text.take(length));
        lemma_digits_nonnegative(shorter);
        lemma_digits_prefix(shorter, length);
    }
}

/// The value of a text of digits from `start` on, as long as it is at most `limit`.
fn digits_from(text: &str, start: usize, limit: u64) -> (r: Option<u64>)
    requires
        start <= text@.len(),
        limit <= 0x8000_0000_0000_0000,
    ensures
        r == match digits_value(text@.skip(start as int)) {
            Some(value) if value <= limit => Some(value as u64),
            _ => None,
        },
{
    let length: usize = text.unicode_len();
    let ghost all = text@.skip(start as int);
    let mut i: usize = start;
    let mut value: u64 = 0;
    assert(all.take(0) =~= Seq::empty());
    while i < length
        invariant
            start <= i <= length,
            length == text@.len(),
            all == text@.skip(start as int),
            value <= limit,
            limit <= 0x8000_0000_0000_0000,
            digits_value(all.take(i - start)) == Some(value as int),
        decreases length - i,
    {
        let c: char = text.get_char(i);
        let ghost now = all.take(i + 1 - start);
        proof {
            assert(now.drop_last() =~= all.take(i - start));
            assert(now.last() == c);
            if digits_value(all) is Some {
                lemma_digits_prefix(all, i + 1 - start);
            }
        }
        if c < '0' || c > '9' {
            return None;
        }
        let low: u64 = c as u64 - '0' as u64;
        if value as u128 * 10 + low as u128 > limit as u128 {
            return None;
        }
        value = value * 10 + low;
        i = i + 1;
    }
    assert(all.take(length - start) =~= all);
    Some(value)
}

/// The integer that a text denotes: an optional sign and digits only, within the
/// range of signed words of 64 bits.
pub fn parse_whole(text: &str) -> (r: Option<i64>)
    ensures
        r == match whole_value(text@) {
            Some(value) if i64::MIN <= value <= i64::MAX => Some(value as i64),
            _ => None,
        },
{
    let length: usize = text.unicode_len();
    if length == 0 {
        return None;
    }
    let first: char = text.get_char(0);
    proof {
        lemma_digits_nonnegative(text@.skip(1));
        lemma_digits_nonnegative(text@);
    }
    if first == '-' {
        if length == 1 {
            return None;
        }
        match digits_from(text, 1, 0x8000_0000_0000_0000) {
            Some(value) => Some((-(value as i128)) as i64),
            None => None,
        }
    } else if first == '+' {
        if length == 1 {
            return None;
        }
        match digits_from(text, 1, 0x7fff_ffff_ffff_ffff) {
            Some(value) => Some(value as i64),
            None => None,
        }
    } else {
        assert(text@.skip(0) =~= text@);
        match digits_from(text, 0, 0x7fff_ffff_ffff_ffff) {
            Some(value) => Some(value as i64),
            None => None,
        }
    }
}

/// Decimal notation gives the number back when it is read.
pub proof fn lemma_digits_read_back(n: nat)
    ensures
        digits(n).len() > 0,
        digits_value(digits(n)) == Some(n as int),
        whole_value(digits(n)) == Some(n as int),
    decreases n,
{
    lemma_digits_plain(n);
    let text = digits(n);
    if n < 10 {
        assert(text.drop_last() =~= Seq::empty());
        reveal_with_fuel(digits_value, 2);
    } else {
        lemma_digits_read_back(n / 10);
        assert(text.drop_last() =~= digits(n / 10));
    }
}

/// Decimal notation starts with a digit.
proof fn lemma_digits_plain(n: nat)
    ensures
        digits(n).len() > 0,
        '0' <= digits(n)[0] <= '9',
    decreases n,
{
    if n >= 10 {
        lemma_digits_plain(n / 10);
    }
}

} // verus!
