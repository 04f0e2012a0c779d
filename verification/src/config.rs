//! Settings that come from the environment as text.

use vstd::prelude::*;
use vstd::string::*;

verus! {

/// The value of a decimal digit.
pub open spec fn digit_value(c: char) -> int {
    c as int - '0' as int
}

/// Whether `text` holds decimal digits only.
pub open spec fn all_digits(text: Seq<char>) -> bool {
    forall|i: int| 0 <= i < text.len() ==> '0' <= #[trigger] text[i] <= '9'
}

/// The number that decimal digits write.
pub open spec fn decimal_value(digits: Seq<char>) -> int
    decreases digits.len(),
{
    if digits.len() == 0 {
        0
    } else {
        10 * decimal_value(digits.drop_last()) + digit_value(digits.last())
    }
}

/// The digits of a number that may have a plus sign in front.
pub open spec fn unsigned_digits(text: Seq<char>) -> Seq<char> {
    if text.len() > 0 && text[0] == '+' {
        text.drop_first()
    } else {
        text
    }
}

/// The port number that `text` writes: decimal digits, at least one, with or
/// without a plus sign in front, and no more than a port can be.
pub open spec fn port_value(text: Seq<char>) -> Option<u16> {
    let digits = unsigned_digits(text);
    if digits.len() > 0 && all_digits(digits) && decimal_value(digits) <= u16::MAX {
        Some(decimal_value(digits) as u16)
    } else {
        None
    }
}

proof fn lemma_decimal_grows(digits: Seq<char>, n: int)
    requires
        all_digits(digits),
        0 <= n <= digits.len(),
    ensures
        0 <= decimal_value(digits.take(n)) <= decimal_value(digits),
    decreases digits.len(),
{
    if n == digits.len() {
        assert(digits.take(n) =~= digits);
        if n > 0 {
            let front = digits.drop_last();
            assert(front.take(n - 1) =~= front);
            assert forall|i: int| 0 <= i < front.len() implies '0' <= #[trigger] front[i]
                <= '9' by {
                assert(front[i] == digits[i]);
            }
            lemma_decimal_grows(front, n - 1);
            assert('0' <= digits[n - 1] <= '9');
        }
    } else {
        let front = digits.drop_last();
        assert forall|i: int| 0 <= i < front.len() implies '0' <= #[trigger] front[i] <= '9' by {
            assert(front[i] == digits[i]);
        }
        assert(front.take(n) =~= digits.take(n));
        lemma_decimal_grows(front, n);
        lemma_decimal_grows(front, front.len() as int);
        assert(front.take(front.len() as int) =~= front);
        assert('0' <= digits[digits.len() - 1] <= '9');
    }
}

/// Reads a port number.
pub fn parse_port(text: &str) -> (port: Option<u16>)
    ensures
        port == port_value(text@),
{
    let len: usize = text.unicode_len();
    let start: usize = if len > 0 && text.get_char(0) == '+' {
        1
    } else {
        0
    };
    let ghost digits = unsigned_digits(text@);
    assert(digits =~= text@.skip(start as int));
    if start == len {
        return None;
    }
    let mut value: u32 = 0;
    let mut i: usize = start;
    while i < len
        invariant
            start <= i <= len,
            len == text@.len(),
            digits == text@.skip(start as int),
            digits == unsigned_digits(text@),
            digits.len() > 0,
            value <= u16::MAX,
            value == decimal_value(digits.take(i - start)),
            all_digits(digits.take(i - start)),
        decreases len - i,
    {
        let c: char = text.get_char(i);
        let ghost done = digits.take(i - start);
        let ghost next = digits.take(i + 1 - start);
        assert(next.drop_last() =~= done);
        assert(next.last() == c);
        assert(digits[i - start] == c);
        if c < '0' || c > '9' {
            return None;
        }
        assert forall|k: int| 0 <= k < next.len() implies '0' <= #[trigger] next[k] <= '9' by {
            if k < done.len() {
                assert(next[k] == done[k]);
            }
        }
        value = 10 * value + (c as u32 - '0' as u32);
        if value > 65535 {
            proof {
                if all_digits(digits) {
                    lemma_decimal_grows(digits, i + 1 - start);
                }
            }
            return None;
        }
        i = i + 1;
    }
    assert(digits.take(len - start) =~= digits);
    Some(value as u16)
}

/// The port to listen on: the one that is set, if it is a port number, else the
/// default.
pub fn listen_port(setting: Option<String>, default: u16) -> (port: u16)
    ensures
        port == match setting {
            Some(text) => match port_value(text@) {
                Some(value) => value,
                None => default,
            },
            None => default,
        },
{
    match setting {
        Some(text) => match parse_port(text.as_str()) {
            Some(port) => port,
            None => default,
        },
        None => default,
    }
}

/// The port of the matcher when none is set.
pub const MATCHER_PORT: u16 = 3001;

/// The port of an API server when none is set.
pub const API_PORT: u16 = 3000;

/// Where the matcher is looked for: where the setting says, else on this machine.
pub fn matcher_base(setting: Option<String>) -> (base: String)
    ensures
        base@ == match setting {
            Some(text) => text@,
            None => "http://127.0.0.1:3001"@,
        },
{
    match setting {
        Some(text) => text,
        None => "http://127.0.0.1:3001".to_owned(),
    }
}

proof fn lemma_digits_pushed(text: Seq<char>, c: char)
    ensures
        unsigned_digits(text).len() > 0 ==> unsigned_digits(text.push(c)) == unsigned_digits(
            text,
        ).push(c),
        text.len() == 0 && c != '+' ==> unsigned_digits(text.push(c)) == seq![c],
        text == seq!['+'] ==> unsigned_digits(text.push(c)) == seq![c],
        text.len() == 0 && c == '+' ==> unsigned_digits(text.push(c)).len() == 0,
        all_digits(seq![c]) == ('0' <= c <= '9'),
        all_digits(unsigned_digits(text).push(c)) == (all_digits(unsigned_digits(text)) && '0' <= c
            <= '9'),
        decimal_value(unsigned_digits(text).push(c)) == 10 * decimal_value(unsigned_digits(text))
            + (c as int - '0' as int),
        decimal_value(seq![c]) == c as int - '0' as int,
{
    let digits = unsigned_digits(text);
    let longer = digits.push(c);
    assert(longer.drop_last() =~= digits);
    assert(seq![c].drop_last() =~= Seq::<char>::empty());
    assert(decimal_value(seq![c].drop_last()) == 0);
    assert(seq![c].last() == c);
    if digits.len() > 0 {
        assert(unsigned_digits(text.push(c)) =~= longer);
    }
    if text.len() == 0 && c != '+' {
        assert(unsigned_digits(text.push(c)) =~= seq![c]);
    }
    if text == seq!['+'] {
        assert(unsigned_digits(text.push(c)) =~= seq![c]);
    }
    if all_digits(longer) {
        assert('0' <= longer[digits.len() as int] <= '9');
        assert forall|i: int| 0 <= i < digits.len() implies '0' <= #[trigger] digits[i] <= '9' by {
            assert(longer[i] == digits[i]);
        }
    }
    if all_digits(digits) && '0' <= c <= '9' {
        assert forall|i: int| 0 <= i < longer.len() implies '0' <= #[trigger] longer[i] <= '9' by {
            if i < digits.len() {
                assert(longer[i] == digits[i]);
            }
        }
    }
    if all_digits(seq![c]) {
        assert('0' <= seq![c][0] <= '9');
    }
}

/// A digit, with or without a plus sign in front, is the port of its value; nothing
/// and a lone plus sign are no port.
pub proof fn ports_begin_with_a_digit(c: char)
    requires
        '0' <= c <= '9',
    ensures
        port_value(seq![c]) == Some((c as int - '0' as int) as u16),
        port_value(seq!['+', c]) == Some((c as int - '0' as int) as u16),
        port_value(Seq::<char>::empty()) is None,
        port_value(seq!['+']) is None,
{
    lemma_digits_pushed(Seq::<char>::empty(), c);
    lemma_digits_pushed(seq!['+'], c);
    assert(Seq::<char>::empty().push(c) =~= seq![c]);
    assert(seq!['+'].push(c) =~= seq!['+', c]);
    assert(all_digits(seq![c]));
}

/// One more digit makes a port ten times as large, and adds the digit; a number too
/// large for a port is none.
pub proof fn ports_grow_by_digits(text: Seq<char>, c: char)
    requires
        '0' <= c <= '9',
        port_value(text) is Some,
    ensures
        ({
            let value = 10 * port_value(text)->Some_0 + (c as int - '0' as int);
            &&& value <= 65535 ==> port_value(text.push(c)) == Some(value as u16)
            &&& value > 65535 ==> port_value(text.push(c)) is None
        }),
{
    lemma_digits_pushed(text, c);
    lemma_decimal_grows(unsigned_digits(text), 0);
    assert(unsigned_digits(text).take(0) =~= Seq::<char>::empty());
}

/// What is no port never becomes one by more characters, but for nothing and a lone
/// plus sign; and nothing that ends in anything but a digit is a port.
pub proof fn other_texts_are_no_ports(text: Seq<char>, c: char)
    ensures
        port_value(text) is None && text.len() > 0 && text != seq!['+'] ==> port_value(
            text.push(c),
        ) is None,
        !('0' <= c <= '9') ==> port_value(text.push(c)) is None,
{
    let digits = unsigned_digits(text);
    lemma_digits_pushed(text, c);
    if digits.len() == 0 && text.len() > 0 {
        assert(text =~= seq!['+']);
    }
    if digits.len() > 0 && all_digits(digits) {
        lemma_decimal_grows(digits, digits.len() as int);
    }
    if text.len() == 0 {
        if c == '+' {
            assert(unsigned_digits(text.push(c)).len() == 0);
        } else {
            assert(!('0' <= c <= '9') ==> !all_digits(seq![c]));
        }
    }
}

/// A port that is set is listened on, and anything else that is set, or nothing, leaves
/// the default.
pub proof fn set_ports_are_listened_on(setting: String, default: u16, set: u16, unset: u16)
    requires
        call_ensures(listen_port, (Some(setting), default), set),
        call_ensures(listen_port, (None, default), unset),
    ensures
        port_value(setting@) is Some ==> set == port_value(setting@)->Some_0,
        port_value(setting@) is None ==> set == default,
        unset == default,
{
}

} // verus!
