//! Unsigned decimal numbers as text.
use crate::text::chars_of;
use vstd::prelude::*;

verus! {

/// Why a text is not a number.
#[derive(Clone, Copy, Debug, PartialEq, Eq, Structural)]
pub enum NumberError {
    /// There is no text.
    Empty,
    /// A character is not a digit.
    InvalidDigit,
    /// The digits make up a number above the limit.
    TooLarge,
}

/// Whether `c` is a decimal digit.
pub open spec fn is_digit(c: char) -> bool {
    '0' <= c <= '9'
}

/// What a decimal digit stands for.
pub open spec fn digit_value(c: char) -> nat {
    (c as int - '0' as int) as nat
}

/// The number that a row of digits makes up.
pub open spec fn digits_value(digits: Seq<char>) -> nat
    decreases digits.len(),
{
    if digits.len() == 0 {
        0
    } else {
        digits_value(digits.drop_last()) * 10 + digit_value(digits.last())
    }
}

/// How many digits `text` starts with.
pub open spec fn digit_run(text: Seq<char>) -> nat
    decreases text.len(),
{
    if text.len() > 0 && is_digit(text[0]) {
        1 + digit_run(text.drop_first())
    } else {
        0
    }
}

/// `text` without a leading plus sign. A plus sign that stands alone is kept.
pub open spec fn unsigned_text(text: Seq<char>) -> Seq<char> {
    if text.len() > 1 && text[0] == '+' {
        text.drop_first()
    } else {
        text
    }
}

/// The number that `text` denotes: digits, after a plus sign if there is one. Where digits that
/// are too many come before a character that is none, the number is too large.
pub open spec fn read_number(text: Seq<char>, max: nat) -> Result<nat, NumberError> {
    let body = unsigned_text(text);
    let run = digit_run(body);
    if text.len() == 0 {
        Err(NumberError::Empty)
    } else if digits_value(body.take(run as int)) > max {
        Err(NumberError::TooLarge)
    } else if run < body.len() {
        Err(NumberError::InvalidDigit)
    } else {
        Ok(digits_value(body))
    }
}

/// What is said of a text that is not a number.
pub open spec fn number_error_text(error: NumberError) -> Seq<char> {
    match error {
        NumberError::Empty => "cannot parse integer from empty string"@,
        NumberError::InvalidDigit => "invalid digit found in string"@,
        NumberError::TooLarge => "number too large to fit in target type"@,
    }
}

impl NumberError {
    /// What is said of a text that is not a number.
    pub fn message(&self) -> (text: &'static str)
        ensures
            text@ == number_error_text(*self),
    {
        match self {
            NumberError::Empty => "cannot parse integer from empty string",
            NumberError::InvalidDigit => "invalid digit found in string",
            NumberError::TooLarge => "number too large to fit in target type",
        }
    }
}

/// The run of digits is as long as there are digits from the start on.
pub proof fn lemma_digit_run(text: Seq<char>, n: int)
    requires
        0 <= n <= text.len(),
        forall|j: int| 0 <= j < n ==> is_digit(#[trigger] text[j]),
        n < text.len() ==> !is_digit(text[n]),
    ensures
        digit_run(text) == n,
    decreases n,
{
    if n > 0 {
        let rest = text.drop_first();
        assert(is_digit(text[0]));
        assert forall|j: int| 0 <= j < n - 1 implies is_digit(#[trigger] rest[j]) by {
            assert(rest[j] == text[j + 1]);
        }
        lemma_digit_run(rest, n - 1);
    }
}

/// The run of digits holds digits, and what follows it is none.
pub proof fn lemma_digit_run_bounds(text: Seq<char>)
    ensures
        digit_run(text) <= text.len(),
        forall|j: int| 0 <= j < digit_run(text) ==> is_digit(#[trigger] text[j]),
        digit_run(text) < text.len() ==> !is_digit(text[digit_run(text) as int]),
    decreases text.len(),
{
    if text.len() > 0 && is_digit(text[0]) {
        let rest = text.drop_first();
        lemma_digit_run_bounds(rest);
        assert forall|j: int| 0 <= j < digit_run(text) implies is_digit(#[trigger] text[j]) by {
            if j > 0 {
                assert(text[j] == rest[j - 1]);
            }
        }
    }
}

/// More digits make no smaller number.
proof fn lemma_value_grows(digits: Seq<char>, n: int)
    requires
        0 <= n <= digits.len(),
    ensures
        digits_value(digits.take(n)) <= digits_value(digits),
    decreases digits.len() - n,
{
    if n == digits.len() {
        assert(digits.take(n) =~= digits);
    } else {
        let longer = digits.take(n + 1);
        assert(longer.drop_last() =~= digits.take(n));
        lemma_value_grows(digits, n + 1);
    }
}

/// Reads an unsigned decimal number of at most `max`.
pub fn parse_number(text: &str, max: u64) -> (number: Result<u64, NumberError>)
    ensures
        match number {
            Ok(n) => read_number(text@, max as nat) == Ok::<nat, NumberError>(n as nat),
            Err(e) => read_number(text@, max as nat) == Err::<nat, NumberError>(e),
        },
{
    let chars = chars_of(text);
    if chars.len() == 0 {
        return Err(NumberError::Empty);
    }
    let start: usize = if chars.len() > 1 && chars[0] == '+' {
        1
    } else {
        0
    };
    let ghost body = unsigned_text(text@);
    assert(body =~= chars@.skip(start as int));
    let ghost run = digit_run(body);
    proof {
        lemma_digit_run_bounds(body);
    }
    let mut value: u64 = 0;
    let mut i: usize = start;
    assert(body.take(0) =~= Seq::<char>::empty());
    while i < chars.len()
        invariant
            start <= i <= chars@.len(),
            text@.len() > 0,
            text@ == chars@,
            body == unsigned_text(text@),
            body == chars@.skip(start as int),
            run == digit_run(body),
            value <= max,
            value == digits_value(body.take(i - start)),
            forall|j: int| 0 <= j < i - start ==> is_digit(#[trigger] body[j]),
        decreases chars@.len() - i,
    {
        let c = chars[i];
        let ghost at = (i - start) as int;
        assert(body[at] == c);
        if c < '0' || c > '9' {
            proof {
                lemma_digit_run(body, at);
            }
            return Err(NumberError::InvalidDigit);
        }
        let digit: u64 = (c as u32 - '0' as u32) as u64;
        proof {
            assert(body.take(at + 1).drop_last() =~= body.take(at));
            assert(body.take(at + 1).last() == c);
        }
        if value > max / 10 || digit > max - value * 10 {
            proof {
                assert(digits_value(body.take(at + 1)) > max);
                lemma_digit_run_bounds(body);
                if run <= at {
                    assert(is_digit(body[run as int]));
                }
                assert(body.take(run as int).take(at + 1) =~= body.take(at + 1));
                lemma_value_grows(body.take(run as int), at + 1);
            }
            return Err(NumberError::TooLarge);
        }
        value = value * 10 + digit;
        i = i + 1;
    }
    proof {
        lemma_digit_run(body, body.len() as int);
        assert(body.take(body.len() as int) =~= body);
    }
    Ok(value)
}

/// The shortest row of digits that makes up `n`.
pub open spec fn decimal(n: nat) -> Seq<char>
    decreases n,
{
    if n < 10 {
        seq![digit_char(n)]
    } else {
        decimal(n / 10).push(digit_char(n % 10))
    }
}

/// The digit that stands for `n`.
pub open spec fn digit_char(n: nat) -> char {
    (n + '0' as nat) as char
}

proof fn lemma_digit_char(n: nat)
    requires
        n < 10,
    ensures
        is_digit(digit_char(n)),
        digit_value(digit_char(n)) == n,
{
}

/// What `decimal` writes is digits, and they make up the number.
pub proof fn lemma_decimal(n: nat)
    ensures
        decimal(n).len() > 0,
        forall|i: int| 0 <= i < decimal(n).len() ==> is_digit(#[trigger] decimal(n)[i]),
        digits_value(decimal(n)) == n,
    decreases n,
{
    lemma_digit_char(n % 10);
    if n < 10 {
        assert(decimal(n).drop_last() =~= Seq::<char>::empty());
        assert(digits_value(decimal(n).drop_last()) == 0);
    } else {
        lemma_decimal(n / 10);
        assert(decimal(n).drop_last() =~= decimal(n / 10));
    }
}

/// The digits that make up a number are those that `decimal` writes, where no zero stands in front
/// of another digit.
pub proof fn lemma_decimal_unique(text: Seq<char>)
    requires
        text.len() > 0,
        text.len() > 1 ==> text[0] != '0',
        forall|i: int| 0 <= i < text.len() ==> is_digit(#[trigger] text[i]),
    ensures
        text == decimal(digits_value(text)),
    decreases text.len(),
{
    let less = text.drop_last();
    let last = text.last();
    assert(is_digit(last));
    assert(digit_char(digit_value(last)) == last);
    if text.len() == 1 {
        assert(less =~= Seq::<char>::empty());
        assert(digits_value(less) == 0);
        assert(text =~= seq![last]);
    } else {
        assert(less[0] == text[0]);
        assert forall|i: int| 0 <= i < less.len() implies is_digit(#[trigger] less[i]) by {
            assert(less[i] == text[i]);
        }
        lemma_decimal_unique(less);
        lemma_value_grows(less, 1);
        assert(is_digit(less[0]));
        assert(less.take(1).last() == less[0]);
        assert(digits_value(less.take(1)) >= 1);
        assert(text =~= less.push(last));
    }
}

/// How a number is read, character by character. Nothing is no number. A digit stands for itself. A
/// further digit makes it ten times the number and that digit; where that is above the limit, the
/// number is too large. Any other character is an invalid digit, and so is a plus sign that does
/// not stand in front; one in front changes nothing. What is wrong so far stays wrong.
pub proof fn law_number_reading(text: Seq<char>, c: char, max: nat)
    ensures
        read_number(Seq::empty(), max) == Err::<nat, NumberError>(NumberError::Empty),
        read_number(seq![c], max) == if '0' <= c <= '9' {
            if c as int - '0' as int > max {
                Err::<nat, NumberError>(NumberError::TooLarge)
            } else {
                Ok((c as int - '0' as int) as nat)
            }
        } else {
            Err(NumberError::InvalidDigit)
        },
        text.len() > 0 ==> read_number(text.push(c), max) == match read_number(text, max) {
            Ok(n) => if '0' <= c <= '9' {
                if 10 * n + (c as int - '0' as int) > max {
                    Err::<nat, NumberError>(NumberError::TooLarge)
                } else {
                    Ok((10 * n + (c as int - '0' as int)) as nat)
                }
            } else {
                Err(NumberError::InvalidDigit)
            },
            Err(why) => if text == seq!['+'] {
                read_number(seq![c], max)
            } else {
                Err(why)
            },
        },
{
    lemma_one_more(Seq::empty(), c);
    assert(Seq::<char>::empty().push(c) =~= seq![c]);
    assert(seq![c].take(1) =~= seq![c]);
    assert(seq![c].take(0) =~= Seq::<char>::empty());
    if text.len() > 0 {
        let longer = text.push(c);
        if text[0] == '+' && text.len() == 1 {
            assert(text =~= seq!['+']);
            assert(longer.drop_first() =~= seq![c]);
        } else {
            let body = unsigned_text(text);
            assert(unsigned_text(longer) =~= body.push(c));
            lemma_one_more(body, c);
            lemma_digit_run_bounds(body);
            let run = digit_run(body) as int;
            if run == body.len() {
                assert(body.take(run) =~= body);
                assert(body.push(c).take(run) =~= body);
                assert(body.push(c).take(run + 1) =~= body.push(c));
            } else {
                assert(body.push(c).take(run) =~= body.take(run));
            }
        }
    }
}

/// One more character makes the run of digits longer where all before it are digits and it is one.
proof fn lemma_one_more(body: Seq<char>, c: char)
    ensures
        digits_value(body.push(c)) == digits_value(body) * 10 + digit_value(c),
        digit_run(body.push(c)) == if digit_run(body) == body.len() && is_digit(c) {
            body.len() + 1
        } else {
            digit_run(body)
        },
{
    let longer = body.push(c);
    let run = digit_run(body) as int;
    assert(longer.drop_last() =~= body);
    lemma_digit_run_bounds(body);
    assert forall|j: int| 0 <= j < run implies is_digit(#[trigger] longer[j]) by {
        assert(longer[j] == body[j]);
    }
    if run == body.len() && is_digit(c) {
        lemma_digit_run(longer, run + 1);
    } else {
        lemma_digit_run(longer, run);
    }
}

/// A number up to the limit is read back from its decimal digits.
pub proof fn law_number_round_trip(n: nat, max: nat)
    requires
        n <= max,
    ensures
        read_number(decimal(n), max) == Ok::<nat, NumberError>(n),
{
    let text = decimal(n);
    lemma_decimal(n);
    assert(is_digit(text[0]));
    lemma_digit_run(text, text.len() as int);
    assert(text.take(text.len() as int) =~= text);
}

} // verus!
