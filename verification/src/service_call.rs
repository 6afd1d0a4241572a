//! How a service call is set up from the environment, and the one line that
//! tells how it went.
use crate::text::{chars_of, join2, push_char};
use vstd::prelude::*;

verus! {

/// The time to wait for a response, in seconds, where nothing else is said.
pub const CALL_TIMEOUT_S: u64 = 30;

/// The time to wait for the service, in seconds, where nothing else is said.
pub const WAIT_AVAILABLE_S: u64 = 20;

/// Whether the character is a decimal digit.
pub open spec fn is_digit(c: char) -> bool {
    '0' <= c && c <= '9'
}

/// The number that decimal digits write.
pub open spec fn value_of(digits: Seq<char>) -> nat
    decreases digits.len(),
{
    if digits.len() == 0 {
        0
    } else {
        (value_of(digits.drop_last()) * 10 + (digits.last() as int - '0' as int)) as nat
    }
}

/// The digits of a number with or without a plus sign.
pub open spec fn unsigned_part(text: Seq<char>) -> Seq<char> {
    if text.len() > 0 && text[0] == '+' {
        text.skip(1)
    } else {
        text
    }
}

/// The number that the text writes: one digit or more, and a plus sign in front
/// where there is one.
pub open spec fn number_in(text: Seq<char>) -> Option<u64> {
    let digits = unsigned_part(text);
    if digits.len() > 0 && (forall|i: int| 0 <= i < digits.len() ==> is_digit(#[trigger] digits[i]))
        && value_of(digits) <= u64::MAX {
        Some(value_of(digits) as u64)
    } else {
        None
    }
}

/// The decimal digits of a number.
pub open spec fn decimal(n: nat) -> Seq<char>
    decreases n,
{
    if n < 10 {
        seq![(48 + n) as char]
    } else {
        decimal(n / 10).push((48 + n % 10) as char)
    }
}

/// The text of a number, with a minus sign where it is negative.
pub open spec fn signed_decimal(n: int) -> Seq<char> {
    if n < 0 {
        seq!['-'] + decimal((-n) as nat)
    } else {
        decimal(n as nat)
    }
}

proof fn lemma_value_grows(digits: Seq<char>, k: int)
    requires
        0 <= k <= digits.len(),
        forall|i: int| 0 <= i < digits.len() ==> is_digit(#[trigger] digits[i]),
    ensures
        value_of(digits.take(k)) <= value_of(digits),
    decreases digits.len(),
{
    if k < digits.len() {
        let rest = digits.drop_last();
        assert forall|i: int| 0 <= i < rest.len() implies is_digit(#[trigger] rest[i]) by {
            assert(rest[i] == digits[i]);
        }
        lemma_value_grows(rest, k);
        assert(rest.take(k) =~= digits.take(k));
        assert(is_digit(digits[digits.len() - 1]));
    } else {
        assert(digits.take(k) =~= digits);
    }
}

/// The number that the text writes, if it writes one that fits.
pub fn parse_u64(text: &str) -> (r: Option<u64>)
    ensures
        r == number_in(text@),
{
    let chars = chars_of(text);
    let n: usize = chars.len();
    let start: usize = if n > 0 && chars[0] == '+' {
        1
    } else {
        0
    };
    let ghost digits = unsigned_part(text@);
    assert(digits =~= chars@.skip(start as int));
    if n == start {
        return None;
    }
    let mut value: u64 = 0;
    for i in start..n
        invariant
            n == chars@.len(),
            start <= 1,
            start < n,
            digits == unsigned_part(text@),
            digits == chars@.skip(start as int),
            value == value_of(digits.take(i - start)),
            forall|j: int| 0 <= j < i - start ==> is_digit(#[trigger] digits[j]),
    {
        let c = chars[i];
        let ghost k = i - start;
        assert(digits[k] == c);
        if !(c >= '0' && c <= '9') {
            return None;
        }
        let digit: u64 = c as u64 - 48;
        proof {
            assert(digits.take(k + 1).drop_last() =~= digits.take(k));
            assert(digits.take(k + 1).last() == c);
            assert(value_of(digits.take(k + 1)) == value * 10 + digit);
        }
        if value > (u64::MAX - digit) / 10 {
            proof {
                assert(value * 10 + digit > u64::MAX);
                if forall|j: int| 0 <= j < digits.len() ==> is_digit(#[trigger] digits[j]) {
                    lemma_value_grows(digits, k + 1);
                }
            }
            return None;
        }
        value = value * 10 + digit;
    }
    assert(digits.take(n - start) =~= digits);
    Some(value)
}

/// The number in a variable of the environment, or the default where it is not
/// set or holds no number.
pub fn env_u64(variable: Option<&str>, default: u64) -> (r: u64)
    ensures
        r == (match variable {
            Some(text) => match number_in(text@) {
                Some(n) => n,
                None => default,
            },
            None => default,
        }),
{
    match variable {
        Some(text) => match parse_u64(text) {
            Some(n) => n,
            None => default,
        },
        None => default,
    }
}

/// How a service call went.
#[derive(Debug)]
pub enum CallOutcome {
    /// The service did not become available.
    Unavailable,
    /// The response came, with this sum.
    Response(i64),
    /// No response came in time.
    Timeout,
    /// The call failed.
    Failed(String),
}

/// The line that tells how the call went.
pub open spec fn verdict(outcome: CallOutcome) -> Seq<char> {
    match outcome {
        CallOutcome::Unavailable => "CALLER_SERVICE_UNAVAILABLE"@,
        CallOutcome::Response(sum) => "CALLER_GOT_RESPONSE sum="@ + signed_decimal(sum as int),
        CallOutcome::Timeout => "CALLER_TIMEOUT"@,
        CallOutcome::Failed(e) => "CALLER_ERROR "@ + e@,
    }
}

fn decimal_of(n: u64) -> (r: String)
    ensures
        r@ == decimal(n as nat),
    decreases n,
{
    if n < 10 {
        let mut r: String = String::new();
        push_char(&mut r, (48 + n as u8) as char);
        assert(r@ =~= decimal(n as nat));
        r
    } else {
        let mut r = decimal_of(n / 10);
        push_char(&mut r, (48 + (n % 10) as u8) as char);
        r
    }
}

/// The line that tells how the call went.
pub fn verdict_line(outcome: &CallOutcome) -> (r: String)
    ensures
        r@ == verdict(*outcome),
{
    match outcome {
        CallOutcome::Unavailable => "CALLER_SERVICE_UNAVAILABLE".to_owned(),
        CallOutcome::Response(sum) => {
            let text = if *sum < 0 {
                let above: i64 = -(*sum + 1);
                join2("-", &decimal_of(above as u64 + 1))
            } else {
                decimal_of(*sum as u64)
            };
            proof {
                reveal_strlit("-");
                assert("-"@ =~= seq!['-']);
            }
            join2("CALLER_GOT_RESPONSE sum=", &text)
        },
        CallOutcome::Timeout => "CALLER_TIMEOUT".to_owned(),
        CallOutcome::Failed(e) => join2("CALLER_ERROR ", e),
    }
}

/// The exit code of the caller: it gives up on a service that is not available.
pub fn exit_code(outcome: &CallOutcome) -> (r: i32)
    ensures
        r == (if *outcome is Unavailable {
            2i32
        } else {
            0i32
        }),
{
    match outcome {
        CallOutcome::Unavailable => 2,
        _ => 0,
    }
}

proof fn lemma_decimal(n: nat)
    ensures
        decimal(n).len() > 0,
        forall|i: int| 0 <= i < decimal(n).len() ==> is_digit(#[trigger] decimal(n)[i]),
        value_of(decimal(n)) == n,
    decreases n,
{
    if n < 10 {
        assert(decimal(n).drop_last() =~= Seq::empty());
        assert(value_of(Seq::<char>::empty()) == 0);
    } else {
        lemma_decimal(n / 10);
        assert(decimal(n).drop_last() =~= decimal(n / 10));
    }
}

/// A number that is written in decimal digits is read back as it was.
pub proof fn law_decimal_is_read_back(n: u64)
    ensures
        number_in(decimal(n as nat)) == Some(n),
{
    lemma_decimal(n as nat);
    assert(is_digit(decimal(n as nat)[0]));
}

/// The lines of two different sums differ.
pub proof fn law_sums_are_told_apart(a: i64, b: i64)
    requires
        verdict(CallOutcome::Response(a)) == verdict(CallOutcome::Response(b)),
    ensures
        a == b,
{
    let head = "CALLER_GOT_RESPONSE sum="@;
    let x = signed_decimal(a as int);
    let y = signed_decimal(b as int);
    assert(x =~= (head + x).skip(head.len() as int));
    assert(y =~= (head + y).skip(head.len() as int));
    lemma_decimal(if a < 0 {
        -a
    } else {
        a as int
    } as nat);
    lemma_decimal(if b < 0 {
        -b
    } else {
        b as int
    } as nat);
    if a < 0 {
        assert(x[0] == '-');
        assert(decimal((-a) as nat) =~= x.skip(1));
    } else {
        assert(is_digit(x[0]));
    }
    if b < 0 {
        assert(y[0] == '-');
        assert(decimal((-b) as nat) =~= y.skip(1));
    } else {
        assert(is_digit(y[0]));
    }
}

/// A plus sign in front makes no difference.
pub proof fn law_plus_sign_is_read_over(n: u64)
    ensures
        number_in(seq!['+'] + decimal(n as nat)) == Some(n),
{
    lemma_decimal(n as nat);
    let text = seq!['+'] + decimal(n as nat);
    assert(text.skip(1) =~= decimal(n as nat));
}

/// What is empty, or holds anything but digits behind a plus sign, is no number, and
/// neither is what does not fit.
pub proof fn law_other_texts_are_no_numbers(text: Seq<char>, i: int, n: nat)
    ensures
        text.len() == 0 ==> number_in(text) is None,
        1 <= i < text.len() && !('0' <= text[i] && text[i] <= '9') ==> number_in(text) is None,
        text.len() > 0 && text[0] != '+' && !('0' <= text[0] && text[0] <= '9') ==> number_in(text)
            is None,
        number_in(seq!['+']) is None,
        n > u64::MAX ==> number_in(decimal(n)) is None,
{
    let digits = unsigned_part(text);
    if 1 <= i < text.len() && !('0' <= text[i] && text[i] <= '9') {
        if text[0] == '+' {
            assert(digits[i - 1] == text[i]);
            assert(!is_digit(digits[i - 1]));
        } else {
            assert(!is_digit(digits[i]));
        }
    }
    if text.len() > 0 && text[0] != '+' && !('0' <= text[0] && text[0] <= '9') {
        assert(!is_digit(digits[0]));
    }
    assert(seq!['+'].skip(1) =~= Seq::empty());
    lemma_decimal(n);
    assert(is_digit(decimal(n)[0]));
    assert(unsigned_part(decimal(n)) == decimal(n));
}

/// Each outcome is told by a line of its own kind, and an error by its text.
pub proof fn law_outcomes_are_told_apart(outcome: CallOutcome, sum: i64, text: String)
    ensures
        verdict(CallOutcome::Unavailable) == "CALLER_SERVICE_UNAVAILABLE"@,
        verdict(CallOutcome::Timeout) == "CALLER_TIMEOUT"@,
        verdict(CallOutcome::Failed(text)) == "CALLER_ERROR "@ + text@,
        "CALLER_GOT_RESPONSE sum="@.is_prefix_of(verdict(CallOutcome::Response(sum))),
        sum >= 0 ==> verdict(CallOutcome::Response(sum)) == "CALLER_GOT_RESPONSE sum="@ + decimal(
            sum as nat,
        ),
        sum < 0 ==> verdict(CallOutcome::Response(sum)) == "CALLER_GOT_RESPONSE sum="@ + seq!['-']
            + decimal((-sum) as nat),
{
    let head = "CALLER_GOT_RESPONSE sum="@;
    let line = verdict(CallOutcome::Response(sum));
    assert(line.subrange(0, head.len() as int) =~= head);
    if sum < 0 {
        assert(line =~= head + seq!['-'] + decimal((-sum) as nat));
    }
}

} // verus!
