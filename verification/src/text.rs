//! Decimal rendering of integers and the short labels built from them.

use vstd::prelude::*;
use crate::pipeline::Channel;

verus! {

/// The character of a decimal digit.
pub open spec fn digit_char(d: nat) -> char {
    (48 + d) as char
}

/// The decimal representation of `n`, without leading zeros.
pub open spec fn decimal(n: nat) -> Seq<char>
    decreases n,
{
    if n < 10 {
        seq![digit_char(n)]
    } else {
        decimal(n / 10).push(digit_char(n % 10))
    }
}

/// Appends one character to a string (`String::push`).
#[verifier::external_body]
pub(crate) fn push_char(s: &mut String, c: char)
    ensures
        final(s)@ == old(s)@.push(c),
{
    s.push(c);
}

fn digit(d: u64) -> (c: char)
    requires
        d < 10,
    ensures
        c == digit_char(d as nat),
{
    let b: u8 = 48u8 + d as u8;
    b as char
}

/// Appends the decimal representation of `n` to `s`.
pub fn push_decimal(s: &mut String, n: u64)
    ensures
        final(s)@ == old(s)@ + decimal(n as nat),
    decreases n,
{
    if n >= 10 {
        push_decimal(s, n / 10);
    }
    push_char(s, digit(n % 10));
    proof {
        assert(n < 10 ==> decimal(n as nat) == seq![digit_char(n as nat)]);
    }
}

/// The decimal representation of a signed number, with a leading `-` when
/// it is negative.
pub open spec fn signed_decimal(n: int) -> Seq<char> {
    if n < 0 {
        seq!['-'] + decimal((-n) as nat)
    } else {
        decimal(n as nat)
    }
}

/// Appends the decimal representation of a signed number to `s`.
pub fn push_signed_decimal(s: &mut String, n: i64)
    ensures
        final(s)@ == old(s)@ + signed_decimal(n as int),
{
    if n < 0 {
        push_char(s, '-');
        let m: u64 = if n == i64::MIN {
            9223372036854775808u64
        } else {
            (-n) as u64
        };
        push_decimal(s, m);
        assert(s@ =~= old(s)@ + signed_decimal(n as int));
    } else {
        push_decimal(s, n as u64);
    }
}

/// A number of at least two digits, padded with a leading zero.
pub open spec fn two_digits(n: nat) -> Seq<char> {
    if n < 10 {
        seq!['0'] + decimal(n)
    } else {
        decimal(n)
    }
}

/// `minutes:seconds` of a time given in whole seconds.
pub open spec fn time_text(secs: nat) -> Seq<char> {
    decimal(secs / 60) + seq![':'] + two_digits(secs % 60)
}

/// The label of a tick on a time axis.
pub fn time_label(secs: u32) -> (s: String)
    ensures
        s@ == time_text(secs as nat),
        s@.len() >= 4,
        s@[s@.len() - 3] == ':',
        all_digits(s@.take(s@.len() - 3)),
        digits_value(s@.take(s@.len() - 3)) == secs / 60,
        all_digits(s@.skip(s@.len() - 2)),
        digits_value(s@.skip(s@.len() - 2)) == secs % 60,
{
    proof {
        lemma_time_text(secs as nat);
    }
    let mut s = String::new();
    push_decimal(&mut s, (secs / 60) as u64);
    push_char(&mut s, ':');
    let rem = secs % 60;
    if rem < 10 {
        push_char(&mut s, '0');
    }
    push_decimal(&mut s, rem as u64);
    assert(s@ =~= time_text(secs as nat));
    s
}

/// The label of a tick on a linear frequency axis: `0` at the bottom,
/// then whole kilohertz.
pub open spec fn linear_freq_text(hz: nat) -> Seq<char> {
    if hz == 0 {
        seq!['0']
    } else {
        decimal(hz / 1000) + " kHz"@
    }
}

/// The label of a tick on a linear frequency axis.
pub fn linear_freq_label(hz: u32) -> (s: String)
    ensures
        s@ == linear_freq_text(hz as nat),
{
    let mut s = String::new();
    if hz == 0 {
        push_char(&mut s, '0');
    } else {
        push_decimal(&mut s, (hz / 1000) as u64);
        s.append(" kHz");
    }
    assert(s@ =~= linear_freq_text(hz as nat));
    s
}

/// The label of a tick on a logarithmic frequency axis: hertz below one
/// kilohertz, whole kilohertz above.
pub open spec fn log_freq_text(hz: nat) -> Seq<char> {
    if hz < 1000 {
        decimal(hz) + " Hz"@
    } else {
        decimal(hz / 1000) + " kHz"@
    }
}

/// The label of a tick on a logarithmic frequency axis.
pub fn log_freq_label(hz: u32) -> (s: String)
    ensures
        s@ == log_freq_text(hz as nat),
{
    let mut s = String::new();
    if hz < 1000 {
        push_decimal(&mut s, hz as u64);
        s.append(" Hz");
    } else {
        push_decimal(&mut s, (hz / 1000) as u64);
        s.append(" kHz");
    }
    assert(s@ =~= log_freq_text(hz as nat));
    s
}

/// The text of the channel selector: `Mono` for a stream of fewer than
/// two channels, else the selected mode.
pub open spec fn channel_text(num_channels: nat, channel: Channel) -> Seq<char> {
    if num_channels < 2 {
        "Mono"@
    } else {
        match channel {
            Channel::Mix => "Mix"@,
            Channel::Split => "L+R"@,
            Channel::Left => "L"@,
            Channel::Right => "R"@,
        }
    }
}

/// The text of the channel selector.
pub fn channel_label(num_channels: u16, channel: Channel) -> (s: &'static str)
    ensures
        s@ == channel_text(num_channels as nat, channel),
{
    if num_channels < 2 {
        "Mono"
    } else {
        match channel {
            Channel::Mix => "Mix",
            Channel::Split => "L+R",
            Channel::Left => "L",
            Channel::Right => "R",
        }
    }
}

/// The text of the overlap selector, from the overlap in whole percent:
/// 0 and 50 are shown as such, anything else as 75.
pub open spec fn overlap_text(percent: nat) -> Seq<char> {
    if percent == 0 {
        "OL: 0%"@
    } else if percent == 50 {
        "OL: 50%"@
    } else {
        "OL: 75%"@
    }
}

/// The text of the overlap selector.
pub fn overlap_label(percent: u32) -> (s: &'static str)
    ensures
        s@ == overlap_text(percent as nat),
{
    if percent == 0 {
        "OL: 0%"
    } else if percent == 50 {
        "OL: 50%"
    } else {
        "OL: 75%"
    }
}

/// Whether `c` is one of the characters `0` to `9`.
pub open spec fn is_digit(c: char) -> bool {
    48 <= c as int <= 57
}

/// Whether every character of `s` is a digit.
pub open spec fn all_digits(s: Seq<char>) -> bool {
    forall|i: int| 0 <= i < s.len() ==> is_digit(#[trigger] s[i])
}

/// The number that a string of digits denotes, read in base ten.
pub open spec fn digits_value(s: Seq<char>) -> int
    decreases s.len(),
{
    if s.len() == 0 {
        0
    } else {
        digits_value(s.drop_last()) * 10 + (s.last() as int - 48)
    }
}

/// The decimal representation of `n` is a non-empty string of digits that
/// reads back as `n`, with no leading zero; one digit below ten, two below a
/// hundred.
pub proof fn lemma_decimal(n: nat)
    ensures
        decimal(n).len() >= 1,
        all_digits(decimal(n)),
        digits_value(decimal(n)) == n,
        n >= 10 ==> decimal(n)[0] != '0',
        n < 10 ==> decimal(n).len() == 1,
        10 <= n < 100 ==> decimal(n).len() == 2,
    decreases n,
{
    if n < 10 {
        let s = decimal(n);
        assert(s == seq![digit_char(n)]);
        assert(s.drop_last() =~= Seq::<char>::empty());
        assert(digit_char(n) as int == 48 + n);
        assert(digits_value(Seq::<char>::empty()) == 0);
        assert(digits_value(s) == digits_value(s.drop_last()) * 10 + (s.last() as int - 48));
    } else {
        lemma_decimal(n / 10);
        let s = decimal(n);
        let p = decimal(n / 10);
        assert(s == p.push(digit_char(n % 10)));
        assert(s.drop_last() =~= p);
        assert(digit_char(n % 10) as int == 48 + n % 10);
        assert(s[0] == p[0]);
        assert(digits_value(s) == digits_value(p) * 10 + (s.last() as int - 48));
        assert(n == (n / 10) * 10 + n % 10);
        if n / 10 < 10 {
            assert(p == seq![digit_char(n / 10)]);
            assert(digit_char(n / 10) as int == 48 + n / 10);
        }
    }
}

/// A signed number is written as a `-` followed by the digits of its
/// magnitude when it is negative, and as its digits alone otherwise.
pub proof fn lemma_signed_decimal(n: int)
    ensures
        n < 0 ==> signed_decimal(n).len() >= 2 && signed_decimal(n)[0] == '-' && all_digits(
            signed_decimal(n).drop_first(),
        ) && digits_value(signed_decimal(n).drop_first()) == -n,
        n >= 0 ==> all_digits(signed_decimal(n)) && digits_value(signed_decimal(n)) == n,
{
    if n < 0 {
        lemma_decimal((-n) as nat);
        assert(signed_decimal(n).drop_first() =~= decimal((-n) as nat));
    } else {
        lemma_decimal(n as nat);
    }
}

/// A time label reads `minutes:seconds`: the digits before the `:` denote
/// the whole minutes, however many, and the two digits after it the
/// remaining seconds.
pub proof fn lemma_time_text(secs: nat)
    ensures
        ({
            let t = time_text(secs);
            &&& t.len() >= 4
            &&& t[t.len() - 3] == ':'
            &&& all_digits(t.take(t.len() - 3))
            &&& digits_value(t.take(t.len() - 3)) == secs / 60
            &&& all_digits(t.skip(t.len() - 2))
            &&& digits_value(t.skip(t.len() - 2)) == secs % 60
        }),
{
    let m = secs / 60;
    let r = secs % 60;
    lemma_decimal(m);
    lemma_decimal(r);
    let d = decimal(m);
    let two = two_digits(r);
    let t = time_text(secs);
    if r < 10 {
        assert(two =~= seq!['0', decimal(r)[0]]);
        assert(two.drop_last() =~= seq!['0']);
        assert(seq!['0'].drop_last() =~= Seq::<char>::empty());
        assert(digits_value(Seq::<char>::empty()) == 0);
        assert(digits_value(seq!['0']) == 0);
        assert(decimal(r)[0] == two.last());
        assert(digits_value(decimal(r)) == digits_value(decimal(r).drop_last()) * 10 + (decimal(
            r,
        ).last() as int - 48));
        assert(decimal(r).drop_last() =~= Seq::<char>::empty());
        assert(digits_value(two) == digits_value(two.drop_last()) * 10 + (two.last() as int - 48));
    }
    assert(two.len() == 2);
    assert(all_digits(two));
    assert(digits_value(two) == r);
    assert(t =~= d + seq![':'] + two);
    assert(t.take(t.len() - 3) =~= d);
    assert(t.skip(t.len() - 2) =~= two);
}

/// A linear frequency label is `0` at zero hertz, and otherwise the whole
/// kilohertz in digits followed by ` kHz`.
pub proof fn lemma_linear_freq_text(hz: nat)
    ensures
        hz == 0 ==> linear_freq_text(hz) == seq!['0'],
        hz > 0 ==> ({
            let t = linear_freq_text(hz);
            &&& t.len() >= 5
            &&& t.skip(t.len() - 4) == " kHz"@
            &&& all_digits(t.take(t.len() - 4))
            &&& digits_value(t.take(t.len() - 4)) == hz / 1000
        }),
{
    reveal_strlit(" kHz");
    lemma_decimal(hz / 1000);
    if hz > 0 {
        let t = linear_freq_text(hz);
        assert(t.skip(t.len() - 4) =~= " kHz"@);
        assert(t.take(t.len() - 4) =~= decimal(hz / 1000));
    }
}

/// A logarithmic frequency label is the hertz in digits followed by ` Hz`
/// below one kilohertz, and the whole kilohertz followed by ` kHz` above.
pub proof fn lemma_log_freq_text(hz: nat)
    ensures
        hz < 1000 ==> ({
            let t = log_freq_text(hz);
            &&& t.len() >= 4
            &&& t.skip(t.len() - 3) == " Hz"@
            &&& all_digits(t.take(t.len() - 3))
            &&& digits_value(t.take(t.len() - 3)) == hz
        }),
        hz >= 1000 ==> ({
            let t = log_freq_text(hz);
            &&& t.len() >= 5
            &&& t.skip(t.len() - 4) == " kHz"@
            &&& all_digits(t.take(t.len() - 4))
            &&& digits_value(t.take(t.len() - 4)) == hz / 1000
        }),
{
    reveal_strlit(" kHz");
    reveal_strlit(" Hz");
    lemma_decimal(hz);
    lemma_decimal(hz / 1000);
    let t = log_freq_text(hz);
    if hz < 1000 {
        assert(t.skip(t.len() - 3) =~= " Hz"@);
        assert(t.take(t.len() - 3) =~= decimal(hz));
    } else {
        assert(t.skip(t.len() - 4) =~= " kHz"@);
        assert(t.take(t.len() - 4) =~= decimal(hz / 1000));
    }
}

} // verus!
