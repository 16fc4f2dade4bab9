//! Building text: decimal numbers, lists and the other pieces that error
//! messages and `to_string` methods are made of.
use vstd::prelude::*;

verus! {

/// The character of a decimal digit.
pub open spec fn digit_char(d: nat) -> char
    recommends
        d < 10,
{
    (48 + d) as char
}

/// A number written in decimal, without leading zeros.
pub open spec fn decimal(n: nat) -> Seq<char>
    decreases n,
{
    if n < 10 {
        seq![digit_char(n)]
    } else {
        decimal(n / 10).push(digit_char(n % 10))
    }
}

/// The first `n` numbers of `items` in decimal, separated by `", "`.
pub open spec fn comma_separated(items: Seq<usize>, n: nat) -> Seq<char>
    decreases n,
{
    if n == 0 {
        seq![]
    } else if n == 1 {
        decimal(items[0] as nat)
    } else {
        comma_separated(items, (n - 1) as nat) + ", "@ + decimal(items[n - 1] as nat)
    }
}

/// A list of numbers in square brackets: `[2, 3, 4]`.
pub open spec fn list_text(items: Seq<usize>) -> Seq<char> {
    "["@ + comma_separated(items, items.len()) + "]"@
}

/// `true` or `false`.
pub open spec fn bool_text(b: bool) -> Seq<char> {
    if b {
        "true"@
    } else {
        "false"@
    }
}

fn digit_str(d: usize) -> (r: &'static str)
    requires
        d < 10,
    ensures
        r@ == seq![digit_char(d as nat)],
{
    proof {
        reveal_strlit("0");
        reveal_strlit("1");
        reveal_strlit("2");
        reveal_strlit("3");
        reveal_strlit("4");
        reveal_strlit("5");
        reveal_strlit("6");
        reveal_strlit("7");
        reveal_strlit("8");
        reveal_strlit("9");
    }
    match d {
        0 => "0",
        1 => "1",
        2 => "2",
        3 => "3",
        4 => "4",
        5 => "5",
        6 => "6",
        7 => "7",
        8 => "8",
        _ => "9",
    }
}

/// Appends a number in decimal.
pub(crate) fn push_number(out: &mut String, n: u128)
    ensures
        final(out)@ == old(out)@ + decimal(n as nat),
    decreases n,
{
    if n >= 10 {
        push_number(out, n / 10);
        out.append(digit_str((n % 10) as usize));
    } else {
        out.append(digit_str(n as usize));
    }
}

/// Appends a count in decimal.
pub(crate) fn push_usize(out: &mut String, n: usize)
    ensures
        final(out)@ == old(out)@ + decimal(n as nat),
{
    push_number(out, n as u128);
}

/// Appends a list of numbers in square brackets.
pub(crate) fn push_list(out: &mut String, items: &[usize])
    ensures
        final(out)@ == old(out)@ + list_text(items@),
{
    let ghost start = out@;
    out.append("[");
    let n: usize = items.len();
    let mut i: usize = 0;
    while i < n
        invariant
            n == items@.len(),
            i <= n,
            out@ == start + "["@ + comma_separated(items@, i as nat),
        decreases n - i,
    {
        if i > 0 {
            out.append(", ");
        }
        push_usize(out, items[i]);
        i += 1;
    }
    out.append("]");
}

/// Appends `true` or `false`.
pub(crate) fn push_bool(out: &mut String, b: bool)
    ensures
        final(out)@ == old(out)@ + bool_text(b),
{
    if b {
        out.append("true");
    } else {
        out.append("false");
    }
}

/// The number that a row of digits is read as.
pub open spec fn number_of(digits: Seq<char>) -> nat
    decreases digits.len(),
{
    if digits.len() == 0 {
        0
    } else {
        number_of(digits.drop_last()) * 10 + (digits.last() as int - '0' as int) as nat
    }
}

/// A number that is written in decimal reads as that number: all characters are
/// digits, and the first is 0 only for the number 0.
pub proof fn law_decimal_reads_back(n: nat)
    ensures
        decimal(n).len() > 0,
        forall|i: int|
            0 <= i < decimal(n).len() ==> '0' as int <= #[trigger] decimal(n)[i] as int
                <= '9' as int,
        n > 0 ==> decimal(n)[0] != '0',
        number_of(decimal(n)) == n,
    decreases n,
{
    if n < 10 {
        let text = decimal(n);
        assert(text.drop_last() =~= Seq::<char>::empty());
        assert(number_of(text.drop_last()) == 0);
    } else {
        law_decimal_reads_back(n / 10);
        let text = decimal(n);
        assert(text.drop_last() =~= decimal(n / 10));
    }
}

} // verus!
