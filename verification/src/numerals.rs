use crate::lines::unbroken;
use vstd::prelude::*;
use vstd::string::StringExecFns;

verus! {

/// The character that stands for a single decimal digit.
pub open spec fn digit(d: nat) -> char {
    if d == 0 {
        '0'
    } else if d == 1 {
        '1'
    } else if d == 2 {
        '2'
    } else if d == 3 {
        '3'
    } else if d == 4 {
        '4'
    } else if d == 5 {
        '5'
    } else if d == 6 {
        '6'
    } else if d == 7 {
        '7'
    } else if d == 8 {
        '8'
    } else {
        '9'
    }
}

/// The decimal numeral of `n`, most significant digit first, without leading zeros.
pub open spec fn decimal(n: nat) -> Seq<char>
    decreases n,
{
    if n < 10 {
        seq![digit(n)]
    } else {
        decimal(n / 10).push(digit(n % 10))
    }
}

/// A numeral of a machine word has at least one and at most twenty digits.
pub proof fn lemma_decimal_len(n: nat)
    ensures
        1 <= decimal(n).len(),
        n <= 0xffff_ffff_ffff_ffff ==> decimal(n).len() <= 20,
        n <= 0xffff_ffff ==> decimal(n).len() <= 10,
        n <= 999 ==> decimal(n).len() <= 3,
{
    reveal_with_fuel(decimal, 21);
}

fn digit_str(d: usize) -> (s: &'static str)
    requires
        d < 10,
    ensures
        s@ == seq![digit(d as nat)],
{
    proof {
        reveal_strlit("0");
        reveal_strlit("1");
        reveal_strlit("2");
        reveal_strlit("3");
        reveal_strlit("4");
        reveal_strlit("5");
        reveal_strlit("6");
        reveal_strlit("7");
        reveal_strlit("8");
        reveal_strlit("9");
    }
    let s = if d == 0 {
        "0"
    } else if d == 1 {
        "1"
    } else if d == 2 {
        "2"
    } else if d == 3 {
        "3"
    } else if d == 4 {
        "4"
    } else if d == 5 {
        "5"
    } else if d == 6 {
        "6"
    } else if d == 7 {
        "7"
    } else if d == 8 {
        "8"
    } else {
        "9"
    };
    assert(s@ =~= seq![digit(d as nat)]);
    s
}

/// Appends the decimal numeral of `n` to `text` and returns how many digits it has.
pub fn push_decimal(text: &mut String, n: usize) -> (digits: usize)
    ensures
        final(text)@ == old(text)@ + decimal(n as nat),
        digits == decimal(n as nat).len(),
    decreases n,
{
    proof {
        lemma_decimal_len(n as nat);
    }
    if n < 10 {
        text.append(digit_str(n));
        1
    } else {
        let upper: usize = push_decimal(text, n / 10);
        proof {
            lemma_decimal_len((n / 10) as nat);
        }
        text.append(digit_str(n % 10));
        assert(text@ =~= old(text)@ + decimal(n as nat));
        upper + 1
    }
}

/// The decimal numeral of an integer: a minus sign stands before the digits of
/// a negative one.
pub open spec fn numeral(v: int) -> Seq<char> {
    if v < 0 {
        seq!['-'] + decimal((-v) as nat)
    } else {
        decimal(v as nat)
    }
}

/// A numeral of a sample has at least one and at most eleven characters, none
/// of them a line break.
pub proof fn lemma_numeral_shape(v: int)
    requires
        i32::MIN <= v <= i32::MAX,
    ensures
        1 <= numeral(v).len() <= 11,
        unbroken(numeral(v)),
{
    if v < 0 {
        lemma_decimal_len((-v) as nat);
        lemma_decimal_unbroken((-v) as nat);
    } else {
        lemma_decimal_len(v as nat);
        lemma_decimal_unbroken(v as nat);
    }
}

/// Appends the decimal numeral of `v` to `text` and returns how many characters
/// it has.
pub fn push_numeral(text: &mut String, v: i32) -> (width: usize)
    ensures
        final(text)@ == old(text)@ + numeral(v as int),
        width == numeral(v as int).len(),
{
    proof {
        lemma_numeral_shape(v as int);
    }
    if v < 0 {
        proof {
            reveal_strlit("-");
        }
        text.append("-");
        let size: usize = (-(v as i64)) as usize;
        let digits: usize = push_decimal(text, size);
        assert(text@ =~= old(text)@ + numeral(v as int));
        digits + 1
    } else {
        push_decimal(text, v as usize)
    }
}

/// No numeral holds a line break.
pub proof fn lemma_decimal_unbroken(n: nat)
    ensures
        unbroken(decimal(n)),
    decreases n,
{
    if n >= 10 {
        lemma_decimal_unbroken(n / 10);
    }
}

} // verus!
