//! Decimal rendering of numbers.

use vstd::prelude::*;

verus! {

/// The character of a decimal digit.
pub open spec fn digit_char(d: int) -> char {
    if d == 0 {
        '0'
    } else if d == 1 {
        '1'
    } else if d == 2 {
        '2'
    } else if d == 3 {
        '3'
    } else if d == 4 {
        '4'
    } else if d == 5 {
        '5'
    } else if d == 6 {
        '6'
    } else if d == 7 {
        '7'
    } else if d == 8 {
        '8'
    } else {
        '9'
    }
}

/// The decimal representation of `n`, most significant digit first, without
/// leading zeros.
pub open spec fn decimal(n: nat) -> Seq<char>
    decreases n,
{
    if n < 10 {
        seq![digit_char(n as int)]
    } else {
        decimal(n / 10).push(digit_char((n % 10) as int))
    }
}

/// Appends the decimal representation of `n` to `out`.
pub fn append_decimal(out: &mut String, n: u64)
    ensures
        final(out)@ == old(out)@ + decimal(n as nat),
{
    let digits = decimal_chars(n);
    proof {
        lemma_decimal_digits(n as nat);
    }
    let ghost start = out@;
    let mut i: usize = 0;
    while i < digits.len()
        invariant
            digits@ == decimal(n as nat),
            forall|q: int|
                0 <= q < digits@.len() ==> exists|d: int| 0 <= d < 10 && #[trigger] digits@[q] == digit_char(d),
            i <= digits.len(),
            out@ == start + digits@.subrange(0, i as int),
        decreases digits.len() - i,
    {
        let c = digits[i];
        out.append(symbol_text(c));
        i = i + 1;
        assert(digits@.subrange(0, i as int) =~= digits@.subrange(0, i - 1).push(c));
    }
    assert(digits@.subrange(0, digits@.len() as int) =~= digits@);
}

/// The decimal representation of `n`.
pub fn decimal_string(n: u64) -> (s: String)
    ensures
        s@ == decimal(n as nat),
{
    let mut s = String::new();
    append_decimal(&mut s, n);
    s
}

/// The character of a decimal digit.
pub fn digit_to_char(d: u8) -> (c: char)
    requires
        d < 10,
    ensures
        c == digit_char(d as int),
{
    match d {
        0 => '0',
        1 => '1',
        2 => '2',
        3 => '3',
        4 => '4',
        5 => '5',
        6 => '6',
        7 => '7',
        8 => '8',
        _ => '9',
    }
}

/// The decimal digits of `n`, most significant first.
pub fn decimal_chars(n: u64) -> (v: Vec<char>)
    ensures
        v@ == decimal(n as nat),
{
    let mut digits: Vec<u8> = Vec::new();
    let mut rest = n;
    let ghost mut tail: Seq<char> = Seq::empty();
    digits.push((rest % 10) as u8);
    proof {
        tail = seq![digit_char((n % 10) as int)];
    }
    rest = rest / 10;
    while rest > 0
        invariant
            decimal(n as nat) == (if rest > 0 { decimal(rest as nat) } else { Seq::empty() }) + tail,
            digits.len() == tail.len(),
            forall|i: int| 0 <= i < digits.len() ==> #[trigger] digits@[i] < 10,
            forall|i: int| 0 <= i < digits.len() ==> tail[tail.len() - 1 - i] == digit_char(
                #[trigger] digits@[i] as int,
            ),
        decreases rest,
    {
        let d = (rest % 10) as u8;
        proof {
            tail = seq![digit_char(d as int)] + tail;
        }
        digits.push(d);
        rest = rest / 10;
    }
    assert(decimal(n as nat) == tail);
    let mut v: Vec<char> = Vec::new();
    let mut k = digits.len();
    while k > 0
        invariant
            k <= digits.len(),
            digits.len() == tail.len(),
            forall|i: int| 0 <= i < digits.len() ==> #[trigger] digits@[i] < 10,
            forall|i: int| 0 <= i < digits.len() ==> tail[tail.len() - 1 - i] == digit_char(
                #[trigger] digits@[i] as int,
            ),
            v@ == tail.subrange(0, (tail.len() - k) as int),
        decreases k,
    {
        k = k - 1;
        let c = digit_to_char(digits[k]);
        v.push(c);
        assert(tail.subrange(0, (tail.len() - k) as int) =~= tail.subrange(
            0,
            (tail.len() - k - 1) as int,
        ).push(tail[tail.len() - 1 - k]));
    }
    assert(tail.subrange(0, tail.len() as int) =~= tail);
    v
}

/// Every character of a decimal representation is a digit.
pub proof fn lemma_decimal_digits(n: nat)
    ensures
        forall|i: int|
            0 <= i < decimal(n).len() ==> exists|d: int| 0 <= d < 10 && #[trigger] decimal(n)[i] == digit_char(d),
        1 <= decimal(n).len(),
        n < 256 ==> decimal(n).len() <= 3,
    decreases n,
{
    if n >= 10 {
        lemma_decimal_digits(n / 10);
        assert forall|i: int| 0 <= i < decimal(n).len() implies exists|d: int|
            0 <= d < 10 && #[trigger] decimal(n)[i] == digit_char(d) by {
            if i == decimal(n).len() - 1 {
                assert(decimal(n)[i] == digit_char((n % 10) as int));
            } else {
                assert(decimal(n)[i] == decimal(n / 10)[i]);
            }
        }
        if n < 256 {
            lemma_decimal_digits(n / 100);
        }
    } else {
        assert(decimal(n)[0] == digit_char(n as int));
    }
}

/// A dash, a slide marker or a decimal digit: the symbols of tab text.
pub open spec fn tab_symbol(c: char) -> bool {
    c == '-' || c == '/' || exists|d: int| 0 <= d < 10 && c == digit_char(d)
}

/// The text of a dash, slide marker or digit.
pub fn symbol_text(c: char) -> (t: &'static str)
    requires
        tab_symbol(c),
    ensures
        t@ == seq![c],
{
    proof {
        reveal_strlit("-");
        reveal_strlit("/");
        reveal_strlit("0");
        reveal_strlit("1");
        reveal_strlit("2");
        reveal_strlit("3");
        reveal_strlit("4");
        reveal_strlit("5");
        reveal_strlit("6");
        reveal_strlit("7");
        reveal_strlit("8");
        reveal_strlit("9");
    }
    match c {
        '0' => "0",
        '1' => "1",
        '2' => "2",
        '3' => "3",
        '4' => "4",
        '5' => "5",
        '6' => "6",
        '7' => "7",
        '8' => "8",
        '9' => "9",
        '/' => "/",
        _ => "-",
    }
}

} // verus!
