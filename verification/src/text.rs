//! Decimal rendering of numbers and the error texts built from them.
use vstd::prelude::*;
use vstd::string::*;

verus! {

/// The character of a decimal digit.
pub open spec fn digit_char(d: nat) -> char
    recommends
        d < 10,
{
    (('0' as u32) + d) as char
}

/// The decimal rendering of `n`, most significant digit first, without leading zeros.
pub open spec fn decimal(n: nat) -> Seq<char>
    decreases n,
{
    if n < 10 {
        seq![digit_char(n)]
    } else {
        decimal(n / 10).push(digit_char(n % 10))
    }
}

/// The text of a decimal digit.
fn digit_text(d: u32) -> (s: &'static str)
    requires
        d < 10,
    ensures
        s@ == seq![digit_char(d as nat)],
{
    match d {
        0 => {
            proof {
                reveal_strlit("0");
            }
            "0"
        },
        1 => {
            proof {
                reveal_strlit("1");
            }
            "1"
        },
        2 => {
            proof {
                reveal_strlit("2");
            }
            "2"
        },
        3 => {
            proof {
                reveal_strlit("3");
            }
            "3"
        },
        4 => {
            proof {
                reveal_strlit("4");
            }
            "4"
        },
        5 => {
            proof {
                reveal_strlit("5");
            }
            "5"
        },
        6 => {
            proof {
                reveal_strlit("6");
            }
            "6"
        },
        7 => {
            proof {
                reveal_strlit("7");
            }
            "7"
        },
        8 => {
            proof {
                reveal_strlit("8");
            }
            "8"
        },
        _ => {
            proof {
                reveal_strlit("9");
            }
            "9"
        },
    }
}

/// Appends the decimal rendering of `n`.
fn write_decimal(n: u32, s: &mut String)
    ensures
        final(s)@ == old(s)@ + decimal(n as nat),
    decreases n,
{
    if n >= 10 {
        write_decimal(n / 10, s);
    }
    let ghost mid = s@;
    s.append(digit_text(n % 10));
    proof {
        if n >= 10 {
            assert(s@ =~= old(s)@ + decimal((n / 10) as nat).push(digit_char((n % 10) as nat)));
        } else {
            assert(s@ =~= old(s)@ + decimal(n as nat));
        }
    }
}

/// Renders `n` in decimal.
pub(crate) fn u32_to_decimal(n: u32) -> (s: String)
    ensures
        s@ == decimal(n as nat),
{
    let mut s = String::new();
    write_decimal(n, &mut s);
    proof {
        assert(s@ =~= decimal(n as nat));
    }
    s
}

/// Concatenates pieces of text.
pub(crate) fn concat3(a: &str, b: &String, c: &str) -> (s: String)
    ensures
        s@ == a@ + b@ + c@,
{
    let mut s = String::from_str(a);
    s.append(b.as_str());
    s.append(c);
    s
}

/// Concatenates pieces of text.
pub(crate) fn concat5(a: &str, b: &String, c: &str, d: &String, e: &str) -> (s: String)
    ensures
        s@ == a@ + b@ + c@ + d@ + e@,
{
    let mut s = String::from_str(a);
    s.append(b.as_str());
    s.append(c);
    s.append(d.as_str());
    s.append(e);
    s
}

/// Five numbers in decimal, separated by single spaces.
pub open spec fn five_numbers(a: nat, b: nat, c: nat, d: nat, e: nat) -> Seq<char> {
    decimal(a) + " "@ + decimal(b) + " "@ + decimal(c) + " "@ + decimal(d) + " "@ + decimal(e)
}

/// Writes five numbers in decimal, separated by single spaces.
pub(crate) fn five_numbers_text(a: u32, b: u32, c: u32, d: u32, e: u32) -> (s: String)
    ensures
        s@ == five_numbers(a as nat, b as nat, c as nat, d as nat, e as nat),
{
    let mut s = u32_to_decimal(a);
    s.append(" ");
    s.append(u32_to_decimal(b).as_str());
    s.append(" ");
    s.append(u32_to_decimal(c).as_str());
    s.append(" ");
    s.append(u32_to_decimal(d).as_str());
    s.append(" ");
    s.append(u32_to_decimal(e).as_str());
    s
}


/// The number that a string of decimal digits denotes, most significant first.
pub open spec fn digits_value(s: Seq<char>) -> int
    decreases s.len(),
{
    if s.len() == 0 {
        0
    } else {
        digits_value(s.drop_last()) * 10 + (s.last() as int - '0' as int)
    }
}

/// The decimal text of a number is made of digits, reads back as the number, and has
/// no leading zero.
pub proof fn lemma_decimal_reads_back(n: nat)
    ensures
        decimal(n).len() >= 1,
        forall|i: int| 0 <= i < decimal(n).len() ==> '0' <= #[trigger] decimal(n)[i] <= '9',
        digits_value(decimal(n)) == n,
        decimal(n).len() > 1 ==> decimal(n)[0] != '0',
    decreases n,
{
    if n >= 10 {
        let q = n / 10;
        let r = n % 10;
        lemma_decimal_reads_back(q);
        let d = decimal(q);
        let t = d.push(digit_char(r));
        assert(decimal(n) == t);
        assert(t.drop_last() =~= d);
        assert(t.last() == digit_char(r));
        assert(digit_char(r) as int == '0' as int + r);
        assert(q * 10 + r == n);
        assert(digits_value(t) == digits_value(d) * 10 + r);
        assert(t[0] == d[0]);
        if q < 10 {
            assert(d == seq![digit_char(q)]);
            assert(q >= 1);
            assert(digit_char(q) as int == '0' as int + q);
        } else {
            lemma_decimal_reads_back(q / 10);
            assert(d == decimal(q / 10).push(digit_char(q % 10)));
            assert(d.len() > 1);
        }
    } else {
        let t = seq![digit_char(n)];
        assert(decimal(n) == t);
        assert(digit_char(n) as int == '0' as int + n);
        assert(t.drop_last() =~= Seq::<char>::empty());
        assert(digits_value(t.drop_last()) == 0);
        assert(t.last() == digit_char(n));
    }
}

} // verus!
