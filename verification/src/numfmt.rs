//! Decimal rendering of counters: a spec-level numeral and an executable
//! formatter proved against it.

use vstd::prelude::*;
use vstd::string::StringExecFns;

verus! {

/// The decimal digit character for `d` (last decimal digit of `d` if it is
/// ten or more, which the callers below rule out).
pub open spec fn digit_char(d: nat) -> char {
    if d == 0 {
        '0'
    } else if d == 1 {
        '1'
    } else if d == 2 {
        '2'
    } else if d == 3 {
        '3'
    } else if d == 4 {
        '4'
    } else if d == 5 {
        '5'
    } else if d == 6 {
        '6'
    } else if d == 7 {
        '7'
    } else if d == 8 {
        '8'
    } else {
        '9'
    }
}

/// The decimal numeral of `n`, most significant digit first, no leading
/// zeros (a single zero for zero itself).
pub open spec fn dec_string(n: nat) -> Seq<char>
    decreases n,
{
    if n < 10 {
        seq![digit_char(n)]
    } else {
        dec_string(n / 10) + seq![digit_char(n % 10)]
    }
}

/// The characters of `ds` read as digits, in reverse order.
spec fn chars_rev(ds: Seq<u64>) -> Seq<char>
    decreases ds.len(),
{
    if ds.len() == 0 {
        Seq::empty()
    } else {
        seq![digit_char(ds.last() as nat)] + chars_rev(ds.drop_last())
    }
}

/// The one-character string for digit `d`.
fn digit_str(d: u64) -> (r: &'static str)
    requires
        d < 10,
    ensures
        r@ == seq![digit_char(d as nat)],
{
    proof {
        reveal_strlit("0");
        reveal_strlit("1");
        reveal_strlit("2");
        reveal_strlit("3");
        reveal_strlit("4");
        reveal_strlit("5");
        reveal_strlit("6");
        reveal_strlit("7");
        reveal_strlit("8");
        reveal_strlit("9");
    }
    let r = match d {
        0 => "0",
        1 => "1",
        2 => "2",
        3 => "3",
        4 => "4",
        5 => "5",
        6 => "6",
        7 => "7",
        8 => "8",
        _ => "9",
    };
    proof {
        assert(r@ =~= seq![digit_char(d as nat)]);
    }
    r
}

/// Renders `n` in decimal, exactly as [`dec_string`] describes.
pub fn u64_to_string(n: u64) -> (s: String)
    ensures
        s@ == dec_string(n as nat),
{
    let mut digits: Vec<u64> = Vec::new();
    digits.push(n % 10);
    let mut m = n / 10;
    proof {
        assert(digits@.len() == 1);
        assert(digits@.last() == n % 10);
        assert(digits@.drop_last() =~= Seq::<u64>::empty());
        assert(chars_rev(digits@.drop_last()) == Seq::<char>::empty());
        assert(chars_rev(digits@) =~= seq![digit_char((n % 10) as nat)]);
        if m == 0 {
            assert(n < 10) by (nonlinear_arith)
                requires
                    m == n / 10,
                    m == 0,
            ;
            assert(dec_string(n as nat) == chars_rev(digits@));
        } else {
            assert(dec_string(n as nat) =~= dec_string(m as nat) + chars_rev(digits@));
        }
    }
    while m > 0
        invariant
            digits@.len() >= 1,
            forall|i: int| 0 <= i < digits@.len() ==> digits@[i] < 10,
            if m > 0 {
                dec_string(n as nat) == dec_string(m as nat) + chars_rev(digits@)
            } else {
                dec_string(n as nat) == chars_rev(digits@)
            },
        decreases m,
    {
        let ghost pre = digits@;
        let d = m % 10;
        digits.push(d);
        let ghost mm = m;
        m = m / 10;
        proof {
            assert(digits@.last() == d);
            assert(digits@.drop_last() =~= pre);
            assert(chars_rev(digits@) == seq![digit_char(d as nat)] + chars_rev(pre));
            if m > 0 {
                assert(dec_string(mm as nat) == dec_string(m as nat) + seq![
                    digit_char((mm % 10) as nat),
                ]);
                assert(dec_string(n as nat) =~= dec_string(m as nat) + chars_rev(digits@));
            } else {
                assert(mm < 10) by (nonlinear_arith)
                    requires
                        m == mm / 10,
                        m == 0,
                ;
                assert(dec_string(mm as nat) =~= seq![digit_char(d as nat)]);
                assert(dec_string(n as nat) =~= chars_rev(digits@));
            }
        }
    }
    let mut s = String::new();
    let mut i = digits.len();
    proof {
        assert(digits@.take(i as int) =~= digits@);
    }
    while i > 0
        invariant
            i <= digits@.len(),
            forall|j: int| 0 <= j < digits@.len() ==> digits@[j] < 10,
            dec_string(n as nat) == chars_rev(digits@),
            s@ + chars_rev(digits@.take(i as int)) == chars_rev(digits@),
        decreases i,
    {
        i -= 1;
        let d = digits[i];
        let ghost spre = s@;
        s.append(digit_str(d));
        proof {
            assert(digits@.take(i as int + 1).last() == digits@[i as int]);
            assert(digits@.take(i as int + 1).drop_last() =~= digits@.take(i as int));
            assert(chars_rev(digits@.take(i as int + 1)) == seq![digit_char(d as nat)] + chars_rev(
                digits@.take(i as int),
            ));
            assert(s@ + chars_rev(digits@.take(i as int)) =~= spre + chars_rev(
                digits@.take(i as int + 1),
            ));
        }
    }
    proof {
        assert(digits@.take(0) =~= Seq::<u64>::empty());
        assert(s@ + chars_rev(digits@.take(0)) =~= s@);
    }
    s
}

} // verus!
