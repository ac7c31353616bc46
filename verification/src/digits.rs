//! Decimal text for the unsigned fields of a record: the canonical digit
//! string of a number, the value of a digit string, and the executable
//! writer for the canonical form.

use vstd::prelude::*;
use vstd::string::StringExecFns;

verus! {

/// Whether `c` is one of the ten decimal digit characters.
pub open spec fn is_digit(c: char) -> bool {
    ||| c == '0'
    ||| c == '1'
    ||| c == '2'
    ||| c == '3'
    ||| c == '4'
    ||| c == '5'
    ||| c == '6'
    ||| c == '7'
    ||| c == '8'
    ||| c == '9'
}

/// The digit character for a value below ten.
pub open spec fn digit_char(d: nat) -> char {
    if d == 0 {
        '0'
    } else if d == 1 {
        '1'
    } else if d == 2 {
        '2'
    } else if d == 3 {
        '3'
    } else if d == 4 {
        '4'
    } else if d == 5 {
        '5'
    } else if d == 6 {
        '6'
    } else if d == 7 {
        '7'
    } else if d == 8 {
        '8'
    } else {
        '9'
    }
}

/// The value of a digit character.
pub open spec fn digit_val(c: char) -> nat {
    if c == '0' {
        0
    } else if c == '1' {
        1
    } else if c == '2' {
        2
    } else if c == '3' {
        3
    } else if c == '4' {
        4
    } else if c == '5' {
        5
    } else if c == '6' {
        6
    } else if c == '7' {
        7
    } else if c == '8' {
        8
    } else {
        9
    }
}

/// The canonical decimal text of `n`: no sign, no leading zero except for
/// the single digit of zero itself.
pub open spec fn dec_rep(n: nat) -> Seq<char>
    decreases n,
{
    if n < 10 {
        seq![digit_char(n)]
    } else {
        dec_rep(n / 10).push(digit_char(n % 10))
    }
}

/// The value of a digit string, read left to right.
pub open spec fn fold_val(s: Seq<char>) -> nat
    decreases s.len(),
{
    if s.len() == 0 {
        0
    } else {
        fold_val(s.drop_last()) * 10 + digit_val(s.last())
    }
}

/// Whether every character of `s` is a decimal digit.
pub open spec fn all_digits(s: Seq<char>) -> bool {
    forall|i: int| 0 <= i < s.len() ==> is_digit(s[i])
}

/// The canonical decimal text is nonempty, all digits, free of leading
/// zeros, and reads back to the number it was made from.
pub proof fn lemma_dec_rep_wf(n: nat)
    ensures
        dec_rep(n).len() >= 1,
        all_digits(dec_rep(n)),
        n >= 1 ==> dec_rep(n)[0] != '0',
        n == 0 ==> dec_rep(n) == seq!['0'],
        fold_val(dec_rep(n)) == n,
    decreases n,
{
    if n < 10 {
        assert(dec_rep(n) == seq![digit_char(n)]);
        assert(seq![digit_char(n)].drop_last() =~= Seq::<char>::empty());
        assert(seq![digit_char(n)].last() == digit_char(n));
        assert(fold_val(dec_rep(n)) == fold_val(Seq::<char>::empty()) * 10 + digit_val(
            digit_char(n),
        ));
    } else {
        lemma_dec_rep_wf(n / 10);
        let p = dec_rep(n / 10);
        assert(dec_rep(n) == p.push(digit_char(n % 10)));
        assert(all_digits(p.push(digit_char(n % 10)))) by {
            assert(forall|i: int|
                0 <= i < p.len() ==> p.push(digit_char(n % 10))[i] == p[i]);
        }
        assert(p.push(digit_char(n % 10)).drop_last() == p);
        assert(fold_val(dec_rep(n)) == (n / 10) * 10 + (n % 10));
        assert((n / 10) * 10 + (n % 10) == n);
    }
}

/// Two canonical decimal texts that are equal come from the same number.
pub proof fn lemma_dec_rep_injective(a: nat, b: nat)
    requires
        dec_rep(a) == dec_rep(b),
    ensures
        a == b,
{
    lemma_dec_rep_wf(a);
    lemma_dec_rep_wf(b);
}

/// A digit string followed by a non-digit boundary decomposes an input
/// uniquely: two such decompositions of the same text agree.
pub proof fn lemma_digit_run_unique(a1: Seq<char>, r1: Seq<char>, a2: Seq<char>, r2: Seq<char>)
    requires
        a1 + r1 == a2 + r2,
        all_digits(a1),
        all_digits(a2),
        r1.len() == 0 || !is_digit(r1[0]),
        r2.len() == 0 || !is_digit(r2[0]),
    ensures
        a1 == a2,
        r1 == r2,
{
    assert((a1 + r1).len() == a1.len() + r1.len());
    assert((a2 + r2).len() == a2.len() + r2.len());
    assert(a1.len() + r1.len() == a2.len() + r2.len());
    if a1.len() < a2.len() {
        assert(r1.len() > 0);
        assert(r1[0] == (a1 + r1)[a1.len() as int]);
        assert((a2 + r2)[a1.len() as int] == a2[a1.len() as int]);
        assert(is_digit(a2[a1.len() as int]));
        assert(false);
    }
    if a2.len() < a1.len() {
        assert(r2.len() > 0);
        assert(r2[0] == (a2 + r2)[a2.len() as int]);
        assert((a1 + r1)[a2.len() as int] == a1[a2.len() as int]);
        assert(is_digit(a1[a2.len() as int]));
        assert(false);
    }
    assert(a1 =~= a2) by {
        assert(forall|i: int|
            0 <= i < a1.len() ==> a1[i] == (a1 + r1)[i] && a2[i] == (a2 + r2)[i]);
    }
    assert(r1 =~= r2) by {
        assert(forall|i: int|
            0 <= i < r1.len() ==> r1[i] == (a1 + r1)[a1.len() + i] && r2[i] == (a2 + r2)[a2.len()
                + i]);
    }
}

/// The value of a digit string never shrinks when more digits follow it.
pub proof fn lemma_fold_val_prefix(a: Seq<char>, b: Seq<char>)
    requires
        a.len() <= b.len(),
        a == b.take(a.len() as int),
    ensures
        fold_val(a) <= fold_val(b),
    decreases b.len(),
{
    if a.len() == b.len() {
        assert(a =~= b);
    } else {
        assert(a == b.drop_last().take(a.len() as int)) by {
            assert(b.drop_last().take(a.len() as int) =~= b.take(a.len() as int));
        }
        lemma_fold_val_prefix(a, b.drop_last());
        assert(fold_val(b) == fold_val(b.drop_last()) * 10 + digit_val(b.last()));
    }
}

/// The value of one character, where it is a decimal digit.
pub fn digit_of(c: char) -> (r: Option<u8>)
    ensures
        r is Some <==> is_digit(c),
        r matches Some(d) ==> d < 10 && d as nat == digit_val(c),
{
    if c == '0' {
        Some(0)
    } else if c == '1' {
        Some(1)
    } else if c == '2' {
        Some(2)
    } else if c == '3' {
        Some(3)
    } else if c == '4' {
        Some(4)
    } else if c == '5' {
        Some(5)
    } else if c == '6' {
        Some(6)
    } else if c == '7' {
        Some(7)
    } else if c == '8' {
        Some(8)
    } else if c == '9' {
        Some(9)
    } else {
        None
    }
}

/// The digit character for a value below ten, as a one-character text.
pub fn digit_str(d: u16) -> (r: &'static str)
    requires
        d < 10,
    ensures
        r@ == seq![digit_char(d as nat)],
{
    proof {
        reveal_strlit("0");
        reveal_strlit("1");
        reveal_strlit("2");
        reveal_strlit("3");
        reveal_strlit("4");
        reveal_strlit("5");
        reveal_strlit("6");
        reveal_strlit("7");
        reveal_strlit("8");
        reveal_strlit("9");
    }
    if d == 0 {
        proof {
            assert("0"@ =~= seq![digit_char(d as nat)]);
        }
        "0"
    } else if d == 1 {
        proof {
            assert("1"@ =~= seq![digit_char(d as nat)]);
        }
        "1"
    } else if d == 2 {
        proof {
            assert("2"@ =~= seq![digit_char(d as nat)]);
        }
        "2"
    } else if d == 3 {
        proof {
            assert("3"@ =~= seq![digit_char(d as nat)]);
        }
        "3"
    } else if d == 4 {
        proof {
            assert("4"@ =~= seq![digit_char(d as nat)]);
        }
        "4"
    } else if d == 5 {
        proof {
            assert("5"@ =~= seq![digit_char(d as nat)]);
        }
        "5"
    } else if d == 6 {
        proof {
            assert("6"@ =~= seq![digit_char(d as nat)]);
        }
        "6"
    } else if d == 7 {
        proof {
            assert("7"@ =~= seq![digit_char(d as nat)]);
        }
        "7"
    } else if d == 8 {
        proof {
            assert("8"@ =~= seq![digit_char(d as nat)]);
        }
        "8"
    } else {
        proof {
            assert("9"@ =~= seq![digit_char(d as nat)]);
        }
        "9"
    }
}

/// Appends the canonical decimal text of `n`.
pub fn append_dec(out: &mut String, n: u16)
    ensures
        final(out)@ == old(out)@ + dec_rep(n as nat),
    decreases n,
{
    if n < 10 {
        let s = digit_str(n);
        out.append(s);
        proof {
            assert(dec_rep(n as nat) == seq![digit_char(n as nat)]);
        }
    } else {
        append_dec(out, n / 10);
        let s = digit_str(n % 10);
        out.append(s);
        proof {
            assert(dec_rep(n as nat) == dec_rep((n as nat) / 10).push(digit_char((n as nat) % 10)));
            assert((n / 10) as nat == (n as nat) / 10);
            assert((n % 10) as nat == (n as nat) % 10);
            assert(old(out)@ + dec_rep((n as nat) / 10) + seq![digit_char((n as nat) % 10)] =~= old(
                out,
            )@ + dec_rep(n as nat));
        }
    }
}

} // verus!
