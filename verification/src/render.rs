//! Writing numbers, column labels and cells as text.

use vstd::prelude::*;
use vstd::string::{StrSliceExecFns, StringExecFns};
use crate::formula::Cell;
use crate::text::{all_digits, all_letters, base26, decimal, digit_value, is_digit, letter_value};

verus! {

/// The digit that stands for `d`, from 0 to 9.
pub open spec fn digit_char(d: int) -> char {
    ((48 + d) as u8) as char
}

/// The capital letter at place `k` of the alphabet, from 0 for `A`.
pub open spec fn capital(k: int) -> char {
    ((65 + k) as u8) as char
}

/// The digits of `n` in base ten, without leading zeros; `0` for 0.
pub open spec fn nat_text(n: nat) -> Seq<char>
    decreases n,
{
    if n < 10 {
        seq![digit_char(n as int)]
    } else {
        nat_text(n / 10).push(digit_char((n % 10) as int))
    }
}

/// `v` in base ten, with a minus sign before a negative number.
pub open spec fn int_text(v: int) -> Seq<char> {
    if v < 0 {
        seq!['-'] + nat_text((-v) as nat)
    } else {
        nat_text(v as nat)
    }
}

/// The label of column `n`: `A` for 1, `Z` for 26, `AA` for 27. The
/// label of 0 is empty.
pub open spec fn label_text(n: nat) -> Seq<char>
    decreases n,
{
    if n == 0 {
        Seq::empty()
    } else {
        label_text(((n - 1) / 26) as nat).push(capital((n - 1) % 26))
    }
}

/// What a cell shows: its integer, or `ERR`.
pub open spec fn cell_text(c: Cell) -> Seq<char> {
    match c {
        Cell::Value(v) => int_text(v as int),
        Cell::Error => "ERR"@,
    }
}

/// Reading the digits of a number gives the number back.
pub proof fn lemma_decimal_of_nat_text(n: nat)
    ensures
        nat_text(n).len() > 0,
        all_digits(nat_text(n)),
        decimal(nat_text(n)) == n,
    decreases n,
{
    if n < 10 {
        let s = nat_text(n);
        assert(s.drop_last() =~= Seq::<char>::empty());
        assert(decimal(s.drop_last()) == 0);
        assert(digit_value(s.last()) == n);
    } else {
        lemma_decimal_of_nat_text(n / 10);
        let s = nat_text(n);
        let p = nat_text(n / 10);
        assert(s.drop_last() =~= p);
        assert(digit_value(s.last()) == n % 10);
        assert forall|i: int| 0 <= i < s.len() implies is_digit(#[trigger] s[i]) by {
            if i < p.len() {
                assert(s[i] == p[i]);
            }
        }
    }
}

/// Reading the label of a column gives the column back.
pub proof fn lemma_base26_of_label(n: nat)
    ensures
        all_letters(label_text(n)),
        base26(label_text(n)) == n,
    decreases n,
{
    if n > 0 {
        let q = ((n - 1) / 26) as nat;
        lemma_base26_of_label(q);
        let s = label_text(n);
        let p = label_text(q);
        assert(s.drop_last() =~= p);
        assert(letter_value(s.last()) == (n - 1) % 26 + 1);
        assert forall|i: int| 0 <= i < s.len() implies crate::text::is_letter(#[trigger] s[i]) by {
            if i < p.len() {
                assert(s[i] == p[i]);
            }
        }
    }
}

/// Every character of `s` is a capital letter.
pub open spec fn all_capitals(s: Seq<char>) -> bool {
    forall|i: int| 0 <= i < s.len() ==> 'A' <= #[trigger] s[i] <= 'Z'
}

/// The label of the column that a run of capital letters stands for is
/// that run.
pub proof fn lemma_label_of_base26(s: Seq<char>)
    requires
        all_capitals(s),
    ensures
        base26(s) >= 0,
        s.len() > 0 ==> base26(s) > 0,
        label_text(base26(s) as nat) == s,
    decreases s.len(),
{
    if s.len() > 0 {
        let p = s.drop_last();
        assert(all_capitals(p));
        lemma_label_of_base26(p);
        let c = s.last();
        assert('A' <= c <= 'Z');
        let x = base26(s);
        assert(x == 26 * base26(p) + letter_value(c));
        assert((x - 1) / 26 == base26(p) && (x - 1) % 26 == letter_value(c) - 1) by {
            let b = base26(p);
            let r = letter_value(c) - 1;
            assert(0 <= r < 26);
            assert(x - 1 == 26 * b + r);
            vstd::arithmetic::div_mod::lemma_fundamental_div_mod_converse(x - 1, 26, b, r);
        }
        assert(capital(letter_value(c) - 1) == c);
        assert(label_text(x as nat) =~= p.push(c));
        assert(p.push(c) =~= s);
    }
}

/// The digit that stands for `d`, as text.
pub fn digit_str(d: u8) -> (r: &'static str)
    requires
        d < 10,
    ensures
        r@ == seq![digit_char(d as int)],
{
    let all = "0123456789";
    proof {
        reveal_strlit("0123456789");
    }
    let r = all.substring_char(d as usize, d as usize + 1);
    proof {
        assert(all@[d as int] == digit_char(d as int));
        assert(r@ =~= seq![digit_char(d as int)]);
    }
    r
}

/// The capital letter at place `k` of the alphabet, as text.
pub fn capital_str(k: u8) -> (r: &'static str)
    requires
        k < 26,
    ensures
        r@ == seq![capital(k as int)],
{
    let all = "ABCDEFGHIJKLMNOPQRSTUVWXYZ";
    proof {
        reveal_strlit("ABCDEFGHIJKLMNOPQRSTUVWXYZ");
    }
    let r = all.substring_char(k as usize, k as usize + 1);
    proof {
        assert(all@[k as int] == capital(k as int));
        assert(r@ =~= seq![capital(k as int)]);
    }
    r
}

/// Appends the digits of `n` to `s`.
pub fn push_nat(s: &mut String, n: u64)
    ensures
        final(s)@ == old(s)@ + nat_text(n as nat),
    decreases n,
{
    if n >= 10 {
        push_nat(s, n / 10);
    }
    let d: u8 = (n % 10) as u8;
    let ghost before = s@;
    s.append(digit_str(d));
    proof {
        if n >= 10 {
            assert(before + seq![digit_char((n % 10) as int)] =~= old(s)@ + nat_text(
                n as nat,
            ));
        } else {
            assert(before + seq![digit_char(n as int)] =~= old(s)@ + nat_text(n as nat));
        }
    }
}

/// Writes `v` in base ten.
pub fn int_to_string(v: i32) -> (s: String)
    ensures
        s@ == int_text(v as int),
{
    let mut s: String = String::new();
    if v < 0 {
        s.append("-");
        proof {
            reveal_strlit("-");
            assert(s@ =~= seq!['-']);
        }
        push_nat(&mut s, (-(v as i64)) as u64);
        proof {
            assert(s@ =~= seq!['-'] + nat_text((-v) as nat));
        }
    } else {
        push_nat(&mut s, v as u64);
        proof {
            assert(s@ =~= nat_text(v as nat));
        }
    }
    s
}

/// Appends the label of column `n` to `s`.
pub fn push_label(s: &mut String, n: usize)
    ensures
        final(s)@ == old(s)@ + label_text(n as nat),
    decreases n,
{
    if n > 0 {
        let m: usize = n - 1;
        push_label(s, m / 26);
        let k: u8 = (m % 26) as u8;
        let ghost before = s@;
        s.append(capital_str(k));
        proof {
            assert(before + seq![capital((m % 26) as int)] =~= old(s)@ + label_text(n as nat));
        }
    } else {
        proof {
            assert(s@ =~= old(s)@ + label_text(0));
        }
    }
}

/// The label of column `n`: `A` for 1, `Z` for 26, `AA` for 27.
pub fn col_to_letter(n: usize) -> (s: String)
    ensures
        s@ == label_text(n as nat),
{
    let mut s: String = String::new();
    push_label(&mut s, n);
    proof {
        assert(s@ =~= label_text(n as nat));
    }
    s
}

/// What a cell shows: its integer, or `ERR`.
pub fn cell_to_string(c: &Cell) -> (s: String)
    ensures
        s@ == cell_text(*c),
{
    match c {
        Cell::Value(v) => int_to_string(*v),
        Cell::Error => String::from_str("ERR"),
    }
}

/// A run of `n` spaces.
pub open spec fn spaces(n: nat) -> Seq<char> {
    Seq::new(n, |i: int| ' ')
}

/// `s` with spaces before it, as many as it takes to fill `width`
/// characters; `s` itself if it is that long.
pub open spec fn pad_left(s: Seq<char>, width: nat) -> Seq<char> {
    if s.len() >= width {
        s
    } else {
        spaces((width - s.len()) as nat) + s
    }
}

/// Appends `text` to `line`, put to the right of a field of `width`
/// characters.
pub fn push_padded(line: &mut String, text: &str, width: usize)
    ensures
        final(line)@ == old(line)@ + pad_left(text@, width as nat),
{
    let len: usize = text.unicode_len();
    let mut i: usize = len;
    while i < width
        invariant
            len == text@.len(),
            len <= i <= width || (i == len && len > width),
            line@ == old(line)@ + spaces((i - len) as nat),
        decreases width - i,
    {
        let ghost before = line@;
        line.append(" ");
        proof {
            reveal_strlit(" ");
            assert(before + seq![' '] =~= old(line)@ + spaces((i + 1 - len) as nat));
        }
        i = i + 1;
    }
    let ghost before = line@;
    line.append(text);
    proof {
        if len >= width {
            assert(spaces(0) =~= Seq::<char>::empty());
            assert(before + text@ =~= old(line)@ + text@);
        } else {
            assert(before + text@ =~= old(line)@ + (spaces((width - len) as nat) + text@));
        }
    }
}

} // verus!
