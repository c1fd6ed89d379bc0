//! Reading characters: blanks, runs of digits and letters, and the numbers
//! they stand for.

use vstd::prelude::*;
use vstd::slice::slice_subrange;

verus! {

/// `c` is a blank: a space, a tab, a line feed, a vertical tab, a form
/// feed or a carriage return.
pub open spec fn is_blank(c: char) -> bool {
    c == ' ' || c == '\t' || c == '\n' || c == '\x0B' || c == '\x0C' || c == '\r'
}

/// `c` is one of the digits `0` to `9`.
pub open spec fn is_digit(c: char) -> bool {
    '0' <= c <= '9'
}

/// `c` is one of the letters `a` to `z` or `A` to `Z`.
pub open spec fn is_letter(c: char) -> bool {
    ('a' <= c <= 'z') || ('A' <= c <= 'Z')
}

/// The number that the digit `c` stands for.
pub open spec fn digit_value(c: char) -> int {
    c as u32 - '0' as u32
}

/// The place of the letter `c` in the alphabet, from 1, whatever its case.
pub open spec fn letter_value(c: char) -> int {
    if 'a' <= c <= 'z' {
        c as u32 - 'a' as u32 + 1
    } else {
        c as u32 - 'A' as u32 + 1
    }
}

/// `a` and `b` are the same character, or the same letter in two cases.
pub open spec fn same_letter(a: char, b: char) -> bool {
    a == b || (is_letter(a) && is_letter(b) && letter_value(a) == letter_value(b))
}

/// `a` and `b` are the same word, whatever the case of their letters.
pub open spec fn same_word(a: Seq<char>, b: Seq<char>) -> bool {
    a.len() == b.len() && forall|i: int| 0 <= i < a.len() ==> same_letter(#[trigger] a[i], b[i])
}

/// Every character of `s` is a digit.
pub open spec fn all_digits(s: Seq<char>) -> bool {
    forall|i: int| 0 <= i < s.len() ==> is_digit(#[trigger] s[i])
}

/// Every character of `s` is a letter.
pub open spec fn all_letters(s: Seq<char>) -> bool {
    forall|i: int| 0 <= i < s.len() ==> is_letter(#[trigger] s[i])
}

/// Every character of `s` is a blank.
pub open spec fn all_blank(s: Seq<char>) -> bool {
    forall|i: int| 0 <= i < s.len() ==> is_blank(#[trigger] s[i])
}

/// The number written by a run of digits, in base ten. The empty run
/// stands for 0.
pub open spec fn decimal(s: Seq<char>) -> int
    decreases s.len(),
{
    if s.len() == 0 {
        0
    } else {
        10 * decimal(s.drop_last()) + digit_value(s.last())
    }
}

/// The number written by a run of letters in the bijective base 26 of
/// column labels: `A` is 1, `Z` is 26, `AA` is 27.
pub open spec fn base26(s: Seq<char>) -> int
    decreases s.len(),
{
    if s.len() == 0 {
        0
    } else {
        26 * base26(s.drop_last()) + letter_value(s.last())
    }
}

/// The place of the first character at or after `from` that is no blank,
/// or the length of `s` if there is none.
pub open spec fn first_nonblank(s: Seq<char>, from: int) -> int
    decreases s.len() - from,
{
    if from >= s.len() {
        s.len() as int
    } else if !is_blank(s[from]) {
        from
    } else {
        first_nonblank(s, from + 1)
    }
}

/// The place just after the last character before `to` that is no blank,
/// or 0 if there is none.
pub open spec fn last_nonblank_end(s: Seq<char>, to: int) -> int
    decreases to,
{
    if to <= 0 {
        0
    } else if !is_blank(s[to - 1]) {
        to
    } else {
        last_nonblank_end(s, to - 1)
    }
}

/// `s` without the blanks at its start and at its end.
pub open spec fn trimmed(s: Seq<char>) -> Seq<char> {
    let a = first_nonblank(s, 0);
    let b = last_nonblank_end(s, s.len() as int);
    if a >= b {
        Seq::empty()
    } else {
        s.subrange(a, b)
    }
}

/// The length of the run of letters at the start of `s`, counted from `from`.
pub open spec fn letter_run_end(s: Seq<char>, from: int) -> int
    decreases s.len() - from,
{
    if from >= s.len() {
        s.len() as int
    } else if !is_letter(s[from]) {
        from
    } else {
        letter_run_end(s, from + 1)
    }
}

/// The place of the first `c` in `s` at or after `from`, or the length of
/// `s` if there is none.
pub open spec fn first_of(s: Seq<char>, c: char, from: int) -> int
    decreases s.len() - from,
{
    if from >= s.len() {
        s.len() as int
    } else if s[from] == c {
        from
    } else {
        first_of(s, c, from + 1)
    }
}

/// A run of digits never stands for less than one of its prefixes.
pub proof fn lemma_decimal_grows(s: Seq<char>, k: int)
    requires
        all_digits(s),
        0 <= k <= s.len(),
    ensures
        0 <= decimal(s.take(k)) <= decimal(s),
    decreases s.len(),
{
    if s.len() == 0 {
        assert(s.take(k) =~= s);
    } else if k == s.len() {
        assert(s.take(k) =~= s);
        lemma_decimal_grows(s.drop_last(), k - 1);
        assert(s.drop_last().take(k - 1) =~= s.take(k - 1));
        assert(all_digits(s.drop_last()));
        assert(is_digit(s.last()));
    } else {
        assert(all_digits(s.drop_last()));
        lemma_decimal_grows(s.drop_last(), k);
        assert(s.drop_last().take(k) =~= s.take(k));
        assert(is_digit(s.last()));
        lemma_decimal_grows(s.drop_last(), s.len() - 1);
        assert(s.drop_last().take(s.len() - 1) =~= s.drop_last());
    }
}

/// A run of letters never stands for less than one of its prefixes.
pub proof fn lemma_base26_grows(s: Seq<char>, k: int)
    requires
        all_letters(s),
        0 <= k <= s.len(),
    ensures
        0 <= base26(s.take(k)) <= base26(s),
        s.len() > 0 ==> base26(s) >= 1,
    decreases s.len(),
{
    if s.len() == 0 {
        assert(s.take(k) =~= s);
    } else if k == s.len() {
        assert(s.take(k) =~= s);
        assert(all_letters(s.drop_last()));
        lemma_base26_grows(s.drop_last(), k - 1);
        assert(is_letter(s.last()));
    } else {
        assert(all_letters(s.drop_last()));
        lemma_base26_grows(s.drop_last(), k);
        assert(s.drop_last().take(k) =~= s.take(k));
        assert(is_letter(s.last()));
    }
}

/// Whether `c` is a blank.
pub fn blank(c: char) -> (r: bool)
    ensures
        r == is_blank(c),
{
    c == ' ' || c == '\t' || c == '\n' || c == '\x0B' || c == '\x0C' || c == '\r'
}

/// Whether `c` is a digit.
pub fn digit(c: char) -> (r: bool)
    ensures
        r == is_digit(c),
{
    c >= '0' && c <= '9'
}

/// Whether `c` is a letter.
pub fn letter(c: char) -> (r: bool)
    ensures
        r == is_letter(c),
{
    (c >= 'a' && c <= 'z') || (c >= 'A' && c <= 'Z')
}

/// The characters of a string.
pub fn chars_of(s: &str) -> (v: Vec<char>)
    ensures
        v@ == s@,
{
    let mut v: Vec<char> = Vec::new();
    for c in it: s.chars()
        invariant
            it.seq() == s@,
            v@ == it.seq().take(it.index() as int),
    {
        v.push(c);
    }
    v
}

/// The part of `s` between its leading and trailing blanks.
pub fn trim(s: &[char]) -> (t: &[char])
    ensures
        t@ == trimmed(s@),
{
    let n: usize = s.len();
    let mut a: usize = 0;
    while a < n && blank(s[a])
        invariant
            a <= n,
            n == s@.len(),
            first_nonblank(s@, 0) == first_nonblank(s@, a as int),
        decreases n - a,
    {
        a = a + 1;
    }
    let mut b: usize = n;
    while b > 0 && blank(s[b - 1])
        invariant
            b <= n,
            n == s@.len(),
            last_nonblank_end(s@, n as int) == last_nonblank_end(s@, b as int),
        decreases b,
    {
        b = b - 1;
    }
    if a >= b {
        let t = slice_subrange(s, 0, 0);
        assert(t@ =~= Seq::<char>::empty());
        t
    } else {
        slice_subrange(s, a, b)
    }
}

/// Reads `s` as a run of digits that stands for a number up to `limit`.
pub fn read_decimal(s: &[char], limit: u64) -> (r: Option<u64>)
    requires
        limit <= 0xFFFF_FFFF_FFFF,
    ensures
        r == (if s@.len() > 0 && all_digits(s@) && decimal(s@) <= limit {
            Some(decimal(s@) as u64)
        } else {
            None
        }),
        r matches Some(v) ==> v == decimal(s@) && v <= limit,
{
    let n: usize = s.len();
    if n == 0 {
        return None;
    }
    let mut acc: u64 = 0;
    let mut i: usize = 0;
    while i < n
        invariant
            i <= n,
            n == s@.len(),
            limit <= 0xFFFF_FFFF_FFFF,
            all_digits(s@.take(i as int)),
            acc == decimal(s@.take(i as int)),
            acc <= limit,
        decreases n - i,
    {
        let c: char = s[i];
        if !digit(c) {
            assert(!all_digits(s@));
            return None;
        }
        let d: u64 = (c as u32 - '0' as u32) as u64;
        let next: u64 = acc * 10 + d;
        proof {
            let p = s@.take(i + 1);
            assert(p.drop_last() =~= s@.take(i as int));
            assert(p.last() == c);
            assert(next == decimal(p));
            assert forall|j: int| 0 <= j < p.len() implies is_digit(#[trigger] p[j]) by {
                if j < i {
                    assert(s@.take(i as int)[j] == p[j]);
                }
            }
            if next > limit && all_digits(s@) {
                lemma_decimal_grows(s@, i + 1);
            }
        }
        if next > limit {
            return None;
        }
        acc = next;
        i = i + 1;
    }
    assert(s@.take(n as int) =~= s@);
    Some(acc)
}

/// Reads `s` as a run of letters that stands for a column up to `limit`.
pub fn read_base26(s: &[char], limit: u64) -> (r: Option<u64>)
    requires
        limit <= 0xFFFF_FFFF_FFFF,
    ensures
        r == (if s@.len() > 0 && all_letters(s@) && base26(s@) <= limit {
            Some(base26(s@) as u64)
        } else {
            None
        }),
        r matches Some(v) ==> v == base26(s@) && v <= limit,
{
    let n: usize = s.len();
    if n == 0 {
        return None;
    }
    let mut acc: u64 = 0;
    let mut i: usize = 0;
    while i < n
        invariant
            i <= n,
            n == s@.len(),
            limit <= 0xFFFF_FFFF_FFFF,
            all_letters(s@.take(i as int)),
            acc == base26(s@.take(i as int)),
            acc <= limit,
        decreases n - i,
    {
        let c: char = s[i];
        if !letter(c) {
            assert(!all_letters(s@));
            return None;
        }
        let d: u64 = if c >= 'a' && c <= 'z' {
            (c as u32 - 'a' as u32 + 1) as u64
        } else {
            (c as u32 - 'A' as u32 + 1) as u64
        };
        let next: u64 = acc * 26 + d;
        proof {
            let p = s@.take(i + 1);
            assert(p.drop_last() =~= s@.take(i as int));
            assert(p.last() == c);
            assert(next == base26(p));
            assert forall|j: int| 0 <= j < p.len() implies is_letter(#[trigger] p[j]) by {
                if j < i {
                    assert(s@.take(i as int)[j] == p[j]);
                }
            }
            if next > limit && all_letters(s@) {
                lemma_base26_grows(s@, i + 1);
            }
        }
        if next > limit {
            return None;
        }
        acc = next;
        i = i + 1;
    }
    assert(s@.take(n as int) =~= s@);
    Some(acc)
}

/// How many letters `s` starts with.
pub fn letter_run(s: &[char]) -> (k: usize)
    ensures
        k == letter_run_end(s@, 0),
        k <= s@.len(),
        all_letters(s@.take(k as int)),
        k < s@.len() ==> !is_letter(s@[k as int]),
{
    let n: usize = s.len();
    let mut k: usize = 0;
    while k < n && letter(s[k])
        invariant
            k <= n,
            n == s@.len(),
            letter_run_end(s@, 0) == letter_run_end(s@, k as int),
            all_letters(s@.take(k as int)),
        decreases n - k,
    {
        proof {
            let p = s@.take(k + 1);
            assert forall|j: int| 0 <= j < p.len() implies is_letter(#[trigger] p[j]) by {
                if j < k {
                    assert(s@.take(k as int)[j] == p[j]);
                }
            }
        }
        k = k + 1;
    }
    k
}

/// The place of the first `c` in `s`, or the length of `s` if there is none.
pub fn find_char(s: &[char], c: char) -> (k: usize)
    ensures
        k == first_of(s@, c, 0),
        k <= s@.len(),
        k < s@.len() ==> s@[k as int] == c,
        forall|j: int| 0 <= j < k ==> s@[j] != c,
{
    let n: usize = s.len();
    let mut k: usize = 0;
    while k < n && s[k] != c
        invariant
            k <= n,
            n == s@.len(),
            first_of(s@, c, 0) == first_of(s@, c, k as int),
            forall|j: int| 0 <= j < k ==> s@[j] != c,
        decreases n - k,
    {
        k = k + 1;
    }
    k
}

/// Whether `s` begins with the characters of `word`.
pub fn starts_with(s: &[char], word: &[char]) -> (r: bool)
    ensures
        r == (word@.len() <= s@.len() && s@.take(word@.len() as int) == word@),
{
    let n: usize = word.len();
    if n > s.len() {
        return false;
    }
    let mut i: usize = 0;
    while i < n
        invariant
            i <= n,
            n == word@.len(),
            n <= s@.len(),
            s@.take(i as int) == word@.take(i as int),
        decreases n - i,
    {
        if s[i] != word[i] {
            assert(s@.take(n as int)[i as int] != word@[i as int]);
            return false;
        }
        assert(s@.take(i + 1) =~= s@.take(i as int).push(s@[i as int]));
        assert(word@.take(i + 1) =~= word@.take(i as int).push(word@[i as int]));
        i = i + 1;
    }
    assert(word@.take(n as int) =~= word@);
    true
}

/// Whether `a` and `b` are the same character, or the same letter in two
/// cases.
pub fn letters_match(a: char, b: char) -> (r: bool)
    ensures
        r == same_letter(a, b),
{
    if a == b {
        true
    } else if letter(a) && letter(b) {
        let x: u32 = if a >= 'a' && a <= 'z' { a as u32 - 'a' as u32 } else { a as u32 - 'A' as u32 };
        let y: u32 = if b >= 'a' && b <= 'z' { b as u32 - 'a' as u32 } else { b as u32 - 'A' as u32 };
        x == y
    } else {
        false
    }
}

/// Whether `s` is the word `word`, whatever the case of its letters.
pub fn is_word(s: &[char], word: &str) -> (r: bool)
    ensures
        r == same_word(s@, word@),
{
    let w: Vec<char> = chars_of(word);
    let n: usize = w.len();
    if s.len() != n {
        return false;
    }
    let mut i: usize = 0;
    while i < n
        invariant
            i <= n,
            n == w@.len(),
            n == s@.len(),
            w@ == word@,
            forall|j: int| 0 <= j < i ==> same_letter(#[trigger] s@[j], w@[j]),
        decreases n - i,
    {
        if !letters_match(s[i], w[i]) {
            return false;
        }
        i = i + 1;
    }
    true
}

} // verus!
