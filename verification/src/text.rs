//! Comparing and reading short texts.

use vstd::prelude::*;
use vstd::string::StrSliceExecFns;

verus! {

/// A character's code, capital letters of ASCII counting as small ones.
pub open spec fn folded(c: char) -> int {
    if 65 <= c as u32 <= 90 {
        c as u32 + 32
    } else {
        c as u32 as int
    }
}

/// A text's codes, capital letters of ASCII counting as small ones.
pub open spec fn fold(s: Seq<char>) -> Seq<int> {
    Seq::new(s.len(), |i: int| folded(s[i]))
}

fn fold_char(c: char) -> (r: u32)
    ensures
        r == folded(c),
{
    let v: u32 = c as u32;
    if v >= 65 && v <= 90 {
        v + 32
    } else {
        v
    }
}

/// Whether two texts are the same but for the case of ASCII letters.
pub fn same_but_case(a: &str, b: &str) -> (r: bool)
    ensures
        r == (fold(a@) == fold(b@)),
{
    let n: usize = a.unicode_len();
    if n != b.unicode_len() {
        proof {
            assert(fold(a@).len() != fold(b@).len());
        }
        return false;
    }
    let mut i: usize = 0;
    while i < n
        invariant
            i <= n,
            n == a@.len(),
            n == b@.len(),
            forall|k: int| 0 <= k < i ==> folded(a@[k]) == folded(#[trigger] b@[k]),
        decreases n - i,
    {
        if fold_char(a.get_char(i)) != fold_char(b.get_char(i)) {
            proof {
                assert(fold(a@)[i as int] != fold(b@)[i as int]);
            }
            return false;
        }
        i = i + 1;
    }
    proof {
        assert(fold(a@) =~= fold(b@));
    }
    true
}

/// Whether two texts are the same.
pub fn same_text(a: &str, b: &str) -> (r: bool)
    ensures
        r == (a@ == b@),
{
    let n: usize = a.unicode_len();
    if n != b.unicode_len() {
        return false;
    }
    let mut i: usize = 0;
    while i < n
        invariant
            i <= n,
            n == a@.len(),
            n == b@.len(),
            forall|k: int| 0 <= k < i ==> a@[k] == #[trigger] b@[k],
        decreases n - i,
    {
        if a.get_char(i) != b.get_char(i) {
            return false;
        }
        i = i + 1;
    }
    proof {
        assert(a@ =~= b@);
    }
    true
}

/// A decimal digit's value; none for another character.
pub open spec fn digit_value(c: char) -> Option<int> {
    if 48 <= c as u32 <= 57 {
        Some(c as u32 - 48)
    } else {
        None
    }
}

/// The number that the first `n` characters spell in decimal; none where one
/// of them is no digit.
pub open spec fn decimal(s: Seq<char>, n: nat) -> Option<int>
    decreases n,
{
    if n == 0 {
        Some(0)
    } else {
        match (decimal(s, (n - 1) as nat), digit_value(s[n - 1])) {
            (Some(v), Some(d)) => Some(10 * v + d),
            _ => None,
        }
    }
}

/// The digits of a number's text: what follows a plus sign, where there is one.
pub open spec fn unsigned_digits(s: Seq<char>) -> Seq<char> {
    if s.len() > 0 && s[0] == '+' {
        s.skip(1)
    } else {
        s
    }
}

/// The 32-bit number that a text spells in decimal: digits, at least one, after
/// an optional plus sign. None where it spells none, or one too large.
pub open spec fn number_in(s: Seq<char>) -> Option<u32> {
    let d = unsigned_digits(s);
    if d.len() == 0 {
        None
    } else {
        match decimal(d, d.len()) {
            Some(v) => if v <= u32::MAX {
                Some(v as u32)
            } else {
                None
            },
            None => None,
        }
    }
}

pub proof fn lemma_decimal_grows(s: Seq<char>, m: nat, n: nat)
    requires
        m <= n,
    ensures
        decimal(s, n) is Some ==> decimal(s, m) is Some && 0 <= decimal(s, m).unwrap() <= decimal(s, n).unwrap(),
    decreases n,
{
    if n > 0 {
        if m < n {
            lemma_decimal_grows(s, m, (n - 1) as nat);
        } else {
            lemma_decimal_grows(s, (m - 1) as nat, (n - 1) as nat);
        }
    }
}

/// The 32-bit number that a text spells in decimal.
pub fn read_number(s: &str) -> (r: Option<u32>)
    ensures
        r == number_in(s@),
{
    let n: usize = s.unicode_len();
    let from: usize = if n > 0 && s.get_char(0) == '+' {
        1
    } else {
        0
    };
    let ghost d = unsigned_digits(s@);
    if n == from {
        return None;
    }
    let mut v: u64 = 0;
    let mut i: usize = from;
    while i < n
        invariant
            from <= i <= n,
            from < n,
            n == s@.len(),
            d == unsigned_digits(s@),
            d.len() == n - from,
            forall|k: int| 0 <= k < d.len() ==> #[trigger] d[k] == s@[k + from],
            decimal(d, (i - from) as nat) == Some(v as int),
            v <= u32::MAX,
        decreases n - i,
    {
        let c: u32 = s.get_char(i) as u32;
        proof {
            assert(d[i - from] == s@[i as int]);
            lemma_decimal_grows(d, (i + 1 - from) as nat, d.len());
        }
        if c < 48 || c > 57 {
            return None;
        }
        v = 10 * v + (c - 48) as u64;
        if v > 0xFFFF_FFFF {
            return None;
        }
        i = i + 1;
    }
    Some(v as u32)
}

} // verus!
