//! Segment numbers and the file names that stand for them.
//!
//! The segment with number `n` is kept in the file `<n>.log`, `n` written
//! in decimal without leading zeros. No other file name is a segment.

use vstd::prelude::*;
use crate::text::to_chars;

verus! {

/// The character that writes the digit `d`.
pub open spec fn digit_char(d: nat) -> char {
    if d == 0 {
        '0'
    } else if d == 1 {
        '1'
    } else if d == 2 {
        '2'
    } else if d == 3 {
        '3'
    } else if d == 4 {
        '4'
    } else if d == 5 {
        '5'
    } else if d == 6 {
        '6'
    } else if d == 7 {
        '7'
    } else if d == 8 {
        '8'
    } else {
        '9'
    }
}

/// The digit that `c` writes, if it writes one.
pub open spec fn digit_value(c: char) -> Option<nat> {
    if c == '0' {
        Some(0)
    } else if c == '1' {
        Some(1)
    } else if c == '2' {
        Some(2)
    } else if c == '3' {
        Some(3)
    } else if c == '4' {
        Some(4)
    } else if c == '5' {
        Some(5)
    } else if c == '6' {
        Some(6)
    } else if c == '7' {
        Some(7)
    } else if c == '8' {
        Some(8)
    } else if c == '9' {
        Some(9)
    } else {
        None
    }
}

/// `n` in decimal, without leading zeros.
pub open spec fn decimal(n: nat) -> Seq<char>
    decreases n,
{
    if n < 10 {
        seq![digit_char(n)]
    } else {
        decimal(n / 10).push(digit_char(n % 10))
    }
}

/// The number that a string of digits writes; a character that is no digit
/// counts as zero.
pub open spec fn decimal_value(s: Seq<char>) -> nat
    decreases s.len(),
{
    if s.len() == 0 {
        0
    } else {
        decimal_value(s.drop_last()) * 10 + match digit_value(s.last()) {
            Some(d) => d,
            None => 0,
        }
    }
}

/// `s` is the decimal form of a number: digits only, at least one, and no
/// leading zero but in `0` itself.
pub open spec fn is_decimal(s: Seq<char>) -> bool {
    &&& s.len() >= 1
    &&& forall|i: int| 0 <= i < s.len() ==> digit_value(#[trigger] s[i]) is Some
    &&& (s.len() == 1 || s[0] != '0')
}

/// The file name of the segment with number `id`.
pub open spec fn segment_name(id: u64) -> Seq<char> {
    decimal(id as nat) + ".log"@
}

/// The number of the segment that `name` is the file name of, if it is the
/// file name of one.
pub open spec fn segment_number(name: Seq<char>) -> Option<u64> {
    if exists|id: u64| name == segment_name(id) {
        Some(choose|id: u64| name == segment_name(id))
    } else {
        None
    }
}

/// The decimal form of a number is one, and writes that number.
pub proof fn lemma_decimal(n: nat)
    ensures
        is_decimal(decimal(n)),
        decimal_value(decimal(n)) == n,
    decreases n,
{
    if n < 10 {
        assert(decimal(n).drop_last() =~= Seq::<char>::empty());
        assert(decimal_value(decimal(n).drop_last()) == 0);
    } else {
        lemma_decimal(n / 10);
        let s = decimal(n);
        assert(s.drop_last() =~= decimal(n / 10));
        assert(s[0] == decimal(n / 10)[0]);
        if decimal(n / 10).len() == 1 {
            assert(decimal(n / 10)[0] != '0') by {
                assert(decimal_value(decimal(n / 10).drop_last()) == 0) by {
                    assert(decimal(n / 10).drop_last() =~= Seq::<char>::empty());
                }
            }
        }
        assert forall|i: int| 0 <= i < s.len() implies digit_value(#[trigger] s[i]) is Some by {
            if i < s.len() - 1 {
                assert(s[i] == decimal(n / 10)[i]);
            }
        }
    }
}

/// A decimal form is the decimal form of the number it writes.
pub proof fn lemma_decimal_of_value(s: Seq<char>)
    requires
        is_decimal(s),
    ensures
        decimal(decimal_value(s)) == s,
    decreases s.len(),
{
    if s.len() == 1 {
        assert(s.drop_last() =~= Seq::<char>::empty());
        assert(decimal_value(s.drop_last()) == 0);
        assert(digit_value(s[0]) is Some);
        assert(decimal(decimal_value(s)) =~= s);
    } else {
        let front = s.drop_last();
        assert(is_decimal(front)) by {
            assert forall|i: int| 0 <= i < front.len() implies digit_value(
                #[trigger] front[i],
            ) is Some by {
                assert(front[i] == s[i]);
            }
        }
        lemma_decimal_of_value(front);
        lemma_leading_digit(front);
        assert(digit_value(s.last()) is Some);
        let v = decimal_value(front);
        let d = digit_value(s.last())->0;
        assert(v >= 1);
        assert((v * 10 + d) / 10 == v && (v * 10 + d) % 10 == d);
        assert(decimal(decimal_value(s)) =~= s);
    }
}

/// A decimal form of more than one digit, or of one digit other than `0`,
/// writes a number above zero.
pub proof fn lemma_leading_digit(s: Seq<char>)
    requires
        is_decimal(s),
        s[0] != '0',
    ensures
        decimal_value(s) >= 1,
    decreases s.len(),
{
    if s.len() == 1 {
        assert(s.drop_last() =~= Seq::<char>::empty());
        assert(decimal_value(s.drop_last()) == 0);
        assert(digit_value(s[0]) is Some);
    } else {
        let front = s.drop_last();
        assert(is_decimal(front)) by {
            assert forall|i: int| 0 <= i < front.len() implies digit_value(
                #[trigger] front[i],
            ) is Some by {
                assert(front[i] == s[i]);
            }
        }
        assert(front[0] == s[0]);
        lemma_leading_digit(front);
    }
}

/// Two segments with the same file name are the same segment.
pub proof fn lemma_segment_name_injective(a: u64, b: u64)
    requires
        segment_name(a) == segment_name(b),
    ensures
        a == b,
{
    lemma_decimal(a as nat);
    lemma_decimal(b as nat);
    let x = decimal(a as nat);
    let y = decimal(b as nat);
    let suffix = ".log"@;
    reveal_strlit(".log");
    assert((x + suffix).len() == (y + suffix).len());
    assert(x =~= y) by {
        assert forall|i: int| 0 <= i < x.len() implies x[i] == y[i] by {
            assert((x + suffix)[i] == x[i]);
            assert((y + suffix)[i] == y[i]);
        }
    }
}

/// The text of one digit.
fn digit_text(d: u8) -> (r: &'static str)
    requires
        d < 10,
    ensures
        r@ == seq![digit_char(d as nat)],
{
    proof {
        reveal_strlit("0");
        reveal_strlit("1");
        reveal_strlit("2");
        reveal_strlit("3");
        reveal_strlit("4");
        reveal_strlit("5");
        reveal_strlit("6");
        reveal_strlit("7");
        reveal_strlit("8");
        reveal_strlit("9");
    }
    let r = if d == 0 {
        "0"
    } else if d == 1 {
        "1"
    } else if d == 2 {
        "2"
    } else if d == 3 {
        "3"
    } else if d == 4 {
        "4"
    } else if d == 5 {
        "5"
    } else if d == 6 {
        "6"
    } else if d == 7 {
        "7"
    } else if d == 8 {
        "8"
    } else {
        "9"
    };
    assert(r@ =~= seq![digit_char(d as nat)]);
    r
}

/// The digit that `c` writes, if it writes one.
fn digit_of(c: char) -> (r: Option<u8>)
    ensures
        match r {
            Some(d) => digit_value(c) == Some(d as nat) && d < 10,
            None => digit_value(c) is None,
        },
{
    if c == '0' {
        Some(0)
    } else if c == '1' {
        Some(1)
    } else if c == '2' {
        Some(2)
    } else if c == '3' {
        Some(3)
    } else if c == '4' {
        Some(4)
    } else if c == '5' {
        Some(5)
    } else if c == '6' {
        Some(6)
    } else if c == '7' {
        Some(7)
    } else if c == '8' {
        Some(8)
    } else if c == '9' {
        Some(9)
    } else {
        None
    }
}

/// The digits of `low`, most significant first, where `low` holds them least
/// significant first.
spec fn written(low: Seq<u8>) -> Seq<char> {
    Seq::new(low.len(), |i: int| digit_char(low[low.len() - 1 - i] as nat))
}

/// The file name of the segment with number `id`: `<id>.log`.
pub fn segment_file_name(id: u64) -> (r: String)
    ensures
        r@ == segment_name(id),
{
    let mut low: Vec<u8> = Vec::new();
    let mut n: u64 = id;
    loop
        invariant_except_break
            decimal(id as nat) == decimal(n as nat) + written(low@),
        invariant
            forall|i: int| 0 <= i < low@.len() ==> low@[i] < 10,
        ensures
            decimal(id as nat) == written(low@),
        decreases n,
    {
        let d: u8 = (n % 10) as u8;
        let ghost before = low@;
        low.push(d);
        assert(written(low@) =~= seq![digit_char(d as nat)] + written(before));
        if n < 10 {
            assert(decimal(n as nat) + written(before) =~= written(low@));
            break ;
        }
        assert(decimal((n / 10) as nat) + written(low@) =~= decimal(n as nat) + written(before));
        n = n / 10;
    }
    let mut name = String::new();
    let mut i: usize = low.len();
    while i > 0
        invariant
            i <= low@.len(),
            forall|j: int| 0 <= j < low@.len() ==> low@[j] < 10,
            name@ == written(low@).take(low@.len() - i),
        decreases i,
    {
        i -= 1;
        let ghost before = name@;
        name.append(digit_text(low[i]));
        assert(name@ =~= written(low@).take(low@.len() - i));
    }
    assert(name@ =~= written(low@));
    name.append(".log");
    name
}

/// The number of the segment that a file name stands for, or `None` where
/// the name is that of no segment.
pub fn parse_segment_file_name(name: &str) -> (r: Option<u64>)
    ensures
        r == segment_number(name@),
        match r {
            Some(id) => name@ == segment_name(id),
            None => forall|id: u64| name@ != segment_name(id),
        },
{
    let r = parse_name(name);
    proof {
        if let Some(id) = r {
            lemma_segment_name_injective(id, segment_number(name@)->0);
        }
    }
    r
}

/// Parses the file name of a segment.
fn parse_name(name: &str) -> (r: Option<u64>)
    ensures
        match r {
            Some(id) => name@ == segment_name(id),
            None => forall|id: u64| name@ != segment_name(id),
        },
{
    let chars = to_chars(name);
    let n = chars.len();
    proof {
        reveal_strlit(".log");
        assert forall|id: u64| #[trigger] segment_name(id).len() >= 5 by {
            lemma_decimal(id as nat);
        }
    }
    if n < 5 {
        return None;
    }
    let digits = n - 4;
    if chars[digits] != '.' || chars[digits + 1] != 'l' || chars[digits + 2] != 'o' || chars[digits
        + 3] != 'g' {
        assert forall|id: u64| name@ != segment_name(id) by {
            let m = segment_name(id);
            if name@ == m {
                let k = decimal(id as nat).len() as int;
                assert(m[k] == '.' && m[k + 1] == 'l' && m[k + 2] == 'o' && m[k + 3] == 'g');
            }
        }
        return None;
    }
    let ghost front = chars@.take(digits as int);
    assert(name@ =~= front + ".log"@);
    assert forall|id: u64| name@ == segment_name(id) implies front == decimal(id as nat) by {
        let d = decimal(id as nat);
        assert(d.len() == front.len());
        assert forall|i: int| 0 <= i < d.len() implies d[i] == front[i] by {
            assert((d + ".log"@)[i] == d[i]);
        }
        assert(d =~= front);
    }
    assert forall|id: u64| !is_decimal(front) implies name@ != segment_name(id) by {
        lemma_decimal(id as nat);
    }
    if digits > 1 && chars[0] == '0' {
        return None;
    }
    let mut value: u64 = 0;
    let mut i: usize = 0;
    while i < digits
        invariant
            i <= digits,
            digits == front.len(),
            digits + 4 == chars@.len(),
            front == chars@.take(digits as int),
            value == decimal_value(front.take(i as int)),
            forall|j: int| 0 <= j < i ==> digit_value(#[trigger] front[j]) is Some,
            forall|id: u64| !is_decimal(front) ==> name@ != #[trigger] segment_name(id),
            forall|id: u64| name@ == #[trigger] segment_name(id) ==> front == decimal(id as nat),
        decreases digits - i,
    {
        let ghost prefix = front.take(i + 1);
        assert(prefix.drop_last() =~= front.take(i as int));
        assert(prefix.last() == front[i as int]);
        let d = match digit_of(chars[i]) {
            Some(d) => d,
            None => {
                return None;
            },
        };
        if value > (u64::MAX - d as u64) / 10 {
            proof {
                lemma_value_grows(front, i + 1);
                assert forall|id: u64| name@ != segment_name(id) by {
                    lemma_decimal(id as nat);
                }
            }
            return None;
        }
        value = value * 10 + d as u64;
        i += 1;
    }
    proof {
        assert(front.take(digits as int) =~= front);
        assert(is_decimal(front));
        lemma_decimal_of_value(front);
    }
    Some(value)
}

/// A string of digits writes at least what any front part of it writes.
proof fn lemma_value_grows(s: Seq<char>, k: int)
    requires
        0 <= k <= s.len(),
    ensures
        decimal_value(s.take(k)) <= decimal_value(s),
    decreases s.len() - k,
{
    if k == s.len() {
        assert(s.take(k) =~= s);
    } else {
        lemma_value_grows(s, k + 1);
        let longer = s.take(k + 1);
        assert(longer.drop_last() =~= s.take(k));
    }
}

} // verus!
