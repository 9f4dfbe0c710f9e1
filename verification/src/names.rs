//! The names of the files in a database directory: `sstable_N.sst` for the
//! sorted run with the number N, and `wal_NNNN.log` for the log segment
//! with the number NNNN, padded with zeros to four digits.

use vstd::prelude::*;
use vstd::string::*;

verus! {

/// The digit that stands for `d`.
pub open spec fn digit_char(d: nat) -> char {
    if d == 0 {
        '0'
    } else if d == 1 {
        '1'
    } else if d == 2 {
        '2'
    } else if d == 3 {
        '3'
    } else if d == 4 {
        '4'
    } else if d == 5 {
        '5'
    } else if d == 6 {
        '6'
    } else if d == 7 {
        '7'
    } else if d == 8 {
        '8'
    } else {
        '9'
    }
}

/// What a digit stands for.
pub open spec fn digit_of(c: char) -> Option<nat> {
    if c == '0' {
        Some(0)
    } else if c == '1' {
        Some(1)
    } else if c == '2' {
        Some(2)
    } else if c == '3' {
        Some(3)
    } else if c == '4' {
        Some(4)
    } else if c == '5' {
        Some(5)
    } else if c == '6' {
        Some(6)
    } else if c == '7' {
        Some(7)
    } else if c == '8' {
        Some(8)
    } else if c == '9' {
        Some(9)
    } else {
        None
    }
}

/// A number in decimal digits, without leading zeros.
pub open spec fn decimal(n: nat) -> Seq<char>
    decreases n,
{
    if n < 10 {
        seq![digit_char(n)]
    } else {
        decimal(n / 10).push(digit_char(n % 10))
    }
}

/// The number that a string of decimal digits stands for. Leading zeros
/// are accepted; an empty string or another character is not.
pub open spec fn number_of(s: Seq<char>) -> Option<nat>
    decreases s.len(),
{
    if s.len() == 0 {
        None
    } else {
        match digit_of(s.last()) {
            None => None,
            Some(d) => if s.len() == 1 {
                Some(d)
            } else {
                match number_of(s.drop_last()) {
                    None => None,
                    Some(m) => Some(m * 10 + d),
                }
            },
        }
    }
}

/// Reading undoes writing: the digits of a number stand for the number.
pub proof fn lemma_number_of_decimal(n: nat)
    ensures
        number_of(decimal(n)) == Some(n),
        decimal(n).len() >= 1,
    decreases n,
{
    if n >= 10 {
        lemma_number_of_decimal(n / 10);
        assert(decimal(n).drop_last() =~= decimal(n / 10));
    }
}

/// `sstable_`
pub open spec fn sstable_prefix() -> Seq<char> {
    seq!['s', 's', 't', 'a', 'b', 'l', 'e', '_']
}

/// `.sst`
pub open spec fn sstable_suffix() -> Seq<char> {
    seq!['.', 's', 's', 't']
}

/// `wal_`
pub open spec fn wal_prefix() -> Seq<char> {
    seq!['w', 'a', 'l', '_']
}

/// `.log`
pub open spec fn wal_suffix() -> Seq<char> {
    seq!['.', 'l', 'o', 'g']
}

/// The name of the sorted run with the number `n`.
pub open spec fn sstable_name(n: nat) -> Seq<char> {
    sstable_prefix() + decimal(n) + sstable_suffix()
}

/// The zeros that pad `digits` to four characters.
pub open spec fn padding(digits: nat) -> Seq<char> {
    if digits >= 4 {
        Seq::empty()
    } else {
        Seq::new((4 - digits) as nat, |i: int| '0')
    }
}

/// The name of the log segment with the number `n`.
pub open spec fn wal_name(n: nat) -> Seq<char> {
    wal_prefix() + padding(decimal(n).len()) + decimal(n) + wal_suffix()
}

/// The number between `prefix` and `suffix` in `name`, if the name is made
/// so and the number is at most `max`.
pub open spec fn number_between(name: Seq<char>, prefix: Seq<char>, suffix: Seq<char>, max: nat) -> Option<
    nat,
> {
    let n = name.len() as int;
    if n < prefix.len() + suffix.len() || name.subrange(0, prefix.len() as int) != prefix
        || name.subrange(n - suffix.len(), n) != suffix {
        None
    } else {
        match number_of(name.subrange(prefix.len() as int, n - suffix.len())) {
            Some(v) => if v <= max {
                Some(v)
            } else {
                None
            },
            None => None,
        }
    }
}

/// The number of the sorted run that `name` names, if it names one.
pub open spec fn sstable_number(name: Seq<char>) -> Option<nat> {
    number_between(name, sstable_prefix(), sstable_suffix(), u64::MAX as nat)
}

/// The number of the log segment that `name` names, if it names one.
pub open spec fn wal_number(name: Seq<char>) -> Option<nat> {
    number_between(name, wal_prefix(), wal_suffix(), u16::MAX as nat)
}

/// Leading zeros change no number.
pub proof fn lemma_number_of_padded(zeros: nat, s: Seq<char>)
    requires
        number_of(s) is Some,
    ensures
        number_of(Seq::new(zeros, |i: int| '0') + s) == number_of(s),
    decreases s.len(),
{
    let pad = Seq::new(zeros, |i: int| '0');
    let whole = pad + s;
    if zeros > 0 {
        if s.len() == 1 {
            lemma_number_of_zeros(zeros);
            assert(whole.drop_last() =~= pad);
        } else {
            lemma_number_of_padded(zeros, s.drop_last());
            assert(whole.drop_last() =~= pad + s.drop_last());
        }
    } else {
        assert(whole =~= s);
    }
}

/// A string of zeros stands for zero.
pub proof fn lemma_number_of_zeros(zeros: nat)
    requires
        zeros > 0,
    ensures
        number_of(Seq::new(zeros, |i: int| '0')) == Some(0nat),
    decreases zeros,
{
    let pad = Seq::new(zeros, |i: int| '0');
    if zeros > 1 {
        lemma_number_of_zeros((zeros - 1) as nat);
        assert(pad.drop_last() =~= Seq::new((zeros - 1) as nat, |i: int| '0'));
    }
}

/// The name of a sorted run names that run.
pub proof fn lemma_sstable_name(n: nat)
    requires
        n <= u64::MAX,
    ensures
        sstable_number(sstable_name(n)) == Some(n),
{
    lemma_number_of_decimal(n);
    let name = sstable_name(n);
    let len = name.len() as int;
    assert(name.subrange(0, 8) =~= sstable_prefix());
    assert(name.subrange(len - 4, len) =~= sstable_suffix());
    assert(name.subrange(8, len - 4) =~= decimal(n));
}

/// The name of a log segment names that segment.
pub proof fn lemma_wal_name(n: nat)
    requires
        n <= u16::MAX,
    ensures
        wal_number(wal_name(n)) == Some(n),
{
    lemma_number_of_decimal(n);
    let name = wal_name(n);
    let len = name.len() as int;
    let pad = padding(decimal(n).len());
    assert(name.subrange(0, 4) =~= wal_prefix());
    assert(name.subrange(len - 4, len) =~= wal_suffix());
    assert(name.subrange(4, len - 4) =~= pad + decimal(n));
    if decimal(n).len() < 4 {
        lemma_number_of_padded((4 - decimal(n).len()) as nat, decimal(n));
    } else {
        assert(pad + decimal(n) =~= decimal(n));
    }
}

/// No name names both a sorted run and a log segment.
pub proof fn lemma_names_apart(name: Seq<char>)
    ensures
        !(sstable_number(name) is Some && wal_number(name) is Some),
{
    if sstable_number(name) is Some && wal_number(name) is Some {
        assert(name.subrange(0, 8)[0] == name[0]);
        assert(name.subrange(0, 4)[0] == name[0]);
        assert(sstable_prefix()[0] == 's');
        assert(wal_prefix()[0] == 'w');
    }
}

/// Runs with different numbers have different names.
pub proof fn lemma_sstable_names_differ(a: nat, b: nat)
    requires
        a <= u64::MAX,
        b <= u64::MAX,
        a != b,
    ensures
        sstable_name(a) != sstable_name(b),
{
    lemma_sstable_name(a);
    lemma_sstable_name(b);
}

/// The digit that stands for `d`, as a string.
fn digit_str(d: u64) -> (s: &'static str)
    requires
        d < 10,
    ensures
        s@ == seq![digit_char(d as nat)],
{
    proof {
        reveal_strlit("0");
        reveal_strlit("1");
        reveal_strlit("2");
        reveal_strlit("3");
        reveal_strlit("4");
        reveal_strlit("5");
        reveal_strlit("6");
        reveal_strlit("7");
        reveal_strlit("8");
        reveal_strlit("9");
    }
    let s = if d == 0 {
        "0"
    } else if d == 1 {
        "1"
    } else if d == 2 {
        "2"
    } else if d == 3 {
        "3"
    } else if d == 4 {
        "4"
    } else if d == 5 {
        "5"
    } else if d == 6 {
        "6"
    } else if d == 7 {
        "7"
    } else if d == 8 {
        "8"
    } else {
        "9"
    };
    assert(s@ =~= seq![digit_char(d as nat)]);
    s
}

/// Appends the decimal digits of `n`.
fn push_decimal(out: &mut String, n: u64)
    ensures
        final(out)@ == old(out)@ + decimal(n as nat),
    decreases n,
{
    if n >= 10 {
        push_decimal(out, n / 10);
    }
    out.append(digit_str(n % 10));
    assert(out@ =~= old(out)@ + decimal(n as nat));
}

/// The number of decimal digits of `n`.
fn decimal_len(n: u64) -> (len: usize)
    ensures
        len == decimal(n as nat).len(),
        1 <= len <= 20,
    decreases n,
{
    if n >= 10 {
        let rest = decimal_len(n / 10);
        assert(rest <= 19) by {
            lemma_decimal_len_bound(n as nat);
        }
        rest + 1
    } else {
        1
    }
}

/// A number below 10^20 has at most 20 digits.
proof fn lemma_decimal_len_bound(n: nat)
    requires
        n <= u64::MAX,
    ensures
        decimal(n).len() <= 20,
{
    reveal_with_fuel(decimal, 21);
}

/// The name of the sorted run with the number `n`: `sstable_N.sst`.
pub fn sstable_file_name(n: u64) -> (name: String)
    ensures
        name@ == sstable_name(n as nat),
        sstable_number(name@) == Some(n as nat),
{
    proof {
        reveal_strlit("sstable_");
        reveal_strlit(".sst");
        lemma_sstable_name(n as nat);
    }
    let mut name = String::from_str("sstable_");
    assert(name@ =~= sstable_prefix());
    push_decimal(&mut name, n);
    name.append(".sst");
    assert(".sst"@ =~= sstable_suffix());
    name
}

/// The name of the log segment with the number `n`: `wal_NNNN.log`.
pub fn wal_file_name(n: u16) -> (name: String)
    ensures
        name@ == wal_name(n as nat),
        wal_number(name@) == Some(n as nat),
{
    proof {
        reveal_strlit("wal_");
        reveal_strlit(".log");
        reveal_strlit("0");
        lemma_wal_name(n as nat);
    }
    let mut name = String::from_str("wal_");
    assert(name@ =~= wal_prefix());
    let digits = decimal_len(n as u64);
    let mut i: usize = digits;
    while i < 4
        invariant
            digits <= i,
            digits == decimal(n as nat).len(),
            i <= 4 || i == digits,
            name@ == wal_prefix() + Seq::new((i - digits) as nat, |j: int| '0'),
        decreases 4 - i,
    {
        proof {
            reveal_strlit("0");
        }
        name.append("0");
        i += 1;
        assert("0"@ =~= seq!['0']);
        assert(name@ =~= wal_prefix() + Seq::new((i - digits) as nat, |j: int| '0'));
    }
    assert(name@ =~= wal_prefix() + padding(digits as nat));
    push_decimal(&mut name, n as u64);
    name.append(".log");
    assert(".log"@ =~= wal_suffix());
    name
}

/// What a digit stands for.
fn digit_value(c: char) -> (d: Option<u64>)
    ensures
        match d {
            Some(v) => digit_of(c) == Some(v as nat) && v < 10,
            None => digit_of(c) is None,
        },
{
    if c == '0' {
        Some(0)
    } else if c == '1' {
        Some(1)
    } else if c == '2' {
        Some(2)
    } else if c == '3' {
        Some(3)
    } else if c == '4' {
        Some(4)
    } else if c == '5' {
        Some(5)
    } else if c == '6' {
        Some(6)
    } else if c == '7' {
        Some(7)
    } else if c == '8' {
        Some(8)
    } else if c == '9' {
        Some(9)
    } else {
        None
    }
}

/// A longer string of digits stands for no smaller number.
pub proof fn lemma_number_grows(s: Seq<char>, cut: int)
    requires
        0 < cut <= s.len(),
        number_of(s) is Some,
    ensures
        number_of(s.take(cut)) is Some,
        number_of(s.take(cut))->0 <= number_of(s)->0,
    decreases s.len(),
{
    if cut == s.len() {
        assert(s.take(cut) =~= s);
    } else {
        lemma_number_grows(s.drop_last(), cut);
        assert(s.drop_last().take(cut) =~= s.take(cut));
    }
}

/// Whether `name` holds `part` from `at` on.
fn holds_at(name: &str, at: usize, part: &str) -> (b: bool)
    requires
        at + part@.len() <= name@.len(),
        at + part@.len() <= usize::MAX,
    ensures
        b == (name@.subrange(at as int, at + part@.len()) == part@),
{
    let n = part.unicode_len();
    let mut i: usize = 0;
    while i < n
        invariant
            i <= n,
            n == part@.len(),
            at + n <= name@.len(),
            at + n <= usize::MAX,
            forall|j: int| 0 <= j < i ==> name@[at + j] == part@[j],
        decreases n - i,
    {
        if name.get_char(at + i) != part.get_char(i) {
            assert(name@.subrange(at as int, at + part@.len())[i as int] != part@[i as int]);
            return false;
        }
        i += 1;
    }
    assert(name@.subrange(at as int, at + part@.len()) =~= part@);
    true
}

/// Reads the number between `prefix` and `suffix` in `name`.
fn parse_between(name: &str, prefix: &str, suffix: &str, max: u64) -> (r: Option<u64>)
    requires
        max >= 9,
    ensures
        match r {
            Some(v) => number_between(name@, prefix@, suffix@, max as nat) == Some(v as nat),
            None => number_between(name@, prefix@, suffix@, max as nat) is None,
        },
{
    let n = name.unicode_len();
    let p = prefix.unicode_len();
    let s = suffix.unicode_len();
    if p > n || s > n - p {
        return None;
    }
    if !holds_at(name, 0, prefix) || !holds_at(name, n - s, suffix) {
        return None;
    }
    let ghost middle = name@.subrange(p as int, n - s);
    let ghost target = number_between(name@, prefix@, suffix@, max as nat);
    let end = n - s;
    assert(target == match number_of(middle) {
        Some(v) => if v <= max {
            Some(v)
        } else {
            None
        },
        None => None,
    });
    if p == end {
        return None;
    }
    let mut value: u64 = 0;
    let mut i: usize = p;
    while i < end
        invariant
            p <= i <= end,
            p < end,
            end <= name@.len(),
            max >= 9,
            middle == name@.subrange(p as int, end as int),
            target == number_between(name@, prefix@, suffix@, max as nat),
            target == match number_of(middle) {
                Some(v) => if v <= max {
                    Some(v)
                } else {
                    None
                },
                None => None,
            },
            i > p ==> number_of(middle.take(i - p)) == Some(value as nat),
            i == p ==> value == 0,
            value <= max,
        decreases end - i,
    {
        let d = match digit_value(name.get_char(i)) {
            Some(d) => d,
            None => {
                proof {
                    lemma_bad_digit(middle, i - p);
                }
                return None;
            },
        };
        proof {
            assert(middle.take(i - p + 1).drop_last() =~= middle.take(i - p));
            assert(middle.take(i - p + 1).last() == name@[i as int]);
        }
        if value > (max - d) / 10 {
            proof {
                if number_of(middle) is Some {
                    lemma_number_grows(middle, i - p + 1);
                }
            }
            return None;
        }
        value = value * 10 + d;
        i += 1;
    }
    proof {
        assert(middle.take(end - p) =~= middle);
    }
    Some(value)
}

/// A string with a character that is no digit stands for no number.
pub proof fn lemma_bad_digit(s: Seq<char>, at: int)
    requires
        0 <= at < s.len(),
        digit_of(s[at]) is None,
    ensures
        number_of(s) is None,
    decreases s.len(),
{
    if at < s.len() - 1 {
        lemma_bad_digit(s.drop_last(), at);
    }
}

/// The number of the sorted run that `name` names, if it names one.
pub fn parse_sstable_name(name: &str) -> (r: Option<u64>)
    ensures
        match r {
            Some(v) => sstable_number(name@) == Some(v as nat),
            None => sstable_number(name@) is None,
        },
{
    proof {
        reveal_strlit("sstable_");
        reveal_strlit(".sst");
        assert("sstable_"@ =~= sstable_prefix());
        assert(".sst"@ =~= sstable_suffix());
    }
    parse_between(name, "sstable_", ".sst", u64::MAX)
}

/// The number of the log segment that `name` names, if it names one.
pub fn parse_wal_name(name: &str) -> (r: Option<u16>)
    ensures
        match r {
            Some(v) => wal_number(name@) == Some(v as nat),
            None => wal_number(name@) is None,
        },
{
    proof {
        reveal_strlit("wal_");
        reveal_strlit(".log");
        assert("wal_"@ =~= wal_prefix());
        assert(".log"@ =~= wal_suffix());
    }
    match parse_between(name, "wal_", ".log", 65535) {
        Some(v) => Some(v as u16),
        None => None,
    }
}

} // verus!
