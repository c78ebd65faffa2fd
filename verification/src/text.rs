//! Numbers as text, and text as numbers.

use vstd::prelude::*;
use vstd::string::StringExecFns;

verus! {

/// The digit `d`, in base sixteen at most.
pub open spec fn digit_char(d: nat) -> char {
    if d == 0 {
        '0'
    } else if d == 1 {
        '1'
    } else if d == 2 {
        '2'
    } else if d == 3 {
        '3'
    } else if d == 4 {
        '4'
    } else if d == 5 {
        '5'
    } else if d == 6 {
        '6'
    } else if d == 7 {
        '7'
    } else if d == 8 {
        '8'
    } else if d == 9 {
        '9'
    } else if d == 10 {
        'a'
    } else if d == 11 {
        'b'
    } else if d == 12 {
        'c'
    } else if d == 13 {
        'd'
    } else if d == 14 {
        'e'
    } else {
        'f'
    }
}

/// `n` in the given base, without leading zeros.
pub open spec fn digits(n: nat, base: nat) -> Seq<char>
    decreases n,
{
    if base < 2 || n < base {
        seq![digit_char(n)]
    } else {
        proof {
            assert(n / base < n) by (nonlinear_arith)
                requires
                    n >= base,
                    base >= 2,
            ;
        }
        digits(n / base, base).push(digit_char(n % base))
    }
}

/// `n` in decimal.
pub open spec fn dec(n: nat) -> Seq<char> {
    digits(n, 10)
}

/// `n` in decimal, filled up with zeros on the left to four digits.
pub open spec fn dec4(n: nat) -> Seq<char> {
    if dec(n).len() >= 4 {
        dec(n)
    } else {
        Seq::new((4 - dec(n).len()) as nat, |i: int| '0') + dec(n)
    }
}

/// The value of a decimal digit.
pub open spec fn digit_value(c: char) -> Option<nat> {
    if '0' <= c && c <= '9' {
        Some((c as nat - '0' as nat) as nat)
    } else {
        None
    }
}

/// The value of a string of decimal digits; `None` where a character is none.
pub open spec fn digits_value(s: Seq<char>) -> Option<nat>
    decreases s.len(),
{
    if s.len() == 0 {
        Some(0)
    } else {
        match (digits_value(s.drop_last()), digit_value(s.last())) {
            (Some(v), Some(d)) => Some(10 * v + d),
            _ => None,
        }
    }
}

/// The number that a text stands for: digits, at least one, with a plus sign before them or
/// not, and no more than `u32` holds.
pub open spec fn parsed_u32(s: Seq<char>) -> Option<u32> {
    let t = if s.len() > 0 && s[0] == '+' {
        s.skip(1)
    } else {
        s
    };
    if t.len() == 0 {
        None
    } else {
        match digits_value(t) {
            Some(v) => if v <= u32::MAX {
                Some(v as u32)
            } else {
                None
            },
            None => None,
        }
    }
}

fn digit_str(d: u8) -> (r: &'static str)
    requires
        d < 16,
    ensures
        r@ == seq![digit_char(d as nat)],
{
    proof {
        reveal_strlit("0");
        reveal_strlit("1");
        reveal_strlit("2");
        reveal_strlit("3");
        reveal_strlit("4");
        reveal_strlit("5");
        reveal_strlit("6");
        reveal_strlit("7");
        reveal_strlit("8");
        reveal_strlit("9");
        reveal_strlit("a");
        reveal_strlit("b");
        reveal_strlit("c");
        reveal_strlit("d");
        reveal_strlit("e");
        reveal_strlit("f");
    }
    let r: &'static str = match d {
        0 => "0",
        1 => "1",
        2 => "2",
        3 => "3",
        4 => "4",
        5 => "5",
        6 => "6",
        7 => "7",
        8 => "8",
        9 => "9",
        10 => "a",
        11 => "b",
        12 => "c",
        13 => "d",
        14 => "e",
        _ => "f",
    };
    proof {
        assert(r@ =~= seq![digit_char(d as nat)]);
    }
    r
}

fn push_digits(out: &mut String, n: u64, base: u64)
    requires
        2 <= base <= 16,
    ensures
        final(out)@ == old(out)@ + digits(n as nat, base as nat),
    decreases n,
{
    if n < base {
        out.append(digit_str(n as u8));
    } else {
        assert(n / base < n && n % base < base) by (nonlinear_arith)
            requires
                n >= base,
                base >= 2,
        ;
        push_digits(out, n / base, base);
        out.append(digit_str((n % base) as u8));
        proof {
            let head = digits((n / base) as nat, base as nat);
            let d = digit_char((n % base) as nat);
            assert(old(out)@ + head + seq![d] =~= old(out)@ + head.push(d));
        }
    }
}

/// Appends `n` in decimal.
pub fn push_dec(out: &mut String, n: u64)
    ensures
        final(out)@ == old(out)@ + dec(n as nat),
{
    push_digits(out, n, 10);
}

/// Appends `n` in base sixteen.
pub fn push_hex(out: &mut String, n: u64)
    ensures
        final(out)@ == old(out)@ + digits(n as nat, 16),
{
    push_digits(out, n, 16);
}

proof fn lemma_dec_len(n: nat)
    ensures
        dec(n).len() >= 1,
        n < 10 ==> dec(n).len() == 1,
        10 <= n < 100 ==> dec(n).len() == 2,
        100 <= n < 1000 ==> dec(n).len() == 3,
        1000 <= n ==> dec(n).len() >= 4,
{
    reveal_with_fuel(digits, 5);
}

/// Appends `n` in decimal, filled up with zeros to four digits.
pub fn push_dec4(out: &mut String, n: u64)
    ensures
        final(out)@ == old(out)@ + dec4(n as nat),
{
    proof {
        reveal_strlit("000");
        reveal_strlit("00");
        reveal_strlit("0");
        lemma_dec_len(n as nat);
    }
    if n < 10 {
        out.append("000");
    } else if n < 100 {
        out.append("00");
    } else if n < 1000 {
        out.append("0");
    }
    push_dec(out, n);
    proof {
        assert(out@ =~= old(out)@ + dec4(n as nat));
    }
}

/// A digit of the decimal text of a number has its value.
proof fn lemma_digit_value(d: nat)
    requires
        d < 10,
    ensures
        digit_value(digit_char(d)) == Some(d),
{
}

/// The decimal text of a number has its value.
pub proof fn dec_round_trip(n: nat)
    ensures
        digits_value(dec(n)) == Some(n),
        dec(n).len() > 0,
        forall|i: int| 0 <= i < dec(n).len() ==> digit_value(#[trigger] dec(n)[i]) is Some,
    decreases n,
{
    if n < 10 {
        lemma_digit_value(n);
        assert(dec(n).drop_last() =~= Seq::<char>::empty());
        assert(digits_value(dec(n).drop_last()) == Some(0nat));
        assert(dec(n).last() == digit_char(n));
        assert(digits_value(dec(n)) == Some(n));
    } else {
        dec_round_trip(n / 10);
        lemma_digit_value(n % 10);
        assert(dec(n).drop_last() =~= dec(n / 10));
        assert(dec(n).last() == digit_char(n % 10));
        assert(10 * (n / 10) + n % 10 == n);
        assert(digits_value(dec(n)) == Some(n));
        assert forall|i: int| 0 <= i < dec(n).len() implies digit_value(
            #[trigger] dec(n)[i],
        ) is Some by {
            if i < dec(n / 10).len() {
                assert(dec(n)[i] == dec(n / 10)[i]);
            }
        }
    }
}

proof fn lemma_zeros_value(k: nat, s: Seq<char>)
    ensures
        digits_value(Seq::new(k, |i: int| '0') + s) == digits_value(s),
    decreases s.len(),
{
    let zeros = Seq::new(k, |i: int| '0');
    if s.len() == 0 {
        lemma_only_zeros(k);
        assert(zeros + s =~= zeros);
    } else {
        lemma_zeros_value(k, s.drop_last());
        assert((zeros + s).drop_last() =~= zeros + s.drop_last());
    }
}

proof fn lemma_only_zeros(k: nat)
    ensures
        digits_value(Seq::new(k, |i: int| '0')) == Some(0nat),
    decreases k,
{
    if k > 0 {
        lemma_only_zeros((k - 1) as nat);
        assert(Seq::new(k, |i: int| '0').drop_last() =~= Seq::new((k - 1) as nat, |i: int| '0'));
    }
}

/// The filled-up text of a number parses as the number.
pub proof fn dec4_round_trip(n: u32)
    ensures
        parsed_u32(dec4(n as nat)) == Some(n),
{
    let s = dec4(n as nat);
    dec_round_trip(n as nat);
    if dec(n as nat).len() < 4 {
        lemma_zeros_value((4 - dec(n as nat).len()) as nat, dec(n as nat));
    } else {
        assert(digit_value(dec(n as nat)[0]) is Some);
    }
}

/// The number that the characters of `s` from `from` to `to` stand for.
pub fn parse_u32(s: &str, from: usize, to: usize) -> (r: Option<u32>)
    requires
        from <= to <= s@.len(),
    ensures
        r == parsed_u32(s@.subrange(from as int, to as int)),
{
    let ghost part = s@.subrange(from as int, to as int);
    let mut start: usize = from;
    if from < to && s.get_char(from) == '+' {
        start = from + 1;
    }
    let ghost t = s@.subrange(start as int, to as int);
    proof {
        assert(start > from ==> part.skip(1) =~= t);
        if from < to {
            assert(part[0] == s@[from as int]);
        }
    }
    if start == to {
        return None;
    }
    let mut acc: u64 = 0;
    let mut i: usize = start;
    proof {
        assert(t.take(0) =~= Seq::<char>::empty());
    }
    while i < to
        invariant
            from <= start <= i <= to <= s@.len(),
            t == s@.subrange(start as int, to as int),
            part == s@.subrange(from as int, to as int),
            t.len() > 0,
            parsed_u32(part) == (match digits_value(t) {
                Some(v) => if v <= u32::MAX {
                    Some(v as u32)
                } else {
                    None
                },
                None => None,
            }),
            digits_value(t.take(i - start)) == Some(acc as nat),
            acc <= u32::MAX,
        decreases to - i,
    {
        let c: char = s.get_char(i);
        proof {
            assert(t.take(i - start + 1).drop_last() =~= t.take(i - start));
            assert(t.take(i - start + 1).last() == c);
            lemma_digits_prefix(t, i - start + 1);
        }
        if c < '0' || c > '9' {
            return None;
        }
        let d: u64 = (c as u32 - '0' as u32) as u64;
        acc = 10 * acc + d;
        if acc > u32::MAX as u64 {
            return None;
        }
        i = i + 1;
    }
    proof {
        assert(t.take(i - start) =~= t);
    }
    Some(acc as u32)
}

/// What a text stands for is no less than what its beginning stands for.
proof fn lemma_digits_prefix(s: Seq<char>, k: int)
    requires
        0 <= k <= s.len(),
    ensures
        digits_value(s.take(k)) is None ==> digits_value(s) is None,
        digits_value(s) is Some ==> digits_value(s.take(k)) is Some
            && digits_value(s.take(k))->Some_0 <= digits_value(s)->Some_0,
    decreases s.len(),
{
    if k == s.len() {
        assert(s.take(k) =~= s);
    } else {
        lemma_digits_prefix(s.drop_last(), k);
        assert(s.drop_last().take(k) =~= s.take(k));
    }
}

/// The text `prefix`, a number filled up to four digits, and `suffix`.
pub open spec fn numbered_name(prefix: Seq<char>, n: nat, suffix: Seq<char>) -> Seq<char> {
    prefix + dec4(n) + suffix
}

/// The number in a name between `prefix` and `suffix`.
pub open spec fn name_number(
    name: Seq<char>,
    prefix: Seq<char>,
    suffix: Seq<char>,
) -> Option<u32> {
    if name.len() < prefix.len() + suffix.len() || name.take(prefix.len() as int) != prefix
        || name.skip(name.len() - suffix.len()) != suffix {
        None
    } else {
        parsed_u32(name.subrange(prefix.len() as int, name.len() - suffix.len()))
    }
}

/// The number in a name comes back.
pub proof fn name_round_trip(prefix: Seq<char>, n: u32, suffix: Seq<char>)
    ensures
        name_number(numbered_name(prefix, n as nat, suffix), prefix, suffix) == Some(n),
{
    let name = numbered_name(prefix, n as nat, suffix);
    assert(name.take(prefix.len() as int) =~= prefix);
    assert(name.skip(name.len() - suffix.len()) =~= suffix);
    assert(name.subrange(prefix.len() as int, name.len() - suffix.len()) =~= dec4(n as nat));
    dec4_round_trip(n);
}

fn part_is(name: &str, at: usize, part: &str) -> (r: bool)
    requires
        at + part@.len() <= name@.len(),
    ensures
        r == (name@.subrange(at as int, at + part@.len()) == part@),
{
    let n: usize = part.unicode_len();
    let total: usize = name.unicode_len();
    let mut i: usize = 0;
    while i < n
        invariant
            n == part@.len(),
            at + n <= name@.len() == total,
            i <= n,
            forall|j: int| 0 <= j < i ==> name@[at + j] == #[trigger] part@[j],
        decreases n - i,
    {
        if name.get_char(at + i) != part.get_char(i) {
            proof {
                assert(name@.subrange(at as int, at + part@.len())[i as int] != part@[i as int]);
            }
            return false;
        }
        i = i + 1;
    }
    proof {
        assert(name@.subrange(at as int, at + part@.len()) =~= part@);
    }
    true
}

/// Whether a name ends in `suffix` and holds more than that.
pub fn ends_with(name: &str, suffix: &str) -> (r: bool)
    ensures
        r == (name@.len() > suffix@.len() && name@.skip(name@.len() - suffix@.len()) == suffix@),
{
    let n: usize = name.unicode_len();
    let q: usize = suffix.unicode_len();
    if n <= q {
        return false;
    }
    proof {
        assert(name@.subrange(n - q, n as int) =~= name@.skip(n - q));
    }
    part_is(name, n - q, suffix)
}

/// The number in a name between `prefix` and `suffix`.
pub fn parse_name(name: &str, prefix: &str, suffix: &str) -> (r: Option<u32>)
    ensures
        r == name_number(name@, prefix@, suffix@),
{
    let n: usize = name.unicode_len();
    let p: usize = prefix.unicode_len();
    let q: usize = suffix.unicode_len();
    if n < p || n - p < q {
        return None;
    }
    proof {
        assert(name@.subrange(0, p as int) =~= name@.take(p as int));
        assert(name@.subrange(n - q, n as int) =~= name@.skip(n - q));
    }
    if !part_is(name, 0, prefix) || !part_is(name, n - q, suffix) {
        return None;
    }
    parse_u32(name, p, n - q)
}

/// The text `prefix`, `n` filled up to four digits, and `suffix`.
pub fn make_name(prefix: &str, n: u32, suffix: &str) -> (r: String)
    ensures
        r@ == numbered_name(prefix@, n as nat, suffix@),
{
    let mut out: String = String::new();
    out.append(prefix);
    push_dec4(&mut out, n as u64);
    out.append(suffix);
    proof {
        assert(out@ =~= numbered_name(prefix@, n as nat, suffix@));
    }
    out
}

/// Digits count by their place: what stands before other digits counts ten times for each of
/// them. A text with anything but a digit in it has no value.
pub proof fn digits_count_by_place(s: Seq<char>, c: char, i: int)
    ensures
        '0' <= c && c <= '9' && digits_value(s) is Some ==> digits_value(s.push(c)) == Some(
            10 * digits_value(s)->Some_0 + (c as nat - '0' as nat) as nat,
        ),
        0 <= i < s.len() && !('0' <= s[i] && s[i] <= '9') ==> digits_value(s) is None,
        digits_value(Seq::empty()) == Some(0nat),
    decreases s.len(),
{
    assert(s.push(c).drop_last() =~= s);
    if 0 <= i < s.len() - 1 {
        digits_count_by_place(s.drop_last(), c, i);
    }
}

/// Any decimal text of a number that fits is read as the number, with zeros or a plus sign before
/// it or not; a number that does not fit, a text without a digit, and one with anything else in
/// it are not read.
pub proof fn numbers_are_read(n: nat, zeros: nat, s: Seq<char>, i: int)
    ensures
        n <= u32::MAX ==> parsed_u32(dec(n)) == Some(n as u32),
        n <= u32::MAX ==> parsed_u32(seq!['+'] + dec(n)) == Some(n as u32),
        n <= u32::MAX ==> parsed_u32(Seq::new(zeros, |i: int| '0') + dec(n)) == Some(n as u32),
        n > u32::MAX ==> parsed_u32(dec(n)) is None,
        parsed_u32(Seq::empty()) is None,
        parsed_u32(seq!['+']) is None,
        0 < i < s.len() && !('0' <= s[i] && s[i] <= '9') ==> parsed_u32(s) is None,
{
    dec_round_trip(n);
    lemma_zeros_value(zeros, dec(n));
    assert(digit_value(dec(n)[0]) is Some);
    let plus = seq!['+'] + dec(n);
    assert(plus.skip(1) =~= dec(n));
    let filled = Seq::new(zeros, |i: int| '0') + dec(n);
    assert(filled[0] == (if zeros > 0 {
        '0'
    } else {
        dec(n)[0]
    }));
    assert(seq!['+'].skip(1).len() == 0);
    if 0 < i < s.len() && !('0' <= s[i] && s[i] <= '9') {
        digits_count_by_place(s, '0', i);
        assert(s.skip(1)[i - 1] == s[i]);
        digits_count_by_place(s.skip(1), '0', i - 1);
    }
}

/// Digits tell numbers apart, in base ten and in base sixteen alike: a digit stands for one value,
/// and a digit put behind a number counts it times the base.
pub proof fn digits_go_by_place(n: nat, base: nat, d: nat, other: nat)
    requires
        base == 10 || base == 16,
        d < base,
        other < base,
    ensures
        digit_char(d) == digit_char(other) ==> d == other,
        digits(d, base) == seq![digit_char(d)],
        n > 0 ==> digits(n * base + d, base) == digits(n, base).push(digit_char(d)),
{
    let m = n * base + d;
    if n > 0 {
        assert(m >= base && m / base == n && m % base == d) by (nonlinear_arith)
            requires
                m == n * base + d,
                d < base,
                n > 0,
        ;
    }
}

/// The decimal texts of two numbers are the same only where the numbers are.
pub proof fn decimal_text_is_one_to_one(a: nat, b: nat)
    requires
        dec(a) == dec(b),
    ensures
        a == b,
{
    dec_round_trip(a);
    dec_round_trip(b);
}

/// A name has a number only where it begins with the prefix and ends in the suffix, and the
/// number is what stands between them.
pub proof fn names_have_their_parts(name: Seq<char>, prefix: Seq<char>, suffix: Seq<char>)
    ensures
        name_number(name, prefix, suffix) matches Some(n) ==> exists|middle: Seq<char>|
            name == #[trigger] (prefix + middle + suffix) && parsed_u32(middle) == Some(n),
        forall|middle: Seq<char>|
            name == #[trigger] (prefix + middle + suffix) ==> name_number(name, prefix, suffix)
                == parsed_u32(middle),
{
    if name_number(name, prefix, suffix) is Some {
        let middle = name.subrange(prefix.len() as int, name.len() - suffix.len());
        assert(name =~= prefix + middle + suffix) by {
            assert(name.take(prefix.len() as int) == prefix);
            assert(name.skip(name.len() - suffix.len()) == suffix);
            assert forall|i: int| 0 <= i < name.len() implies name[i] == (prefix + middle
                + suffix)[i] by {
                if i < prefix.len() {
                    assert(name.take(prefix.len() as int)[i] == name[i]);
                } else if i >= name.len() - suffix.len() {
                    assert(name.skip(name.len() - suffix.len())[i - (name.len() - suffix.len())]
                        == name[i]);
                }
            }
        }
    }
    assert forall|middle: Seq<char>|
        name == #[trigger] (prefix + middle + suffix) implies name_number(name, prefix, suffix)
        == parsed_u32(middle) by {
        assert(name.take(prefix.len() as int) =~= prefix);
        assert(name.skip(name.len() - suffix.len()) =~= suffix);
        assert(name.subrange(prefix.len() as int, name.len() - suffix.len()) =~= middle);
    }
}

} // verus!
