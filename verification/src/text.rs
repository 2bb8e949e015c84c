//! Numbers and characters as text: digits in a base, parsing, and the few string
//! operations the rest of the crate is written with.

use vstd::prelude::*;
use vstd::string::StringExecFns;

verus! {

/// `String::push` puts one character at the end of the string.
pub assume_specification[ String::push ](s: &mut String, c: char)
    ensures
        final(s)@ == old(s)@.push(c),
;

/// The character that stands for the digit `d` (0 to 15), lower case.
pub open spec fn digit_char(d: nat) -> char {
    if d < 10 {
        ('0' as nat + d) as char
    } else {
        ('a' as nat + d - 10) as char
    }
}

/// `n` written in base `base`, most significant digit first, without leading zeros.
pub open spec fn digits(n: nat, base: nat) -> Seq<char>
    decreases n,
{
    if base < 2 || n < base {
        seq![digit_char(n)]
    } else {
        proof {
            assert(n / base < n) by (nonlinear_arith)
                requires
                    base >= 2,
                    n >= base,
            ;
        }
        digits(n / base, base).push(digit_char(n % base))
    }
}

/// `n` in decimal.
pub open spec fn decimal(n: nat) -> Seq<char> {
    digits(n, 10)
}

/// `n` in lower-case hexadecimal, without a prefix.
pub open spec fn hex(n: nat) -> Seq<char> {
    digits(n, 16)
}

/// A raw address as it is shown when no symbol is known for it.
pub open spec fn raw_address(addr: usize) -> Seq<char> {
    "0x"@ + hex(addr as nat)
}

fn digit(d: u64) -> (c: char)
    requires
        d < 16,
    ensures
        c == digit_char(d as nat),
{
    if d < 10 {
        (48u8 + d as u8) as char
    } else {
        (97u8 + (d - 10) as u8) as char
    }
}

fn push_digits(out: &mut String, n: u64, base: u64)
    requires
        2 <= base <= 16,
    ensures
        final(out)@ == old(out)@ + digits(n as nat, base as nat),
    decreases n,
{
    if n >= base {
        assert(n / base < n) by (nonlinear_arith)
            requires
                base >= 2,
                n >= base,
        ;
        push_digits(out, n / base, base);
    }
    assert(0 <= n % base < base) by (nonlinear_arith)
        requires
            base >= 2,
    ;
    if n < base {
        assert(n % base == n) by (nonlinear_arith)
            requires
                base >= 2,
                n < base,
        ;
    }
    out.push(digit(n % base));
    assert(out@ =~= old(out)@ + digits(n as nat, base as nat));
}

/// Appends `n` in decimal.
pub fn push_decimal(out: &mut String, n: u64)
    ensures
        final(out)@ == old(out)@ + decimal(n as nat),
{
    push_digits(out, n, 10);
}

/// Appends `n` in hexadecimal.
pub fn push_hex(out: &mut String, n: u64)
    ensures
        final(out)@ == old(out)@ + hex(n as nat),
{
    push_digits(out, n, 16);
}

/// `n` in decimal.
pub fn decimal_text(n: u64) -> (s: String)
    ensures
        s@ == decimal(n as nat),
{
    let mut s = String::new();
    push_decimal(&mut s, n);
    assert(s@ =~= decimal(n as nat));
    s
}

/// `0x` and the address in hexadecimal.
pub fn raw_address_text(addr: usize) -> (s: String)
    ensures
        s@ == raw_address(addr),
{
    let mut s = "0x".to_owned();
    push_hex(&mut s, addr as u64);
    s
}

/// The characters of `s`, one by one.
pub fn chars_of(s: &str) -> (v: Vec<char>)
    ensures
        v@ == s@,
{
    let mut v: Vec<char> = Vec::new();
    for c in it: s.chars()
        invariant
            v@ == it.seq().take(it.index()),
            it.seq() == s@,
    {
        v.push(c);
    }
    v
}

/// The text made of `chars[from..to]`.
pub fn text_between(chars: &Vec<char>, from: usize, to: usize) -> (s: String)
    requires
        from <= to <= chars.len(),
    ensures
        s@ == chars@.subrange(from as int, to as int),
{
    let mut s = String::new();
    let mut i: usize = from;
    while i < to
        invariant
            from <= i <= to <= chars.len(),
            s@ == chars@.subrange(from as int, i as int),
        decreases to - i,
    {
        s.push(chars[i]);
        assert(chars@.subrange(from as int, i as int).push(chars@[i as int])
            =~= chars@.subrange(from as int, i + 1));
        i += 1;
    }
    s
}

/// Whether two texts hold the same characters.
pub fn same_text(a: &str, b: &str) -> (same: bool)
    ensures
        same == (a@ == b@),
{
    a.to_owned() == b.to_owned()
}

/// Appends `c` to `out` `n` times.
pub fn push_repeated(out: &mut String, c: char, n: usize)
    ensures
        final(out)@ == old(out)@ + Seq::new(n as nat, |i: int| c),
{
    let mut i: usize = 0;
    let ghost before = out@;
    while i < n
        invariant
            i <= n,
            out@ == before + Seq::new(i as nat, |j: int| c),
        decreases n - i,
    {
        out.push(c);
        i += 1;
        assert(out@ =~= before + Seq::new(i as nat, |j: int| c));
    }
}

/// `s` with every `from` turned into `to`.
pub open spec fn replaced(s: Seq<char>, from: char, to: char) -> Seq<char> {
    s.map_values(|c: char| if c == from { to } else { c })
}

/// Appends `s`, with every `from` in it turned into `to`.
pub fn push_replaced(out: &mut String, s: &str, from: char, to: char)
    ensures
        final(out)@ == old(out)@ + replaced(s@, from, to),
{
    let ghost before = out@;
    for c in it: s.chars()
        invariant
            out@ == before + replaced(it.seq().take(it.index()), from, to),
            it.seq() == s@,
    {
        if c == from {
            out.push(to);
        } else {
            out.push(c);
        }
        assert(out@ =~= before + replaced(it.seq().take(it.index() + 1), from, to));
    }
    assert(s@.take(s@.len() as int) =~= s@);
}

/// The value of `c` as a digit in `base`, if it is one. Letters count in either case.
pub open spec fn digit_value(c: char, base: nat) -> Option<nat> {
    let v = if '0' <= c <= '9' {
        c as nat - '0' as nat
    } else if 'a' <= c <= 'z' {
        c as nat - 'a' as nat + 10
    } else if 'A' <= c <= 'Z' {
        c as nat - 'A' as nat + 10
    } else {
        base as int
    };
    if v < base {
        Some(v as nat)
    } else {
        None
    }
}

/// The number that a run of digits stands for; `None` if some character is no digit.
pub open spec fn digits_value(s: Seq<char>, base: nat) -> Option<nat>
    decreases s.len(),
{
    if s.len() == 0 {
        Some(0)
    } else {
        match (digits_value(s.drop_last(), base), digit_value(s.last(), base)) {
            (Some(high), Some(low)) => Some(high * base + low),
            _ => None,
        }
    }
}

/// An unsigned number as it is read from text: an optional `+`, then at least one digit,
/// with a value of at most `max`.
pub open spec fn number(s: Seq<char>, base: nat, max: nat) -> Option<nat> {
    let body = if s.len() > 0 && s[0] == '+' { s.skip(1) } else { s };
    match digits_value(body, base) {
        Some(n) if body.len() > 0 && n <= max => Some(n),
        _ => None,
    }
}

fn digit_of(c: char, base: u64) -> (d: Option<u64>)
    requires
        2 <= base <= 36,
    ensures
        match d {
            Some(v) => digit_value(c, base as nat) == Some(v as nat) && v < base,
            None => digit_value(c, base as nat) is None,
        },
{
    let v: u64 = if '0' <= c && c <= '9' {
        c as u64 - '0' as u64
    } else if 'a' <= c && c <= 'z' {
        c as u64 - 'a' as u64 + 10
    } else if 'A' <= c && c <= 'Z' {
        c as u64 - 'A' as u64 + 10
    } else {
        base
    };
    if v < base {
        Some(v)
    } else {
        None
    }
}

/// A run of digits keeps its value or grows as digits are added.
proof fn lemma_prefix_value(s: Seq<char>, k: int, base: nat)
    requires
        0 <= k <= s.len(),
        base >= 1,
        digits_value(s, base) is Some,
    ensures
        digits_value(s.take(k), base) is Some,
        digits_value(s.take(k), base)->0 <= digits_value(s, base)->0,
    decreases s.len(),
{
    if k == s.len() {
        assert(s.take(k) =~= s);
    } else {
        lemma_prefix_value(s.drop_last(), k, base);
        assert(s.drop_last().take(k) =~= s.take(k));
        let high = digits_value(s.drop_last(), base)->0;
        assert(high <= high * base) by (nonlinear_arith)
            requires
                base >= 1,
        ;
    }
}

/// Reads the number in `chars[from..to]`.
pub fn parse_number(chars: &Vec<char>, from: usize, to: usize, base: u64, max: u64) -> (n: Option<
    u64,
>)
    requires
        from <= to <= chars.len(),
        2 <= base <= 36,
    ensures
        match n {
            Some(v) => number(chars@.subrange(from as int, to as int), base as nat, max as nat)
                == Some(v as nat),
            None => number(chars@.subrange(from as int, to as int), base as nat, max as nat) is None,
        },
{
    let ghost s = chars@.subrange(from as int, to as int);
    let start: usize = if from < to && chars[from] == '+' {
        from + 1
    } else {
        from
    };
    let ghost body = chars@.subrange(start as int, to as int);
    assert(body == (if s.len() > 0 && s[0] == '+' {
        s.skip(1)
    } else {
        s
    })) by {
        if s.len() > 0 {
            assert(s.skip(1) =~= chars@.subrange(from + 1, to as int));
        }
    }
    if start == to {
        return None;
    }
    let mut n: u64 = 0;
    let mut i: usize = start;
    while i < to
        invariant
            start <= i <= to <= chars.len(),
            2 <= base <= 36,
            body == chars@.subrange(start as int, to as int),
            start < to,
            body == (if s.len() > 0 && s[0] == '+' {
                s.skip(1)
            } else {
                s
            }),
            s == chars@.subrange(from as int, to as int),
            from <= to,
            digits_value(body.take(i - start), base as nat) == Some(n as nat),
            n <= max,
        decreases to - i,
    {
        let ghost k = i - start;
        assert(body.take(k + 1).drop_last() =~= body.take(k));
        assert(body.take(k + 1).last() == chars@[i as int]);
        proof {
            if digits_value(body, base as nat) is Some {
                lemma_prefix_value(body, k + 1, base as nat);
            }
        }
        match digit_of(chars[i], base) {
            Some(d) => {
                match n.checked_mul(base) {
                    Some(m) => {
                        match m.checked_add(d) {
                            Some(v) => {
                                if v > max {
                                    return None;
                                }
                                n = v;
                            },
                            None => {
                                return None;
                            },
                        }
                    },
                    None => {
                        return None;
                    },
                }
            },
            None => {
                return None;
            },
        }
        i += 1;
    }
    assert(body.take(to - start) =~= body);
    Some(n)
}

/// Reads an unsigned decimal number of at most `max` that fills `s`.
pub fn parse_decimal(s: &str, max: u64) -> (n: Option<u64>)
    ensures
        match n {
            Some(v) => number(s@, 10, max as nat) == Some(v as nat),
            None => number(s@, 10, max as nat) is None,
        },
{
    let chars = chars_of(s);
    assert(chars@.subrange(0, chars@.len() as int) =~= s@);
    parse_number(&chars, 0, chars.len(), 10, max)
}

/// A digit has the value that it stands for.
proof fn lemma_digit_value(d: nat, base: nat)
    requires
        d < base <= 16,
    ensures
        digit_value(digit_char(d), base) == Some(d),
        digit_char(d) != '+',
{
}

/// The digits of a number have that number as their value.
proof fn lemma_digits_value(n: nat, base: nat)
    requires
        2 <= base <= 16,
    ensures
        digits_value(digits(n, base), base) == Some(n),
        digits(n, base).len() > 0,
        digits(n, base)[0] != '+',
    decreases n,
{
    reveal_with_fuel(digits_value, 2);
    let all = digits(n, base);
    if n < base {
        lemma_digit_value(n, base);
        assert(all.drop_last() =~= Seq::<char>::empty());
        assert(0 * base == 0) by (nonlinear_arith);
        assert(digits_value(all.drop_last(), base) == Some(0nat));
    } else {
        assert(n / base < n && n % base < base && n == (n / base) * base + n % base)
            by (nonlinear_arith)
            requires
                base >= 2,
                n >= base,
        ;
        lemma_digits_value(n / base, base);
        lemma_digit_value(n % base, base);
        assert(all.drop_last() =~= digits(n / base, base));
        assert(all.last() == digit_char(n % base));
    }
}

/// A number that is written down is read back.
pub proof fn law_numbers_round_trip(n: nat, base: nat, max: nat)
    requires
        2 <= base <= 16,
        n <= max,
    ensures
        number(digits(n, base), base, max) == Some(n),
{
    lemma_digits_value(n, base);
}

} // verus!
