//! How numbers stand in texts.

use crate::text::decimal;
use crate::text::digit_char;
use crate::text::digit_value;
use crate::text::digits;
use crate::text::digits_value;
use crate::text::hex;
use crate::text::number;
use crate::text::raw_address;
use vstd::prelude::*;

verus! {

/// What a character is worth as a digit: -1 if it is none.
pub open spec fn worth(c: char) -> int {
    if '0' <= c <= '9' {
        c as int - '0' as int
    } else if 'a' <= c <= 'z' {
        c as int - 'a' as int + 10
    } else if 'A' <= c <= 'Z' {
        c as int - 'A' as int + 10
    } else {
        -1
    }
}

/// The text is made of digits in `base`, at least one.
pub open spec fn is_numeral(text: Seq<char>, base: int) -> bool {
    text.len() > 0 && forall|i: int| 0 <= i < text.len() ==> 0 <= worth(#[trigger] text[i]) < base
}

/// The number that a numeral stands for.
pub open spec fn value(text: Seq<char>, base: int) -> int
    decreases text.len(),
{
    if text.len() == 0 {
        0
    } else {
        value(text.drop_last(), base) * base + worth(text.last())
    }
}

/// `text` is how `n` is written in `base`: the numeral with that value that has no needless zero
/// in front and no capital letter.
pub open spec fn writes(text: Seq<char>, n: nat, base: int) -> bool {
    &&& is_numeral(text, base)
    &&& value(text, base) == n
    &&& n > 0 ==> text[0] != '0'
    &&& n == 0 ==> text.len() == 1
    &&& forall|i: int| 0 <= i < text.len() ==> !('A' <= #[trigger] text[i] <= 'Z')
}

/// Numbers are written in decimal or in hexadecimal as usual, addresses in hexadecimal behind `0x`.
pub proof fn law_numbers_are_written(n: nat, addr: usize)
    ensures
        writes(decimal(n), n, 10),
        writes(hex(n), n, 16),
        raw_address(addr).len() > 2,
        raw_address(addr)[0] == '0' && raw_address(addr)[1] == 'x',
        writes(raw_address(addr).skip(2), addr as nat, 16),
{
    lemma_written(n, 10);
    lemma_written(n, 16);
    lemma_written(addr as nat, 16);
    reveal_strlit("0x");
    assert(raw_address(addr).skip(2) =~= hex(addr as nat));
}

proof fn lemma_written(n: nat, base: nat)
    requires
        2 <= base <= 16,
    ensures
        writes(digits(n, base), n, base as int),
    decreases n,
{
    let text = digits(n, base);
    reveal_with_fuel(value, 2);
    if n < base {
        assert(text.drop_last() =~= Seq::<char>::empty());
        assert(0 * base == 0) by (nonlinear_arith);
    } else {
        assert(n / base < n && n % base < base && n == (n / base) * base + n % base && n / base > 0)
            by (nonlinear_arith)
            requires
                base >= 2,
                n >= base,
        ;
        let high = digits(n / base, base);
        lemma_written(n / base, base);
        assert(text.drop_last() =~= high);
        assert(text.last() == digit_char(n % base));
        assert forall|i: int| 0 <= i < text.len() implies 0 <= worth(#[trigger] text[i]) < base
            && !('A' <= text[i] <= 'Z') by {
            if i < high.len() {
                assert(text[i] == high[i]);
            }
        }
        assert(text[0] == high[0]);
    }
}

/// A text is read as a number just if it is a numeral, perhaps behind a `+`, and its value is not
/// too large; what is read is that value.
pub proof fn law_numbers_are_read(text: Seq<char>, base: nat, max: nat)
    requires
        2 <= base <= 36,
    ensures
        ({
            let body = if text.len() > 0 && text[0] == '+' {
                text.skip(1)
            } else {
                text
            };
            number(text, base, max) == if is_numeral(body, base as int) && value(body, base as int)
                <= max {
                Some(value(body, base as int) as nat)
            } else {
                None
            }
        }),
{
    let body = if text.len() > 0 && text[0] == '+' {
        text.skip(1)
    } else {
        text
    };
    lemma_read(body, base);
}

proof fn lemma_read(text: Seq<char>, base: nat)
    requires
        2 <= base <= 36,
    ensures
        digits_value(text, base) is Some <==> text.len() == 0 || is_numeral(text, base as int),
        digits_value(text, base) is Some ==> digits_value(text, base)->0 == value(
            text,
            base as int,
        ),
    decreases text.len(),
{
    if text.len() > 0 {
        let high = text.drop_last();
        lemma_read(high, base);
        assert(digit_value(text.last(), base) is Some <==> 0 <= worth(text.last()) < base);
        if is_numeral(text, base as int) {
            assert(worth(text[text.len() - 1]) == worth(text.last()));
            assert forall|i: int| 0 <= i < high.len() implies 0 <= worth(#[trigger] high[i])
                < base by {
                assert(high[i] == text[i]);
            }
        }
        if (high.len() == 0 || is_numeral(high, base as int)) && 0 <= worth(text.last()) < base {
            assert forall|i: int| 0 <= i < text.len() implies 0 <= worth(#[trigger] text[i])
                < base by {
                if i < high.len() {
                    assert(text[i] == high[i]);
                }
            }
        }
    }
}

} // verus!
