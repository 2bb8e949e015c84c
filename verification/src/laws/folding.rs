//! The folded stacks, read back from their text.

use crate::laws::numerals::is_numeral;
use crate::laws::numerals::law_numbers_are_written;
use crate::laws::numerals::value;
use crate::laws::numerals::worth;
use crate::ledger::live_bytes;
use crate::ledger::stack_labels;
use crate::ledger::Block;
use crate::ledger::Names;
use crate::tally::lemma_tally_same;
use crate::tally::tally;
use crate::tally::total;
use crate::text::decimal;
use crate::views::folded_bytes;
use crate::views::folded_lines;
use crate::views::folds;
use crate::views::is_folded;
use crate::views::joined_back;
use crate::views::law_folded_stacks_add_up;
use crate::views::lists_keys;
use crate::views::size_at_key;
use vstd::prelude::*;

verus! {

/// The place of the last `c` in a text, or -1.
pub open spec fn last_at(text: Seq<char>, c: char) -> int
    decreases text.len(),
{
    if text.len() == 0 || text.last() == c {
        text.len() - 1
    } else {
        last_at(text.drop_last(), c)
    }
}

proof fn lemma_last_at(text: Seq<char>, c: char, at: int)
    requires
        -1 <= at < text.len(),
        at >= 0 ==> text[at] == c,
        forall|i: int| at < i < text.len() ==> text[i] != c,
    ensures
        last_at(text, c) == at,
    decreases text.len(),
{
    if text.len() > 0 && at < text.len() - 1 {
        lemma_last_at(text.drop_last(), c, at);
    }
}

/// The lines of a text in which a line feed ends each line.
pub open spec fn lines_in(text: Seq<char>) -> Seq<Seq<char>>
    decreases text.len(),
{
    if text.len() == 0 {
        Seq::empty()
    } else {
        let start = last_at(text.drop_last(), '\n') + 1;
        if 0 <= start < text.len() {
            lines_in(text.take(start)).push(text.subrange(start, text.len() - 1))
        } else {
            Seq::empty()
        }
    }
}

/// The stack on a line: what stands before the last blank.
pub open spec fn stack_on(line: Seq<char>) -> Seq<char> {
    line.take(last_at(line, ' '))
}

/// The number on a line: what stands behind the last blank.
pub open spec fn number_on(line: Seq<char>) -> Seq<char> {
    line.skip(last_at(line, ' ') + 1)
}

/// The bytes on a line.
pub open spec fn bytes_on(line: Seq<char>) -> nat {
    value(number_on(line), 10) as nat
}

/// The size of a block, if `stack` is its line.
pub open spec fn size_if_on(
    class: spec_fn(Block) -> Seq<char>,
    stack: Seq<char>,
) -> spec_fn(Block) -> nat {
    |b: Block|
        if class(b) == stack {
            b.size
        } else {
            0
        }
}

/// The text of the folded stacks, read back line by line: each line names a stack, no two the
/// same, and behind it stands in decimal what the live blocks with just that stack add up to; no
/// live block is without its line, and no line without a live block; and the numbers on the lines
/// add up to all that is live. (A stack whose names hold a line feed would break its line.)
pub proof fn law_folded_text_reads_back(
    text: Seq<char>,
    blocks: Map<usize, Block>,
    class: spec_fn(Block) -> Seq<char>,
)
    requires
        blocks.dom().finite(),
        is_folded(text, blocks, class),
        forall|ptr: usize| #[trigger]
            blocks.contains_key(ptr) ==> !class(blocks[ptr]).contains('\n'),
    ensures
        ({
            let lines = lines_in(text);
            &&& forall|i: int| #![trigger lines[i]]
                0 <= i < lines.len() ==> {
                    &&& is_numeral(number_on(lines[i]), 10)
                    &&& bytes_on(lines[i]) == tally(blocks, size_if_on(class, stack_on(lines[i])))
                    &&& exists|ptr: usize| #[trigger]
                        blocks.contains_key(ptr) && class(blocks[ptr]) == stack_on(lines[i])
                }
            &&& forall|i: int, j: int| #![trigger lines[i], lines[j]]
                0 <= i < j < lines.len() ==> stack_on(lines[i]) != stack_on(lines[j])
            &&& forall|ptr: usize| #[trigger]
                blocks.contains_key(ptr) ==> exists|i: int|
                    0 <= i < lines.len() && class(blocks[ptr]) == stack_on(#[trigger] lines[i])
            &&& total(lines, |line: Seq<char>| bytes_on(line)) == live_bytes(blocks)
        }),
{
    let keys = choose|keys: Seq<Seq<char>>| #[trigger]
        lists_keys(keys, blocks, class) && text == folded_lines(keys, blocks, class);
    assert forall|i: int| 0 <= i < keys.len() implies !(#[trigger] keys[i]).contains('\n') by {
        let ptr = choose|ptr: usize| #[trigger]
            blocks.contains_key(ptr) && class(blocks[ptr]) == keys[i];
    }
    let lines = lines_in(text);
    lemma_lines(keys, blocks, class);
    assert forall|i: int| #![trigger lines[i]] 0 <= i < lines.len() implies {
        &&& is_numeral(number_on(lines[i]), 10)
        &&& bytes_on(lines[i]) == tally(blocks, size_if_on(class, stack_on(lines[i])))
        &&& exists|ptr: usize| #[trigger]
            blocks.contains_key(ptr) && class(blocks[ptr]) == stack_on(lines[i])
    } by {
        lemma_line(keys[i], folded_bytes(blocks, class, keys[i]));
        lemma_tally_same(blocks, size_at_key(class, keys[i]), size_if_on(class, keys[i]));
    }
    assert forall|i: int, j: int| #![trigger lines[i], lines[j]]
        0 <= i < j < lines.len() implies stack_on(lines[i]) != stack_on(lines[j]) by {
        lemma_line(keys[i], folded_bytes(blocks, class, keys[i]));
        lemma_line(keys[j], folded_bytes(blocks, class, keys[j]));
    }
    assert forall|ptr: usize| #[trigger] blocks.contains_key(ptr) implies exists|i: int|
        0 <= i < lines.len() && class(blocks[ptr]) == stack_on(#[trigger] lines[i]) by {
        let i = choose|i: int| 0 <= i < keys.len() && keys[i] == class(blocks[ptr]);
        lemma_line(keys[i], folded_bytes(blocks, class, keys[i]));
        assert(class(blocks[ptr]) == stack_on(lines[i]));
    }
    law_folded_stacks_add_up(keys, blocks, class);
    lemma_same_sum(keys, lines, blocks, class);
}

/// One line of the folded stacks.
spec fn line_of(key: Seq<char>, bytes: nat) -> Seq<char> {
    key + seq![' '] + decimal(bytes)
}

proof fn lemma_no_gaps(n: nat)
    ensures
        !decimal(n).contains(' '),
        !decimal(n).contains('\n'),
{
    law_numbers_are_written(n, 0);
    let text = decimal(n);
    assert forall|i: int| 0 <= i < text.len() implies text[i] != ' ' && text[i] != '\n' by {
        assert(worth(text[i]) >= 0);
    }
}

proof fn lemma_line(key: Seq<char>, bytes: nat)
    ensures
        stack_on(line_of(key, bytes)) == key,
        number_on(line_of(key, bytes)) == decimal(bytes),
        is_numeral(decimal(bytes), 10),
        bytes_on(line_of(key, bytes)) == bytes,
{
    let line = line_of(key, bytes);
    lemma_no_gaps(bytes);
    law_numbers_are_written(bytes, 0);
    assert forall|i: int| key.len() < i < line.len() implies line[i] != ' ' by {
        assert(decimal(bytes)[i - key.len() - 1] == line[i]);
        assert(decimal(bytes).contains(line[i]));
    }
    lemma_last_at(line, ' ', key.len() as int);
    assert(stack_on(line) =~= key);
    assert(number_on(line) =~= decimal(bytes));
}

proof fn lemma_lines(
    keys: Seq<Seq<char>>,
    blocks: Map<usize, Block>,
    class: spec_fn(Block) -> Seq<char>,
)
    requires
        forall|i: int| 0 <= i < keys.len() ==> !(#[trigger] keys[i]).contains('\n'),
    ensures
        ({
            let text = folded_lines(keys, blocks, class);
            &&& text.len() > 0 ==> text.last() == '\n'
            &&& lines_in(text).len() == keys.len()
            &&& forall|i: int|
                0 <= i < keys.len() ==> #[trigger] lines_in(text)[i] == line_of(
                    keys[i],
                    folded_bytes(blocks, class, keys[i]),
                )
        }),
    decreases keys.len(),
{
    reveal_strlit(" ");
    reveal_strlit("\n");
    let text = folded_lines(keys, blocks, class);
    if keys.len() > 0 {
        let rest = keys.drop_last();
        let before = folded_lines(rest, blocks, class);
        let key = keys.last();
        let bytes = folded_bytes(blocks, class, key);
        let line = line_of(key, bytes);
        assert forall|i: int| 0 <= i < rest.len() implies !(#[trigger] rest[i]).contains('\n') by {
            assert(rest[i] == keys[i]);
        }
        lemma_lines(rest, blocks, class);
        assert(text =~= before + line + seq!['\n']);
        let body = text.drop_last();
        assert(body =~= before + line);
        lemma_no_gaps(bytes);
        assert(!keys[keys.len() - 1].contains('\n'));
        assert forall|i: int| before.len() <= i < body.len() implies body[i] != '\n' by {
            let k = i - before.len();
            if k < key.len() {
                assert(key.contains(key[k]));
            } else if k > key.len() {
                assert(decimal(bytes).contains(decimal(bytes)[k - key.len() - 1]));
            }
        }
        if before.len() > 0 {
            assert(body[before.len() - 1] == before.last());
        }
        lemma_last_at(body, '\n', before.len() - 1);
        assert(text.take(before.len() as int) =~= before);
        assert(text.subrange(before.len() as int, text.len() - 1) =~= line);
        assert(lines_in(text) == lines_in(before).push(line));
        assert forall|i: int| 0 <= i < keys.len() implies #[trigger] lines_in(text)[i] == line_of(
            keys[i],
            folded_bytes(blocks, class, keys[i]),
        ) by {
            if i < rest.len() {
                assert(lines_in(before)[i] == line_of(
                    rest[i],
                    folded_bytes(blocks, class, rest[i]),
                ));
            }
        }
    }
}

proof fn lemma_same_sum(
    keys: Seq<Seq<char>>,
    lines: Seq<Seq<char>>,
    blocks: Map<usize, Block>,
    class: spec_fn(Block) -> Seq<char>,
)
    requires
        keys.len() == lines.len(),
        forall|i: int|
            0 <= i < keys.len() ==> #[trigger] lines[i] == line_of(
                keys[i],
                folded_bytes(blocks, class, keys[i]),
            ),
    ensures
        total(lines, |line: Seq<char>| bytes_on(line)) == total(
            keys,
            |key: Seq<char>| folded_bytes(blocks, class, key),
        ),
    decreases keys.len(),
{
    if keys.len() > 0 {
        assert(lines[lines.len() - 1] == lines.last());
        lemma_line(keys.last(), folded_bytes(blocks, class, keys.last()));
        lemma_same_sum(keys.drop_last(), lines.drop_last(), blocks, class);
    }
}

/// The pieces of a text between semicolons.
pub open spec fn pieces_in(text: Seq<char>) -> Seq<Seq<char>>
    decreases text.len(),
{
    let cut = last_at(text, ';');
    if 0 <= cut < text.len() {
        pieces_in(text.take(cut)).push(text.skip(cut + 1))
    } else {
        seq![text]
    }
}

/// A label with a colon for each semicolon.
pub open spec fn without_semicolons(label: Seq<char>) -> Seq<char> {
    Seq::new(
        label.len(),
        |i: int|
            if label[i] == ';' {
                ':'
            } else {
                label[i]
            },
    )
}

/// The stack on the line of a block, read back: its labels from the outermost to the innermost;
/// or a word for a stack without frames.
pub proof fn law_folded_stacks_are_outermost_first(names: Names, known: Names, b: Block)
    ensures
        ({
            let labels = stack_labels(names, known, b.frames);
            let stack = folds(names, known)(b);
            &&& labels.len() == 0 ==> stack == "[unknown]"@
            &&& labels.len() > 0 ==> {
                &&& pieces_in(stack).len() == labels.len()
                &&& forall|i: int|
                    0 <= i < labels.len() ==> #[trigger] pieces_in(stack)[i] == without_semicolons(
                        labels[labels.len() - 1 - i],
                    )
            }
        }),
{
    let labels = stack_labels(names, known, b.frames);
    if labels.len() > 0 {
        lemma_pieces(labels);
    }
}

proof fn lemma_pieces(list: Seq<Seq<char>>)
    requires
        list.len() > 0,
    ensures
        pieces_in(joined_back(list)).len() == list.len(),
        forall|i: int|
            0 <= i < list.len() ==> #[trigger] pieces_in(joined_back(list))[i]
                == without_semicolons(list[list.len() - 1 - i]),
    decreases list.len(),
{
    let text = joined_back(list);
    let near = without_semicolons(list[0]);
    assert(crate::text::replaced(list[0], ';', ':') =~= near);
    if list.len() == 1 {
        lemma_last_at(text, ';', -1);
        assert(pieces_in(text) == seq![near]);
    } else {
        let rest = list.drop_first();
        let before = joined_back(rest);
        lemma_pieces(rest);
        reveal_strlit(";");
        assert(text =~= before + seq![';'] + near);
        lemma_last_at(text, ';', before.len() as int);
        assert(text.take(before.len() as int) =~= before);
        assert(text.skip(before.len() as int + 1) =~= near);
        assert(pieces_in(text) == pieces_in(before).push(near));
        assert forall|i: int| 0 <= i < list.len() implies #[trigger] pieces_in(text)[i]
            == without_semicolons(list[list.len() - 1 - i]) by {
            if i < rest.len() {
                assert(pieces_in(before)[i] == without_semicolons(rest[rest.len() - 1 - i]));
            }
        }
    }
}

} // verus!
