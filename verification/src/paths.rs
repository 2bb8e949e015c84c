//! When two paths name the same place: they are compared part by part, so repeated and trailing
//! slashes make no difference, nor does a part `.` (but for one that a relative path starts with).

use crate::maps::find;
use crate::maps::find_char;
use crate::text::chars_of;
use crate::text::text_between;
use vstd::prelude::*;
use vstd::string::StringExecFns;

verus! {

/// Whether a path starts at the root.
pub open spec fn is_rooted(path: Seq<char>) -> bool {
    path.len() > 0 && path[0] == '/'
}

/// Whether what stands between two slashes is a part of the path. `first` tells that it stands
/// before the first slash.
pub open spec fn counts(text: Seq<char>, first: bool) -> bool {
    text.len() > 0 && (first || text != seq!['.'])
}

/// The parts of (the rest of) a path.
pub open spec fn parts_of(rest: Seq<char>, first: bool) -> Seq<Seq<char>>
    decreases rest.len(),
{
    let slash = find_char(rest, '/', 0);
    let text = rest.take(slash);
    let more = if 0 <= slash < rest.len() {
        parts_of(rest.skip(slash + 1), false)
    } else {
        Seq::empty()
    };
    if counts(text, first) {
        seq![text] + more
    } else {
        more
    }
}

/// Some parts with a slash between each two.
pub open spec fn joined(parts: Seq<Seq<char>>) -> Seq<char>
    decreases parts.len(),
{
    if parts.len() == 0 {
        Seq::empty()
    } else if parts.len() == 1 {
        parts[0]
    } else {
        parts[0] + seq!['/'] + joined(parts.skip(1))
    }
}

/// A path in the one form that all paths with the same parts have.
pub open spec fn plain(path: Seq<char>) -> Seq<char> {
    if is_rooted(path) {
        seq!['/'] + joined(parts_of(path, true))
    } else {
        joined(parts_of(path, true))
    }
}

/// The plain form of `path`.
pub fn plain_path(path: &str) -> (form: String)
    ensures
        form@ == plain(path@),
{
    let chars = chars_of(path);
    let mut form = String::new();
    if chars.len() > 0 && chars[0] == '/' {
        form.push('/');
    }
    let ghost root = form@;
    let ghost mut done: Seq<Seq<char>> = Seq::empty();
    let mut from: usize = 0;
    let mut first = true;
    let mut empty = true;
    assert(chars@.skip(0) =~= chars@);
    assert(done + parts_of(chars@, true) =~= parts_of(chars@, true));
    assert(root + joined(done) =~= root);
    loop
        invariant_except_break
            done + parts_of(chars@.skip(from as int), first) == parts_of(path@, true),
        invariant
            from <= chars.len(),
            chars@ == path@,
            form@ == root + joined(done),
            empty == (done.len() == 0),
        ensures
            form@ == root + joined(parts_of(path@, true)),
        decreases chars.len() - from,
    {
        let slash = find(&chars, '/', from, chars.len());
        let ghost rest = chars@.skip(from as int);
        proof {
            assert(chars@.take(chars@.len() as int) =~= chars@);
            lemma_find_in_rest(chars@, '/', from as int, from as int);
            assert(rest.take(slash - from) =~= chars@.subrange(from as int, slash as int));
        }
        let ghost text = rest.take(slash - from);
        let dot: bool = slash - from == 1 && chars[from] == '.';
        assert(dot == (text == seq!['.'])) by {
            if dot {
                assert(text =~= seq!['.']);
            }
        }
        let ghost before = done;
        if slash > from && (first || !dot) {
            if !empty {
                form.push('/');
            }
            let part = text_between(&chars, from, slash);
            form.append(part.as_str());
            empty = false;
            proof {
                done = done.push(text);
                lemma_joined_push(before, text);
                assert(form@ =~= root + joined(done));
            }
        }
        if slash == chars.len() {
            assert(done =~= before + parts_of(rest, first));
            break;
        }
        assert(rest.skip(slash - from + 1) =~= chars@.skip(slash + 1));
        assert(done + parts_of(chars@.skip(slash + 1), false) =~= before + parts_of(rest, first));
        from = slash + 1;
        first = false;
    }
    assert(form@ =~= plain(path@));
    form
}

/// Searching the rest of a text is searching the text from there.
proof fn lemma_find_in_rest(s: Seq<char>, c: char, from: int, at: int)
    requires
        0 <= from <= at <= s.len(),
    ensures
        find_char(s.skip(from), c, at - from) == find_char(s, c, at) - from,
    decreases s.len() - at,
{
    if at < s.len() && s[at] != c {
        lemma_find_in_rest(s, c, from, at + 1);
    }
}

/// Joining one part more adds a slash and that part.
proof fn lemma_joined_push(parts: Seq<Seq<char>>, part: Seq<char>)
    ensures
        joined(parts.push(part)) == if parts.len() == 0 {
            part
        } else {
            joined(parts) + seq!['/'] + part
        },
    decreases parts.len(),
{
    if parts.len() > 0 {
        assert(parts.push(part).skip(1) =~= parts.skip(1).push(part));
        lemma_joined_push(parts.skip(1), part);
        if parts.len() > 1 {
            assert(joined(parts.push(part)) =~= joined(parts) + seq!['/'] + part);
        } else {
            assert(joined(parts.push(part)) =~= joined(parts) + seq!['/'] + part);
        }
    }
}

/// The parts hold no slash, and none of them would be passed over.
spec fn are_parts(parts: Seq<Seq<char>>, first: bool) -> bool {
    forall|i: int| #![trigger parts[i]]
        0 <= i < parts.len() ==> counts(parts[i], first && i == 0) && !parts[i].contains('/')
}

/// A search stops at the first hit.
proof fn lemma_find(s: Seq<char>, c: char, from: int)
    requires
        0 <= from <= s.len(),
    ensures
        from <= find_char(s, c, from) <= s.len(),
        forall|i: int| from <= i < find_char(s, c, from) ==> s[i] != c,
        find_char(s, c, from) < s.len() ==> s[find_char(s, c, from)] == c,
    decreases s.len() - from,
{
    if from < s.len() && s[from] != c {
        lemma_find(s, c, from + 1);
    }
}

proof fn lemma_parts(rest: Seq<char>, first: bool)
    ensures
        are_parts(parts_of(rest, first), first),
        first && is_rooted(rest) ==> are_parts(parts_of(rest, first), false),
    decreases rest.len(),
{
    lemma_find(rest, '/', 0);
    let slash = find_char(rest, '/', 0);
    let text = rest.take(slash);
    assert(!text.contains('/'));
    if slash < rest.len() {
        lemma_parts(rest.skip(slash + 1), false);
    }
    let more = if slash < rest.len() {
        parts_of(rest.skip(slash + 1), false)
    } else {
        Seq::empty()
    };
    let parts = parts_of(rest, first);
    assert(are_parts(more, false));
    if counts(text, first) {
        assert forall|i: int| #![trigger parts[i]] 0 <= i < parts.len() implies counts(
            parts[i],
            first && i == 0,
        ) && !parts[i].contains('/') by {
            if i > 0 {
                assert(parts[i] == more[i - 1]);
            }
        }
    }
}

/// What was joined can be taken apart again.
proof fn lemma_taken_apart(parts: Seq<Seq<char>>, first: bool)
    requires
        are_parts(parts, first),
    ensures
        parts_of(joined(parts), first) == parts,
        !is_rooted(joined(parts)),
    decreases parts.len(),
{
    let s = joined(parts);
    lemma_find(s, '/', 0);
    let slash = find_char(s, '/', 0);
    if parts.len() == 0 {
        assert(parts_of(s, first) =~= parts);
    } else {
        let head = parts[0];
        assert(head.len() > 0 && !head.contains('/'));
        assert forall|i: int| 0 <= i < head.len() implies s[i] == head[i] && s[i] != '/' by {
            assert(head.contains(head[i]));
        }
        if parts.len() == 1 {
            assert(slash == s.len()) by {
                if slash < s.len() {
                    assert(s[slash] != '/');
                }
            }
            assert(s.take(slash) =~= head);
            assert(parts_of(s, first) =~= parts);
        } else {
            assert(s[head.len() as int] == '/');
            assert(slash == head.len()) by {
                if slash < head.len() {
                    assert(s[slash] != '/');
                }
            }
            assert(s.take(slash) =~= head);
            assert(s.skip(slash + 1) =~= joined(parts.skip(1)));
            let rest = parts.skip(1);
            assert forall|i: int| #![trigger rest[i]] 0 <= i < rest.len() implies counts(
                rest[i],
                false,
            ) && !rest[i].contains('/') by {
                assert(rest[i] == parts[i + 1]);
            }
            lemma_taken_apart(rest, false);
            assert(parts_of(s, first) =~= parts);
        }
        assert(s[0] == head[0]);
    }
}

/// Two paths have the same plain form just if both or neither start at the root and they have the
/// same parts.
pub proof fn law_same_place_same_form(a: Seq<char>, b: Seq<char>)
    ensures
        plain(a) == plain(b) <==> is_rooted(a) == is_rooted(b) && parts_of(a, true) == parts_of(
            b,
            true,
        ),
{
    lemma_plain_parts(a);
    lemma_plain_parts(b);
}

/// The plain form of a path has the path's parts.
proof fn lemma_plain_parts(path: Seq<char>)
    ensures
        is_rooted(plain(path)) == is_rooted(path),
        parts_of(plain(path), true) == parts_of(path, true),
{
    let parts = parts_of(path, true);
    lemma_parts(path, true);
    if is_rooted(path) {
        let form = plain(path);
        lemma_taken_apart(parts, false);
        assert(find_char(form, '/', 0) == 0);
        assert(form.take(0) =~= Seq::<char>::empty());
        assert(form.skip(1) =~= joined(parts));
    } else {
        lemma_taken_apart(parts, true);
    }
}

} // verus!
