//! Lists of partition names written one to a line.

use vstd::prelude::*;
use vstd::string::StrSliceExecFns;
use crate::metadata::names_view;

verus! {

/// Adds a character to the end of a string, with `String::push`.
#[verifier::external_body]
pub(crate) fn push_char(s: &mut String, c: char)
    ensures
        final(s)@ == old(s)@.push(c),
{
    s.push(c)
}

/// A character with the Unicode property White_Space.
pub open spec fn is_blank(c: char) -> bool {
    let n = c as u32;
    (9 <= n && n <= 13) || n == 0x20 || n == 0x85 || n == 0xa0 || n == 0x1680 || (0x2000 <= n && n
        <= 0x200a) || n == 0x2028 || n == 0x2029 || n == 0x202f || n == 0x205f || n == 0x3000
}

/// Whether a character has the Unicode property White_Space.
pub fn blank(c: char) -> (r: bool)
    ensures
        r == is_blank(c),
{
    let n = c as u32;
    (9 <= n && n <= 13) || n == 0x20 || n == 0x85 || n == 0xa0 || n == 0x1680 || (0x2000 <= n && n
        <= 0x200a) || n == 0x2028 || n == 0x2029 || n == 0x202f || n == 0x205f || n == 0x3000
}

/// The position of the first character of `s` at or after `from`, and before
/// `to`, that is not blank; `to` where there is none.
pub open spec fn skip_blanks(s: Seq<char>, from: int, to: int) -> int
    decreases to - from,
{
    if from < 0 || from >= to || to > s.len() || !is_blank(s[from]) {
        from
    } else {
        skip_blanks(s, from + 1, to)
    }
}

/// The position after the last character of `s` before `to`, and at or after
/// `from`, that is not blank; `from` where there is none.
pub open spec fn drop_blanks(s: Seq<char>, from: int, to: int) -> int
    decreases to - from,
{
    if from < 0 || to <= from || to > s.len() || !is_blank(s[to - 1]) {
        to
    } else {
        drop_blanks(s, from, to - 1)
    }
}

/// The characters of `s` from `from` up to `to` without the blanks at their
/// start and at their end.
pub open spec fn trimmed_range(s: Seq<char>, from: int, to: int) -> Seq<char> {
    let start = skip_blanks(s, from, to);
    s.subrange(start, drop_blanks(s, start, to))
}

/// `rest` after `name`, or `rest` alone where `name` is empty.
pub open spec fn with_name(name: Seq<char>, rest: Seq<Seq<char>>) -> Seq<Seq<char>> {
    if name.len() > 0 {
        seq![name] + rest
    } else {
        rest
    }
}

/// The names in the lines of `text` from the line that began at
/// `line_start`, the scan standing at `pos`: each line without the blanks
/// around it, empty lines left out.
pub open spec fn names_scan(text: Seq<char>, line_start: int, pos: int) -> Seq<Seq<char>>
    decreases text.len() - pos,
{
    if pos < 0 || pos >= text.len() {
        with_name(trimmed_range(text, line_start, text.len() as int), Seq::empty())
    } else if text[pos] == '\n' {
        with_name(trimmed_range(text, line_start, pos), names_scan(text, pos + 1, pos + 1))
    } else {
        names_scan(text, line_start, pos + 1)
    }
}

/// The names that `text` lists, one to a line.
pub open spec fn name_lines(text: Seq<char>) -> Seq<Seq<char>> {
    names_scan(text, 0, 0)
}

/// The characters of `text`, in their order.
pub fn chars_of(text: &str) -> (r: Vec<char>)
    ensures
        r@ == text@,
{
    let mut chars: Vec<char> = Vec::new();
    for c in it: text.chars()
        invariant
            it.seq() == text@,
            chars@ == text@.take(it.index() as int),
    {
        chars.push(c);
        assert(chars@ =~= text@.take(it.index() + 1));
    }
    assert(chars@ =~= text@);
    chars
}

/// The characters of `chars` from `from` up to `to`, without the blanks at
/// their start and at their end, as a string.
pub fn trimmed_name(chars: &Vec<char>, from: usize, to: usize) -> (r: String)
    requires
        from <= to <= chars.len(),
    ensures
        r@ == trimmed_range(chars@, from as int, to as int),
{
    let mut start = from;
    while start < to && blank(chars[start])
        invariant
            from <= start <= to <= chars.len(),
            skip_blanks(chars@, from as int, to as int) == skip_blanks(
                chars@,
                start as int,
                to as int,
            ),
        decreases to - start,
    {
        start += 1;
    }
    let mut end = to;
    while end > start && blank(chars[end - 1])
        invariant
            start <= end <= to <= chars.len(),
            drop_blanks(chars@, start as int, to as int) == drop_blanks(
                chars@,
                start as int,
                end as int,
            ),
        decreases end - start,
    {
        end -= 1;
    }
    let mut name = String::new();
    let mut i = start;
    while i < end
        invariant
            start <= i <= end <= chars.len(),
            name@ == chars@.subrange(start as int, i as int),
        decreases end - i,
    {
        push_char(&mut name, chars[i]);
        i += 1;
        assert(name@ =~= chars@.subrange(start as int, i as int));
    }
    name
}

/// Reads a list of names written one to a line: blanks around a name do not
/// count, and empty lines are left out.
pub fn parse_name_list(text: &str) -> (r: Vec<String>)
    ensures
        names_view(r@) == name_lines(text@),
{
    let chars = chars_of(text);
    let mut names: Vec<String> = Vec::new();
    let mut line_start: usize = 0;
    let mut pos: usize = 0;
    proof {
        assert(names_view(names@) =~= Seq::empty());
    }
    while pos < chars.len()
        invariant
            line_start <= pos <= chars.len(),
            chars@ == text@,
            name_lines(text@) == names_view(names@) + names_scan(
                chars@,
                line_start as int,
                pos as int,
            ),
        decreases chars.len() - pos,
    {
        if chars[pos] == '\n' {
            let name = trimmed_name(&chars, line_start, pos);
            let ghost before = names_view(names@);
            let ghost rest = names_scan(chars@, pos + 1, pos + 1);
            if name.as_str().unicode_len() > 0 {
                names.push(name);
                proof {
                    assert(names_view(names@) =~= before.push(name@));
                    assert(before + (seq![name@] + rest) =~= before.push(name@) + rest);
                }
            }
            pos += 1;
            line_start = pos;
        } else {
            pos += 1;
        }
    }
    let name = trimmed_name(&chars, line_start, chars.len());
    let ghost before = names_view(names@);
    if name.as_str().unicode_len() > 0 {
        names.push(name);
        proof {
            assert(names_view(names@) =~= before.push(name@));
            assert(before + (seq![name@] + Seq::<Seq<char>>::empty()) =~= before.push(name@));
        }
    } else {
        proof {
            assert(before + Seq::<Seq<char>>::empty() =~= before);
        }
    }
    names
}

} // verus!
