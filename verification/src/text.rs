//! Splitting text into lines, and the string operations the formatter needs.

use vstd::prelude::*;

verus! {

/// The character that ends a line.
pub const LINE_BREAK: char = '\n';

/// The lines of `text`: the pieces between its line breaks, in order. A text
/// with `n` line breaks has `n + 1` lines, some of which may be empty.
pub open spec fn lines_of(text: Seq<char>) -> Seq<Seq<char>>
    decreases text.len(),
{
    if text.len() == 0 {
        seq![Seq::<char>::empty()]
    } else {
        let before = lines_of(text.drop_last());
        if text.last() == LINE_BREAK {
            before.push(Seq::<char>::empty())
        } else {
            before.drop_last().push(before.last().push(text.last()))
        }
    }
}

/// The texts of a sequence of strings.
pub open spec fn texts_of(strings: Seq<String>) -> Seq<Seq<char>> {
    Seq::new(strings.len(), |i: int| strings[i]@)
}

/// Calls `String::push` of the standard library, which appends one
/// character to the end of the string.
#[verifier::external_body]
pub(crate) fn push_char(text: &mut String, c: char)
    ensures
        final(text)@ == old(text)@.push(c),
{
    text.push(c);
}

/// Splits `text` at its line breaks.
pub fn split_lines(text: &str) -> (lines: Vec<String>)
    ensures
        texts_of(lines@) == lines_of(text@),
        lines.len() >= 1,
{
    let mut lines: Vec<String> = Vec::new();
    let mut current = String::new();
    for c in it: text.chars()
        invariant
            it.seq() == text@,
            texts_of(lines@).push(current@) == lines_of(text@.take(it.index())),
    {
        assert(text@.take(it.index() + 1).drop_last() == text@.take(it.index()));
        if c == LINE_BREAK {
            lines.push(current);
            current = String::new();
        } else {
            push_char(&mut current, c);
        }
    }
    assert(text@.take(text@.len() as int) == text@);
    lines.push(current);
    lines
}

/// The number of line breaks in `text`.
pub open spec fn count_breaks(text: Seq<char>) -> nat
    decreases text.len(),
{
    if text.len() == 0 {
        0
    } else if text.last() == LINE_BREAK {
        count_breaks(text.drop_last()) + 1
    } else {
        count_breaks(text.drop_last())
    }
}

/// The lines in order with a line break between each two.
pub open spec fn join_lines(lines: Seq<Seq<char>>) -> Seq<char>
    decreases lines.len(),
{
    if lines.len() == 0 {
        Seq::<char>::empty()
    } else if lines.len() == 1 {
        lines[0]
    } else {
        join_lines(lines.drop_last()) + seq![LINE_BREAK] + lines.last()
    }
}

/// Whether `pattern` stands in `text` at position `at`.
pub open spec fn occurs_at(text: Seq<char>, pattern: Seq<char>, at: int) -> bool {
    &&& 0 <= at
    &&& at + pattern.len() <= text.len()
    &&& text.subrange(at, at + pattern.len()) == pattern
}

/// The number of positions before `below` at which `pattern` stands in
/// `text`.
pub open spec fn occurrences_below(text: Seq<char>, pattern: Seq<char>, below: int) -> nat
    decreases below,
{
    if below <= 0 {
        0
    } else if occurs_at(text, pattern, below - 1) {
        occurrences_below(text, pattern, below - 1) + 1
    } else {
        occurrences_below(text, pattern, below - 1)
    }
}

/// The number of times `pattern` occurs in `text`, overlapping occurrences
/// counted each.
pub open spec fn occurrences(text: Seq<char>, pattern: Seq<char>) -> nat {
    occurrences_below(text, pattern, text.len() as int)
}

/// Whether no occurrence of `pattern` in `left + right` begins in `left` and
/// ends in `right`.
pub open spec fn joins_cleanly(left: Seq<char>, right: Seq<char>, pattern: Seq<char>) -> bool {
    forall|at: int|
        left.len() - pattern.len() < at < left.len() ==> !occurs_at(left + right, pattern, at)
}

/// A text has one line more than it has line breaks.
pub proof fn lines_count(text: Seq<char>)
    ensures
        lines_of(text).len() == count_breaks(text) + 1,
    decreases text.len(),
{
    if text.len() > 0 {
        lines_count(text.drop_last());
    }
}

/// No line holds a line break.
pub proof fn lines_hold_no_break(text: Seq<char>)
    ensures
        forall|k: int| 0 <= k < lines_of(text).len() ==> count_breaks(#[trigger] lines_of(text)[k]) == 0,
    decreases text.len(),
{
    if text.len() > 0 {
        let before = lines_of(text.drop_last());
        lines_hold_no_break(text.drop_last());
        lines_count(text.drop_last());
        if text.last() != LINE_BREAK {
            assert(before.last().push(text.last()).drop_last() == before.last());
        }
    }
}

/// Joining the lines of a text with line breaks gives the text back.
pub proof fn lines_join_back(text: Seq<char>)
    ensures
        join_lines(lines_of(text)) == text,
    decreases text.len(),
{
    if text.len() > 0 {
        let before = lines_of(text.drop_last());
        lines_join_back(text.drop_last());
        lines_count(text.drop_last());
        assert(text == text.drop_last().push(text.last()));
        if text.last() == LINE_BREAK {
            let lines = before.push(Seq::<char>::empty());
            assert(lines.drop_last() == before);
            assert(join_lines(lines) == join_lines(before) + seq![LINE_BREAK] + Seq::<char>::empty());
            assert(join_lines(lines) == text);
        } else {
            let grown = before.last().push(text.last());
            let lines = before.drop_last().push(grown);
            assert(lines.drop_last() == before.drop_last());
            if before.len() == 1 {
                assert(join_lines(lines) == text);
            } else {
                assert(join_lines(lines) == join_lines(before.drop_last()) + seq![LINE_BREAK] + grown);
                assert(join_lines(before) == join_lines(before.drop_last()) + seq![LINE_BREAK]
                    + before.last());
                assert(join_lines(lines) == text);
            }
        }
    }
}

/// A text without a line break is its own single line.
pub proof fn unbroken_text_is_one_line(text: Seq<char>)
    requires
        count_breaks(text) == 0,
    ensures
        lines_of(text) == seq![text],
    decreases text.len(),
{
    if text.len() > 0 {
        unbroken_text_is_one_line(text.drop_last());
        assert(text.drop_last().push(text.last()) == text);
        assert(lines_of(text) =~= seq![text]);
    } else {
        assert(text =~= Seq::<char>::empty());
    }
}

/// The last line of a text is the end of the text.
pub proof fn last_line_ends_text(text: Seq<char>)
    ensures
        lines_of(text).len() >= 1,
        lines_of(text).last().len() <= text.len(),
        text.subrange(text.len() - lines_of(text).last().len(), text.len() as int) == lines_of(
            text,
        ).last(),
    decreases text.len(),
{
    if text.len() > 0 {
        last_line_ends_text(text.drop_last());
    }
}

/// Line breaks add up over concatenation.
pub proof fn breaks_add_up(left: Seq<char>, right: Seq<char>)
    ensures
        count_breaks(left + right) == count_breaks(left) + count_breaks(right),
    decreases right.len(),
{
    if right.len() == 0 {
        assert(left + right == left);
    } else {
        breaks_add_up(left, right.drop_last());
        assert((left + right).drop_last() == left + right.drop_last());
    }
}

/// A text has no line break exactly if no character of it is one.
pub proof fn no_break_means_none_contained(text: Seq<char>)
    ensures
        count_breaks(text) == 0 <==> !text.contains(LINE_BREAK),
    decreases text.len(),
{
    if text.len() > 0 {
        no_break_means_none_contained(text.drop_last());
        if text.last() == LINE_BREAK {
            assert(text[text.len() - 1] == LINE_BREAK);
        } else if text.contains(LINE_BREAK) {
            let i = choose|i: int| 0 <= i < text.len() && text[i] == LINE_BREAK;
            assert(text.drop_last()[i] == LINE_BREAK);
        } else if text.drop_last().contains(LINE_BREAK) {
            let i = choose|i: int| 0 <= i < text.drop_last().len() && text.drop_last()[i] == LINE_BREAK;
            assert(text[i] == LINE_BREAK);
        }
    }
}

/// The count is zero exactly if the pattern stands nowhere.
pub proof fn no_occurrence_means_nowhere(text: Seq<char>, pattern: Seq<char>)
    requires
        pattern.len() > 0,
    ensures
        occurrences(text, pattern) == 0 <==> forall|at: int| !occurs_at(text, pattern, at),
{
    nowhere_below(text, pattern, text.len() as int);
}

proof fn nowhere_below(text: Seq<char>, pattern: Seq<char>, below: int)
    requires
        below <= text.len(),
        pattern.len() > 0,
    ensures
        occurrences_below(text, pattern, below) == 0 <==> forall|at: int|
            at < below ==> !occurs_at(text, pattern, at),
        below == text.len() ==> (occurrences_below(text, pattern, below) == 0 <==> forall|at: int|
            !occurs_at(text, pattern, at)),
    decreases below,
{
    if below > 0 {
        nowhere_below(text, pattern, below - 1);
    }
}

/// If the pattern occurs nowhere in a text, it occurs in none of its lines.
pub proof fn lines_hold_no_occurrence(text: Seq<char>, pattern: Seq<char>)
    requires
        pattern.len() > 0,
        occurrences(text, pattern) == 0,
    ensures
        forall|k: int|
            0 <= k < lines_of(text).len() ==> occurrences(#[trigger] lines_of(text)[k], pattern)
                == 0,
    decreases text.len(),
{
    let lines = lines_of(text);
    if text.len() > 0 {
        let shorter = text.drop_last();
        let before = lines_of(shorter);
        no_occurrence_means_nowhere(text, pattern);
        assert forall|at: int| !occurs_at(shorter, pattern, at) by {
            if occurs_at(shorter, pattern, at) {
                assert(text.subrange(at, at + pattern.len()) == shorter.subrange(
                    at,
                    at + pattern.len(),
                ));
                assert(occurs_at(text, pattern, at));
            }
        }
        no_occurrence_means_nowhere(shorter, pattern);
        lines_hold_no_occurrence(shorter, pattern);
        last_line_ends_text(text);
        last_line_ends_text(shorter);
        let offset = text.len() - lines.last().len();
        assert forall|at: int| !occurs_at(lines.last(), pattern, at) by {
            if occurs_at(lines.last(), pattern, at) {
                assert(text.subrange(offset + at, offset + at + pattern.len())
                    == lines.last().subrange(at, at + pattern.len()));
                assert(occurs_at(text, pattern, offset + at));
            }
        }
        no_occurrence_means_nowhere(lines.last(), pattern);
        assert forall|k: int| 0 <= k < lines.len() implies occurrences(#[trigger] lines[k], pattern)
            == 0 by {
            if k < lines.len() - 1 {
                assert(lines[k] == before[k]);
            }
        }
    } else {
        assert(lines[0] =~= text);
    }
}

/// Occurrences add up over a concatenation that no occurrence straddles.
pub proof fn occurrences_add_up(left: Seq<char>, right: Seq<char>, pattern: Seq<char>)
    requires
        joins_cleanly(left, right, pattern),
        pattern.len() > 0,
    ensures
        occurrences(left + right, pattern) == occurrences(left, pattern) + occurrences(
            right,
            pattern,
        ),
{
    occurrences_in_left(left, right, pattern, left.len() as int);
    occurrences_in_right(left, right, pattern, right.len() as int);
}

proof fn occurrences_in_left(left: Seq<char>, right: Seq<char>, pattern: Seq<char>, below: int)
    requires
        joins_cleanly(left, right, pattern),
        pattern.len() > 0,
        below <= left.len(),
    ensures
        occurrences_below(left + right, pattern, below) == occurrences_below(left, pattern, below),
    decreases below,
{
    if below > 0 {
        occurrences_in_left(left, right, pattern, below - 1);
        let at = below - 1;
        if at + pattern.len() <= left.len() {
            assert((left + right).subrange(at, at + pattern.len()) == left.subrange(
                at,
                at + pattern.len(),
            ));
        }
    }
}

proof fn occurrences_in_right(left: Seq<char>, right: Seq<char>, pattern: Seq<char>, below: int)
    requires
        joins_cleanly(left, right, pattern),
        pattern.len() > 0,
        0 <= below <= right.len(),
    ensures
        occurrences_below(left + right, pattern, left.len() + below) == occurrences(left, pattern)
            + occurrences_below(right, pattern, below),
    decreases below,
{
    if below > 0 {
        occurrences_in_right(left, right, pattern, below - 1);
        let at = below - 1;
        if at + pattern.len() <= right.len() {
            assert((left + right).subrange(left.len() + at, left.len() + at + pattern.len())
                == right.subrange(at, at + pattern.len()));
        }
        assert(occurs_at(left + right, pattern, left.len() + at) == occurs_at(right, pattern, at));
        assert(left.len() + below - 1 == left.len() + at);
    } else {
        occurrences_in_left(left, right, pattern, left.len() as int);
    }
}

} // verus!
