//! Splits a text into its lines.
use vstd::prelude::*;
use vstd::string::StrSliceExecFns;

verus! {

/// The lines of `s`: the pieces between its line feeds. A text without a line
/// feed is one line, and so is the empty text.
pub open spec fn lines_of(s: Seq<char>) -> Seq<Seq<char>>
    decreases s.len(),
{
    if s.len() == 0 {
        seq![Seq::empty()]
    } else {
        let before = lines_of(s.drop_last());
        if s.last() == '\n' {
            before.push(Seq::empty())
        } else {
            before.drop_last().push(before.last().push(s.last()))
        }
    }
}

/// The texts that the slices of `lines` hold.
pub open spec fn line_views(lines: Seq<&str>) -> Seq<Seq<char>> {
    Seq::new(lines.len(), |i: int| lines[i]@)
}

/// A text has one line more than it has line feeds, so at least one.
pub proof fn lemma_lines_nonempty(s: Seq<char>)
    ensures
        lines_of(s).len() >= 1,
        lines_of(s).len() <= s.len() + 1,
    decreases s.len(),
{
    if s.len() > 0 {
        lemma_lines_nonempty(s.drop_last());
    }
}

/// No line holds a line feed.
pub proof fn lemma_lines_hold_no_line_feed(s: Seq<char>, i: int, j: int)
    requires
        0 <= i < lines_of(s).len(),
        0 <= j < lines_of(s)[i].len(),
    ensures
        lines_of(s)[i][j] != '\n',
    decreases s.len(),
{
    if s.len() > 0 {
        let before = lines_of(s.drop_last());
        lemma_lines_nonempty(s.drop_last());
        if s.last() == '\n' {
            if i < before.len() {
                lemma_lines_hold_no_line_feed(s.drop_last(), i, j);
            }
        } else {
            if i < before.len() - 1 {
                lemma_lines_hold_no_line_feed(s.drop_last(), i, j);
            } else if j < before.last().len() {
                lemma_lines_hold_no_line_feed(s.drop_last(), i, j);
            }
        }
    }
}

/// The lines of `lines`, written one after the other with a line feed between
/// each two.
pub open spec fn joined(lines: Seq<Seq<char>>) -> Seq<char>
    decreases lines.len(),
{
    if lines.len() == 0 {
        Seq::empty()
    } else if lines.len() == 1 {
        lines[0]
    } else {
        joined(lines.drop_last()).push('\n') + lines.last()
    }
}

/// Joining the lines of a text gives the text back.
pub proof fn lemma_joined_lines(s: Seq<char>)
    ensures
        joined(lines_of(s)) == s,
    decreases s.len(),
{
    if s.len() == 0 {
        assert(joined(lines_of(s)) =~= s);
    } else {
        let before = lines_of(s.drop_last());
        lemma_lines_nonempty(s.drop_last());
        lemma_joined_lines(s.drop_last());
        if s.last() == '\n' {
            let now = before.push(Seq::empty());
            assert(now.drop_last() =~= before);
            assert(joined(now) =~= joined(before).push('\n'));
            assert(s.drop_last().push('\n') =~= s);
        } else {
            let now = before.drop_last().push(before.last().push(s.last()));
            if before.len() == 1 {
                assert(joined(now) =~= before[0].push(s.last()));
                assert(s.drop_last().push(s.last()) =~= s);
            } else {
                assert(now.drop_last() =~= before.drop_last());
                assert(joined(now) =~= (joined(before.drop_last()).push('\n')
                    + before.last()).push(s.last()));
                assert(s.drop_last().push(s.last()) =~= s);
            }
        }
    }
}

/// Splits `text` at its line feeds.
pub fn split_lines<'a>(text: &'a str) -> (lines: Vec<&'a str>)
    ensures
        line_views(lines@) == lines_of(text@),
{
    let len = text.unicode_len();
    let mut lines: Vec<&'a str> = Vec::new();
    let mut start: usize = 0;
    let mut at: usize = 0;
    proof {
        assert(text@.take(0) =~= Seq::<char>::empty());
        assert(line_views(lines@).push(text@.subrange(0, 0)) =~= lines_of(text@.take(0)));
    }
    while at < len
        invariant
            len == text@.len(),
            start <= at <= len,
            line_views(lines@).push(text@.subrange(start as int, at as int)) == lines_of(
                text@.take(at as int),
            ),
        decreases len - at,
    {
        let c = text.get_char(at);
        proof {
            assert(text@.take(at + 1).drop_last() =~= text@.take(at as int));
            assert(text@.take(at + 1).last() == c);
        }
        let ghost before = line_views(lines@);
        let ghost current = text@.subrange(start as int, at as int);
        if c == '\n' {
            lines.push(text.substring_char(start, at));
            start = at + 1;
            proof {
                assert(line_views(lines@) =~= before.push(current));
                assert(text@.subrange(start as int, at + 1) =~= Seq::<char>::empty());
            }
        } else {
            proof {
                assert(text@.subrange(start as int, at + 1) =~= current.push(c));
                assert(before.push(current).drop_last() =~= before);
            }
        }
        at = at + 1;
    }
    lines.push(text.substring_char(start, len));
    proof {
        assert(text@.take(len as int) =~= text@);
        assert(line_views(lines@) =~= lines_of(text@));
    }
    lines
}

} // verus!
