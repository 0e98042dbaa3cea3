//! From the tasks of the store to the text of a buffer.

use vstd::prelude::*;
use vstd::string::StringExecFns;
use crate::normalize::{
    chars_of, first_line_feed, lemma_first_line_feed, lemma_first_line_feed_unique,
    strip_carriage_return, CARRIAGE_RETURN, LINE_FEED,
};
use crate::record::{Todo, TodoView};

verus! {

/// The lines of `s`.
///
/// A line ends at a line feed, or at the end of `s`; a carriage return just
/// before the line feed belongs to the line end. A text that ends with a
/// line end has no empty line after it.
pub open spec fn lines_of(s: Seq<char>) -> Seq<Seq<char>>
    decreases s.len(),
    via lines_of_decreases
{
    if s.len() == 0 {
        Seq::empty()
    } else {
        let n = first_line_feed(s, 0);
        if n < s.len() {
            seq![strip_carriage_return(s.subrange(0, n))] + lines_of(
                s.subrange(n + 1, s.len() as int),
            )
        } else {
            seq![s]
        }
    }
}

#[via_fn]
proof fn lines_of_decreases(s: Seq<char>) {
    lemma_first_line_feed(s, 0);
}

/// `lines`, each after two spaces and before a line feed.
pub open spec fn indented(lines: Seq<Seq<char>>) -> Seq<char>
    decreases lines.len(),
{
    if lines.len() == 0 {
        Seq::empty()
    } else {
        indented(lines.drop_last()) + "  "@ + lines.last() + "\n"@
    }
}

/// A task as it is written into a buffer: the keyword, then the message on
/// the same line, or, where it has more than one line, its lines between
/// braces; then an empty line.
pub open spec fn rendered(message: Seq<char>) -> Seq<char> {
    if lines_of(message).len() > 1 {
        "todo "@ + "{\n"@ + indented(lines_of(message)) + "}\n"@ + "\n"@
    } else {
        "todo "@ + message + "\n"@ + "\n"@
    }
}

/// The tasks of `todos` as they are written into a buffer, one after the
/// other.
pub open spec fn rendered_all(todos: Seq<TodoView>) -> Seq<char>
    decreases todos.len(),
{
    if todos.len() == 0 {
        Seq::empty()
    } else {
        rendered_all(todos.drop_last()) + rendered(todos.last().message)
    }
}

/// The lines of `chars`.
pub fn lines(chars: &Vec<char>) -> (lines: Vec<Vec<char>>)
    ensures
        lines.deep_view() == lines_of(chars@),
{
    let ghost c = chars@;
    let n: usize = chars.len();
    let mut lines: Vec<Vec<char>> = Vec::new();
    let mut p: usize = 0;
    proof {
        assert(c.subrange(0, n as int) =~= c);
        assert(lines.deep_view() =~= Seq::<Seq<char>>::empty());
        assert(lines.deep_view() + lines_of(c) =~= lines_of(c));
    }
    while p < n
        invariant
            p <= n,
            n == chars.len(),
            c == chars@,
            lines_of(c) == lines.deep_view() + lines_of(c.subrange(p as int, n as int)),
        decreases n - p,
    {
        let ghost rest = c.subrange(p as int, n as int);
        let ghost done = lines.deep_view();
        let mut b: usize = p;
        while b < n && chars[b] != LINE_FEED
            invariant
                p <= b <= n,
                n == chars.len(),
                c == chars@,
                forall|i: int| p <= i < b ==> #[trigger] c[i] != LINE_FEED,
            decreases n - b,
        {
            b += 1;
        }
        proof {
            assert forall|i: int| 0 <= i < b - p implies #[trigger] rest[i] != LINE_FEED by {
                assert(rest[i] == c[p + i]);
            }
            lemma_first_line_feed_unique(rest, 0, b - p);
        }
        let mut e: usize = b;
        if b < n && e > p && chars[e - 1] == CARRIAGE_RETURN {
            e -= 1;
        }
        let mut line: Vec<char> = Vec::new();
        let mut i: usize = p;
        proof {
            assert(line@ =~= c.subrange(p as int, p as int));
        }
        while i < e
            invariant
                p <= i <= e <= n,
                n == chars.len(),
                c == chars@,
                line@ == c.subrange(p as int, i as int),
            decreases e - i,
        {
            line.push(chars[i]);
            proof {
                assert(c.subrange(p as int, i as int).push(c[i as int]) =~= c.subrange(
                    p as int,
                    i + 1,
                ));
            }
            i += 1;
        }
        let ghost text = line@;
        proof {
            assert(line.deep_view() =~= line@);
        }
        lines.push(line);
        proof {
            assert(lines.deep_view() =~= done.push(text));
            if b < n {
                assert(rest.subrange(0, b - p) =~= c.subrange(p as int, b as int));
                if e < b {
                    assert(c.subrange(p as int, b as int).drop_last() =~= text);
                }
                assert(text == strip_carriage_return(rest.subrange(0, b - p)));
                assert(rest.subrange(b - p + 1, rest.len() as int) =~= c.subrange(
                    b + 1,
                    n as int,
                ));
                assert(done.push(text) + lines_of(c.subrange(b + 1, n as int)) =~= done + (
                seq![text] + lines_of(c.subrange(b + 1, n as int))));
            } else {
                assert(text == rest);
                assert(c.subrange(n as int, n as int) =~= Seq::<char>::empty());
                assert(done.push(text) + lines_of(c.subrange(n as int, n as int)) =~= done
                    + seq![text]);
            }
        }
        if b < n {
            p = b + 1;
        } else {
            p = n;
        }
    }
    proof {
        assert(c.subrange(n as int, n as int) =~= Seq::<char>::empty());
        assert(lines.deep_view() + Seq::<Seq<char>>::empty() =~= lines.deep_view());
    }
    lines
}

/// Writes one task at the end of `text`.
pub fn render_todo(text: &mut String, message: &str)
    ensures
        final(text)@ == old(text)@ + rendered(message@),
{
    let chars = chars_of(message);
    let message_lines = lines(&chars);
    let ghost start = text@;

    text.append("todo ");
    if message_lines.len() > 1 {
        text.append("{\n");
        let ghost opened = text@;
        let ghost all = message_lines.deep_view();
        let mut i: usize = 0;
        proof {
            assert(all.take(0) =~= Seq::<Seq<char>>::empty());
            assert(text@ =~= opened + indented(all.take(0)));
        }
        while i < message_lines.len()
            invariant
                i <= message_lines.len(),
                all == message_lines.deep_view(),
                text@ == opened + indented(all.take(i as int)),
            decreases message_lines.len() - i,
        {
            let ghost before = text@;
            text.append("  ");
            let line = &message_lines[i];
            proof {
                assert(line.deep_view() =~= line@);
            }
            let mut k: usize = 0;
            let ghost spaced = text@;
            proof {
                assert(text@ =~= spaced + line@.take(0));
            }
            while k < line.len()
                invariant
                    k <= line.len(),
                    text@ == spaced + line@.take(k as int),
                decreases line.len() - k,
            {
                text.push(line[k]);
                proof {
                    assert(line@.take(k + 1) =~= line@.take(k as int).push(line@[k as int]));
                    assert(text@ =~= spaced + line@.take(k + 1));
                }
                k += 1;
            }
            text.append("\n");
            proof {
                assert(line@.take(line.len() as int) =~= line@);
                assert(all.take(i + 1).drop_last() =~= all.take(i as int));
                assert(all.take(i + 1).last() == line@);
                assert(text@ =~= opened + indented(all.take(i + 1)));
            }
            i += 1;
        }
        proof {
            assert(all.take(message_lines.len() as int) =~= all);
        }
        text.append("}\n");
        text.append("\n");
        proof {
            assert(text@ =~= start + rendered(message@));
        }
    } else {
        text.append(message);
        text.append("\n");
        text.append("\n");
        proof {
            assert(text@ =~= start + rendered(message@));
        }
    }
}

/// The text of a buffer that holds the tasks of `todos`.
pub fn render_buffer(todos: &Vec<Todo>) -> (text: String)
    ensures
        text@ == rendered_all(todos.deep_view()),
{
    let mut text = String::new();
    let ghost all = todos.deep_view();
    let mut i: usize = 0;
    proof {
        assert(all.take(0) =~= Seq::<TodoView>::empty());
    }
    while i < todos.len()
        invariant
            i <= todos.len(),
            all == todos.deep_view(),
            text@ == rendered_all(all.take(i as int)),
        decreases todos.len() - i,
    {
        render_todo(&mut text, todos[i].message.as_str());
        proof {
            assert(all.take(i + 1).drop_last() =~= all.take(i as int));
            assert(all.take(i + 1).last() == todos[i as int]@);
        }
        i += 1;
    }
    proof {
        assert(all.take(todos.len() as int) =~= all);
    }
    text
}

} // verus!
