//! The canonical text of a block: what a message that spans several lines
//! is reduced to before it is stored or hashed.

use vstd::prelude::*;

verus! {

/// `String::push` appends one character to the end of the string.
pub assume_specification[ std::string::String::push ](s: &mut std::string::String, c: char)
    ensures
        final(s)@ == old(s)@.push(c),
;

/// The character that ends a line.
pub const LINE_FEED: char = '\n';

/// The character that may stand before a line feed as part of the line end.
pub const CARRIAGE_RETURN: char = '\r';

/// Whether `c` is white space: a character with the Unicode property
/// `White_Space`.
pub open spec fn is_whitespace(c: char) -> bool {
    let u = c as u32;
    ||| 0x09 <= u <= 0x0d
    ||| u == 0x20
    ||| u == 0x85
    ||| u == 0xa0
    ||| u == 0x1680
    ||| 0x2000 <= u <= 0x200a
    ||| u == 0x2028
    ||| u == 0x2029
    ||| u == 0x202f
    ||| u == 0x205f
    ||| u == 0x3000
}

/// `s` without the white space it starts with.
pub open spec fn trim_start(s: Seq<char>) -> Seq<char>
    decreases s.len(),
{
    if s.len() > 0 && is_whitespace(s[0]) {
        trim_start(s.drop_first())
    } else {
        s
    }
}

/// `s` without the white space it ends with.
pub open spec fn trim_end(s: Seq<char>) -> Seq<char>
    decreases s.len(),
{
    if s.len() > 0 && is_whitespace(s.last()) {
        trim_end(s.drop_last())
    } else {
        s
    }
}

/// `s` without the white space at either end.
pub open spec fn trim(s: Seq<char>) -> Seq<char> {
    trim_end(trim_start(s))
}

/// The index of the first line feed of `s` at or after `from`, or the length
/// of `s` if there is none.
pub open spec fn first_line_feed(s: Seq<char>, from: int) -> int
    decreases s.len() - from,
{
    if 0 <= from < s.len() && s[from] != LINE_FEED {
        first_line_feed(s, from + 1)
    } else {
        from
    }
}

/// `s` without the carriage return it ends with, if it ends with one.
pub open spec fn strip_carriage_return(s: Seq<char>) -> Seq<char> {
    if s.len() > 0 && s.last() == CARRIAGE_RETURN {
        s.drop_last()
    } else {
        s
    }
}

/// The lines of `s` that are kept, in order.
///
/// A line ends at a line feed, or at the end of `s`. A carriage return just
/// before the line feed belongs to the line end. Each line loses the white
/// space it starts with, and a line that is empty after that is left out.
pub open spec fn kept_lines(s: Seq<char>) -> Seq<Seq<char>>
    decreases s.len(),
    via kept_lines_decreases
{
    let n = first_line_feed(s, 0);
    if n < s.len() {
        let line = trim_start(strip_carriage_return(s.subrange(0, n)));
        let rest = kept_lines(s.subrange(n + 1, s.len() as int));
        if line.len() == 0 {
            rest
        } else {
            seq![line] + rest
        }
    } else {
        let line = trim_start(s);
        if line.len() == 0 {
            Seq::empty()
        } else {
            seq![line]
        }
    }
}

#[via_fn]
proof fn kept_lines_decreases(s: Seq<char>) {
    lemma_first_line_feed(s, 0);
}

/// `lines` with a line feed between each two of them.
pub open spec fn join_lines(lines: Seq<Seq<char>>) -> Seq<char>
    decreases lines.len(),
{
    if lines.len() == 0 {
        Seq::empty()
    } else if lines.len() == 1 {
        lines[0]
    } else {
        lines[0] + seq![LINE_FEED] + join_lines(lines.drop_first())
    }
}

/// The canonical text of the block `s`: the block is trimmed and split into
/// lines, each line loses the white space it starts with, empty lines are
/// dropped, and the rest is joined by line feeds.
pub open spec fn normalized(s: Seq<char>) -> Seq<char> {
    join_lines(kept_lines(trim(s)))
}

/// The first line feed lies between `from` and the end, and no line feed
/// stands before it.
pub proof fn lemma_first_line_feed(s: Seq<char>, from: int)
    requires
        0 <= from <= s.len(),
    ensures
        from <= first_line_feed(s, from) <= s.len(),
        forall|i: int| from <= i < first_line_feed(s, from) ==> #[trigger] s[i] != LINE_FEED,
        first_line_feed(s, from) < s.len() ==> s[first_line_feed(s, from)] == LINE_FEED,
    decreases s.len() - from,
{
    if from < s.len() && s[from] != LINE_FEED {
        lemma_first_line_feed(s, from + 1);
    }
}

/// The first line feed is the only index with the properties of
/// [`lemma_first_line_feed`].
pub proof fn lemma_first_line_feed_unique(s: Seq<char>, from: int, at: int)
    requires
        0 <= from <= at <= s.len(),
        forall|i: int| from <= i < at ==> #[trigger] s[i] != LINE_FEED,
        at < s.len() ==> s[at] == LINE_FEED,
    ensures
        first_line_feed(s, from) == at,
    decreases at - from,
{
    if from < at {
        lemma_first_line_feed_unique(s, from + 1, at);
    }
}

/// Whether `c` is white space.
pub fn is_whitespace_char(c: char) -> (r: bool)
    ensures
        r == is_whitespace(c),
{
    let u: u32 = c as u32;
    (0x09 <= u && u <= 0x0d) || u == 0x20 || u == 0x85 || u == 0xa0 || u == 0x1680 || (0x2000 <= u
        && u <= 0x200a) || u == 0x2028 || u == 0x2029 || u == 0x202f || u == 0x205f || u == 0x3000
}

/// The characters of `text`, in order.
pub fn chars_of(text: &str) -> (chars: Vec<char>)
    ensures
        chars@ == text@,
{
    let mut chars: Vec<char> = Vec::new();
    for c in it: text.chars()
        invariant
            chars@ == it.seq().take(it.index() as int),
            it.seq() == text@,
    {
        chars.push(c);
    }
    chars
}

/// What is left of `s` by [`trim_start`] is the end of `s`: it starts with
/// a character that is no white space, and only white space stands before
/// it.
pub proof fn lemma_trim_start(s: Seq<char>)
    ensures
        trim_start(s).len() <= s.len(),
        trim_start(s) == s.subrange(s.len() - trim_start(s).len(), s.len() as int),
        trim_start(s).len() > 0 ==> !is_whitespace(trim_start(s)[0]),
        forall|i: int| 0 <= i < s.len() - trim_start(s).len() ==> is_whitespace(#[trigger] s[i]),
    decreases s.len(),
{
    if s.len() > 0 && is_whitespace(s[0]) {
        let tail = s.drop_first();
        lemma_trim_start(tail);
        let k = tail.len() - trim_start(tail).len();
        assert(tail.subrange(k, tail.len() as int) =~= s.subrange(k + 1, s.len() as int));
        assert forall|i: int| 0 <= i < s.len() - trim_start(s).len() implies is_whitespace(
            #[trigger] s[i],
        ) by {
            if i > 0 {
                assert(s[i] == tail[i - 1]);
            }
        }
    } else {
        assert(s.subrange(0, s.len() as int) =~= s);
    }
}

/// What is left of `s` by [`trim_end`] is the start of `s`, and it ends
/// with a character that is no white space.
pub proof fn lemma_trim_end(s: Seq<char>)
    ensures
        trim_end(s).len() <= s.len(),
        trim_end(s) == s.subrange(0, trim_end(s).len() as int),
        trim_end(s).len() > 0 ==> !is_whitespace(trim_end(s).last()),
    decreases s.len(),
{
    if s.len() > 0 && is_whitespace(s.last()) {
        let head = s.drop_last();
        lemma_trim_end(head);
        assert(head.subrange(0, trim_end(head).len() as int) =~= s.subrange(
            0,
            trim_end(head).len() as int,
        ));
    } else {
        assert(s.subrange(0, s.len() as int) =~= s);
    }
}

/// A line as it stands in a canonical text: not empty, not starting with
/// white space, and without a line feed.
pub open spec fn is_clean_line(line: Seq<char>) -> bool {
    &&& line.len() > 0
    &&& !is_whitespace(line[0])
    &&& forall|i: int| 0 <= i < line.len() ==> #[trigger] line[i] != LINE_FEED
}

/// Whether every line of `lines` is clean.
pub open spec fn all_clean(lines: Seq<Seq<char>>) -> bool {
    forall|k: int| 0 <= k < lines.len() ==> is_clean_line(#[trigger] lines[k])
}

/// Whether a line of `message` starts at `i`: at the start of the message,
/// or just after a line feed.
pub open spec fn line_starts_at(message: Seq<char>, i: int) -> bool {
    i == 0 || (0 < i <= message.len() && message[i - 1] == LINE_FEED)
}

/// Whether no line of `message` is empty or starts with white space: where
/// a line starts, a character stands that is no white space.
pub open spec fn has_clean_lines(message: Seq<char>) -> bool {
    message.len() > 0 ==> forall|i: int|
        0 <= i <= message.len() && #[trigger] line_starts_at(message, i) ==> i < message.len()
            && !is_whitespace(message[i])
}

/// Whether no line of `lines` ends with a carriage return.
pub open spec fn no_line_ends_with_carriage_return(lines: Seq<Seq<char>>) -> bool {
    forall|k: int|
        0 <= k < lines.len() && (#[trigger] lines[k]).len() > 0 ==> lines[k].last()
            != CARRIAGE_RETURN
}

/// The lines that are kept are clean.
pub proof fn lemma_kept_lines_clean(s: Seq<char>)
    ensures
        all_clean(kept_lines(s)),
    decreases s.len(),
{
    let n = first_line_feed(s, 0);
    lemma_first_line_feed(s, 0);
    if n < s.len() {
        let raw = strip_carriage_return(s.subrange(0, n));
        let line = trim_start(raw);
        let rest = kept_lines(s.subrange(n + 1, s.len() as int));
        lemma_trim_start(raw);
        lemma_kept_lines_clean(s.subrange(n + 1, s.len() as int));
        if line.len() > 0 {
            assert(is_clean_line(line));
            assert forall|k: int| 0 <= k < (seq![line] + rest).len() implies is_clean_line(
                #[trigger] (seq![line] + rest)[k],
            ) by {
                if k > 0 {
                    assert((seq![line] + rest)[k] == rest[k - 1]);
                }
            }
        }
    } else {
        let line = trim_start(s);
        lemma_trim_start(s);
        if line.len() > 0 {
            assert(is_clean_line(line));
        }
    }
}

/// A joined text starts as its first line does and ends as its last line
/// does.
pub proof fn lemma_join_lines_ends(lines: Seq<Seq<char>>)
    requires
        all_clean(lines),
        lines.len() > 0,
    ensures
        join_lines(lines).len() > 0,
        join_lines(lines)[0] == lines[0][0],
        join_lines(lines).last() == lines.last().last(),
    decreases lines.len(),
{
    if lines.len() > 1 {
        let tail = lines.drop_first();
        assert(forall|k: int| 0 <= k < tail.len() ==> #[trigger] tail[k] == lines[k + 1]);
        lemma_join_lines_ends(tail);
        assert(tail.last() == lines.last());
    }
}

/// No line of a text joined from clean lines is empty or starts with white
/// space.
pub proof fn lemma_join_lines_clean(lines: Seq<Seq<char>>)
    requires
        all_clean(lines),
    ensures
        has_clean_lines(join_lines(lines)),
    decreases lines.len(),
{
    if lines.len() > 1 {
        let head = lines[0];
        let tail = lines.drop_first();
        assert(forall|k: int| 0 <= k < tail.len() ==> #[trigger] tail[k] == lines[k + 1]);
        lemma_join_lines_clean(tail);
        lemma_join_lines_ends(tail);
        let m = join_lines(lines);
        let r = join_lines(tail);
        assert(m == head + seq![LINE_FEED] + r);
        assert forall|i: int| 0 <= i <= m.len() && #[trigger] line_starts_at(m, i) implies i
            < m.len() && !is_whitespace(m[i]) by {
            if i == 0 {
            } else if i <= head.len() {
                assert(m[i - 1] == head[i - 1]);
            } else {
                let j = i - head.len() - 1;
                if j > 0 {
                    assert(m[i - 1] == r[j - 1]);
                }
                assert(line_starts_at(r, j));
                assert(m[i] == r[j]);
            }
        }
    }
}

/// Splitting a text joined from clean lines gives the lines back, unless
/// one of them ends with a carriage return.
pub proof fn lemma_kept_lines_of_joined(lines: Seq<Seq<char>>)
    requires
        all_clean(lines),
        no_line_ends_with_carriage_return(lines),
    ensures
        kept_lines(join_lines(lines)) == lines,
    decreases lines.len(),
{
    if lines.len() == 0 {
        assert(kept_lines(join_lines(lines)) =~= lines);
    } else if lines.len() == 1 {
        let head = lines[0];
        lemma_first_line_feed_unique(head, 0, head.len() as int);
        assert(kept_lines(head) =~= lines);
    } else {
        let head = lines[0];
        let tail = lines.drop_first();
        assert(forall|k: int| 0 <= k < tail.len() ==> #[trigger] tail[k] == lines[k + 1]);
        lemma_kept_lines_of_joined(tail);
        let m = join_lines(lines);
        let n = head.len() as int;
        assert(m == head + seq![LINE_FEED] + join_lines(tail));
        assert forall|i: int| 0 <= i < n implies #[trigger] m[i] != LINE_FEED by {
            assert(m[i] == head[i]);
        }
        lemma_first_line_feed_unique(m, 0, n);
        assert(m.subrange(0, n) =~= head);
        assert(m.subrange(n + 1, m.len() as int) =~= join_lines(tail));
        assert(kept_lines(m) =~= lines);
    }
}

/// Where a text ends with a character that is no white space, so does the
/// last of its kept lines.
pub proof fn lemma_kept_lines_last(s: Seq<char>)
    requires
        s.len() > 0,
        !is_whitespace(s.last()),
    ensures
        kept_lines(s).len() > 0,
        kept_lines(s).last().len() > 0,
        kept_lines(s).last().last() == s.last(),
    decreases s.len(),
{
    let n = first_line_feed(s, 0);
    lemma_first_line_feed(s, 0);
    if n < s.len() {
        let after = s.subrange(n + 1, s.len() as int);
        assert(n + 1 < s.len());
        assert(after.last() == s.last());
        lemma_kept_lines_last(after);
    } else {
        lemma_trim_start(s);
    }
}

/// A canonical text has no empty line and no line that starts with white
/// space.
pub proof fn lemma_normalized_has_clean_lines(s: Seq<char>)
    ensures
        has_clean_lines(normalized(s)),
{
    lemma_kept_lines_clean(trim(s));
    lemma_join_lines_clean(kept_lines(trim(s)));
}

/// Making a canonical text canonical again changes nothing.
///
/// This holds unless a kept line ends with a carriage return, as the first
/// line of `"a\r\r\nb"` does: joined with a line feed, that carriage
/// return becomes part of a line end.
pub proof fn lemma_normalized_idempotent(s: Seq<char>)
    requires
        no_line_ends_with_carriage_return(kept_lines(trim(s))),
    ensures
        normalized(normalized(s)) == normalized(s),
{
    let t = trim(s);
    let lines = kept_lines(t);
    let m = join_lines(lines);
    lemma_kept_lines_clean(t);
    lemma_kept_lines_of_joined(lines);
    if lines.len() > 0 {
        lemma_trim_start(s);
        lemma_trim_end(trim_start(s));
        assert(t.len() > 0) by {
            if t.len() == 0 {
                assert(kept_lines(t) =~= Seq::<Seq<char>>::empty());
            }
        }
        lemma_kept_lines_last(t);
        lemma_join_lines_ends(lines);
        assert(trim_start(m) == m);
        assert(trim_end(m) == m);
    } else {
        assert(trim(m) == m);
    }
}

/// Joining after one more line is added at the end.
pub proof fn lemma_join_lines_push(lines: Seq<Seq<char>>, line: Seq<char>)
    ensures
        join_lines(lines.push(line)) == if lines.len() == 0 {
            line
        } else {
            join_lines(lines) + seq![LINE_FEED] + line
        },
    decreases lines.len(),
{
    if lines.len() == 0 {
        assert(lines.push(line)[0] == line);
    } else {
        let tail = lines.drop_first();
        assert(lines.push(line).drop_first() =~= tail.push(line));
        lemma_join_lines_push(tail, line);
        assert(join_lines(lines.push(line)) =~= join_lines(lines) + seq![LINE_FEED] + line);
    }
}

/// The canonical text of the block `text`.
pub fn normalize(text: &str) -> (message: String)
    ensures
        message@ == normalized(text@),
{
    let chars = chars_of(text);
    let n: usize = chars.len();
    let ghost c = chars@;

    let mut lo: usize = 0;
    proof {
        assert(c.subrange(0, n as int) =~= c);
    }
    while lo < n && is_whitespace_char(chars[lo])
        invariant
            lo <= n,
            n == chars.len(),
            c == chars@,
            trim_start(c) == trim_start(c.subrange(lo as int, n as int)),
        decreases n - lo,
    {
        proof {
            assert(c.subrange(lo as int, n as int).drop_first() =~= c.subrange(
                lo + 1,
                n as int,
            ));
        }
        lo += 1;
    }

    let mut hi: usize = n;
    while hi > lo && is_whitespace_char(chars[hi - 1])
        invariant
            lo <= hi <= n,
            n == chars.len(),
            c == chars@,
            trim_end(c.subrange(lo as int, n as int)) == trim_end(
                c.subrange(lo as int, hi as int),
            ),
        decreases hi,
    {
        proof {
            assert(c.subrange(lo as int, hi as int).drop_last() =~= c.subrange(
                lo as int,
                hi - 1,
            ));
        }
        hi -= 1;
    }

    let ghost t = c.subrange(lo as int, hi as int);
    assert(t == trim(c));

    let mut message = String::new();
    let ghost mut done: Seq<Seq<char>> = Seq::empty();
    let mut first = true;
    let mut p: usize = lo;
    let mut more = true;
    proof {
        assert(done + kept_lines(t) =~= kept_lines(t));
    }
    while more
        invariant
            lo <= p <= hi <= n,
            n == chars.len(),
            c == chars@,
            t == c.subrange(lo as int, hi as int),
            more ==> kept_lines(t) == done + kept_lines(c.subrange(p as int, hi as int)),
            !more ==> kept_lines(t) == done,
            message@ == join_lines(done),
            first == (done.len() == 0),
        decreases
                hi - p + (if more {
                    1int
                } else {
                    0int
                }),
    {
        let ghost rest = c.subrange(p as int, hi as int);
        let mut b: usize = p;
        while b < hi && chars[b] != LINE_FEED
            invariant
                p <= b <= hi <= n,
                n == chars.len(),
                c == chars@,
                forall|i: int| p <= i < b ==> #[trigger] c[i] != LINE_FEED,
            decreases hi - b,
        {
            b += 1;
        }
        let terminated = b < hi;
        proof {
            assert forall|i: int| 0 <= i < b - p implies #[trigger] rest[i] != LINE_FEED by {
                assert(rest[i] == c[p + i]);
            }
            lemma_first_line_feed_unique(rest, 0, b - p);
        }

        let mut e: usize = b;
        if terminated && e > p && chars[e - 1] == CARRIAGE_RETURN {
            e -= 1;
        }
        let ghost raw = c.subrange(p as int, e as int);
        proof {
            if terminated {
                assert(rest.subrange(0, b - p) =~= c.subrange(p as int, b as int));
                if e < b {
                    assert(c.subrange(p as int, b as int).drop_last() =~= raw);
                }
                assert(raw == strip_carriage_return(rest.subrange(0, b - p)));
            } else {
                assert(raw == rest);
            }
        }

        let mut a: usize = p;
        while a < e && is_whitespace_char(chars[a])
            invariant
                p <= a <= e <= n,
                n == chars.len(),
                c == chars@,
                trim_start(c.subrange(p as int, e as int)) == trim_start(
                    c.subrange(a as int, e as int),
                ),
            decreases e - a,
        {
            proof {
                assert(c.subrange(a as int, e as int).drop_first() =~= c.subrange(
                    a + 1,
                    e as int,
                ));
            }
            a += 1;
        }
        let ghost line = c.subrange(a as int, e as int);
        assert(line == trim_start(raw));

        if a < e {
            if !first {
                message.push(LINE_FEED);
            }
            let ghost before = message@;
            let mut i: usize = a;
            while i < e
                invariant
                    a <= i <= e <= n,
                    n == chars.len(),
                    c == chars@,
                    message@ == before + c.subrange(a as int, i as int),
                decreases e - i,
            {
                message.push(chars[i]);
                proof {
                    assert(c.subrange(a as int, i as int).push(c[i as int]) =~= c.subrange(
                        a as int,
                        i + 1,
                    ));
                }
                i += 1;
            }
            first = false;
            proof {
                lemma_join_lines_push(done, line);
                if terminated {
                    assert(rest.subrange(b - p + 1, rest.len() as int) =~= c.subrange(
                        b + 1,
                        hi as int,
                    ));
                    assert(done.push(line) + kept_lines(c.subrange(b + 1, hi as int)) =~= done + (
                    seq![line] + kept_lines(c.subrange(b + 1, hi as int))));
                } else {
                    assert(done.push(line) =~= done + seq![line]);
                }
                done = done.push(line);
            }
        } else {
            proof {
                if terminated {
                    assert(rest.subrange(b - p + 1, rest.len() as int) =~= c.subrange(
                        b + 1,
                        hi as int,
                    ));
                } else {
                    assert(done + Seq::<Seq<char>>::empty() =~= done);
                }
            }
        }
        if terminated {
            p = b + 1;
        } else {
            more = false;
        }
    }
    message
}

} // verus!
