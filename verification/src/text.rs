//! Text as sequences of characters: trimming white space, splitting at a separator
//! and joining again, and cutting a text into its lines.

use vstd::prelude::*;
use vstd::string::StrSliceExecFns;

verus! {

/// Appends one character to a string (`String::push`): afterwards the string holds
/// what it held before, followed by `c`.
pub assume_specification[ String::push ](s: &mut String, c: char)
    ensures
        final(s)@ == old(s)@.push(c),
;

/// Whether `c` is white space: a character with the Unicode property `White_Space`.
pub open spec fn is_space(c: char) -> bool {
    ||| ('\u{9}' <= c && c <= '\u{d}')
    ||| c == ' '
    ||| c == '\u{85}'
    ||| c == '\u{a0}'
    ||| c == '\u{1680}'
    ||| ('\u{2000}' <= c && c <= '\u{200a}')
    ||| c == '\u{2028}'
    ||| c == '\u{2029}'
    ||| c == '\u{202f}'
    ||| c == '\u{205f}'
    ||| c == '\u{3000}'
}

/// `s` without the white space it starts with.
pub open spec fn trim_start(s: Seq<char>) -> Seq<char>
    decreases s.len(),
{
    if s.len() > 0 && is_space(s[0]) {
        trim_start(s.drop_first())
    } else {
        s
    }
}

/// `s` without the white space it ends with.
pub open spec fn trim_end(s: Seq<char>) -> Seq<char>
    decreases s.len(),
{
    if s.len() > 0 && is_space(s.last()) {
        trim_end(s.drop_last())
    } else {
        s
    }
}

/// `s` without the white space at either end.
pub open spec fn trimmed(s: Seq<char>) -> Seq<char> {
    trim_end(trim_start(s))
}

/// Where the first `a` characters of `s` are white space and the next one, if there
/// is one, is not, `s` without its leading white space is `s` from `a` on.
proof fn lemma_trim_start(s: Seq<char>, a: int)
    requires
        0 <= a <= s.len(),
        forall|j: int| 0 <= j < a ==> is_space(#[trigger] s[j]),
        a < s.len() ==> !is_space(s[a]),
    ensures
        trim_start(s) == s.skip(a),
    decreases a,
{
    if a == 0 {
        assert(s.skip(0) =~= s);
    } else {
        assert(is_space(s[0]));
        let rest = s.drop_first();
        assert forall|j: int| 0 <= j < a - 1 implies is_space(#[trigger] rest[j]) by {
            assert(rest[j] == s[j + 1]);
        }
        lemma_trim_start(rest, a - 1);
        assert(rest.skip(a - 1) =~= s.skip(a));
    }
}

/// Where the characters of `s` from `b` on are white space and the one before, if
/// there is one, is not, `s` without its trailing white space is the first `b`
/// characters of `s`.
proof fn lemma_trim_end(s: Seq<char>, b: int)
    requires
        0 <= b <= s.len(),
        forall|j: int| b <= j < s.len() ==> is_space(#[trigger] s[j]),
        0 < b ==> !is_space(s[b - 1]),
    ensures
        trim_end(s) == s.take(b),
    decreases s.len() - b,
{
    if b == s.len() {
        assert(s.take(b) =~= s);
    } else {
        assert(is_space(s[s.len() - 1]));
        let rest = s.drop_last();
        assert forall|j: int| b <= j < rest.len() implies is_space(#[trigger] rest[j]) by {
            assert(rest[j] == s[j]);
        }
        lemma_trim_end(rest, b);
        assert(rest.take(b) =~= s.take(b));
    }
}

/// Whether `c` is white space.
pub fn is_whitespace(c: char) -> (b: bool)
    ensures
        b == is_space(c),
{
    ('\u{9}' <= c && c <= '\u{d}') || c == ' ' || c == '\u{85}' || c == '\u{a0}' || c
        == '\u{1680}' || ('\u{2000}' <= c && c <= '\u{200a}') || c == '\u{2028}' || c
        == '\u{2029}' || c == '\u{202f}' || c == '\u{205f}' || c == '\u{3000}'
}

/// The part of `s` between its leading and its trailing white space.
pub fn trim(s: &str) -> (r: &str)
    ensures
        r@ == trimmed(s@),
{
    let n = s.unicode_len();
    let mut seen = false;
    let mut start: usize = 0;
    let mut end: usize = 0;
    let mut i: usize = 0;
    for c in it: s.chars()
        invariant
            it.seq() == s@,
            n == s@.len(),
            i == it.index(),
            i <= n,
            !seen ==> start == 0 && end == 0,
            !seen ==> forall|j: int| 0 <= j < i ==> is_space(#[trigger] s@[j]),
            seen ==> start < end <= i,
            seen ==> forall|j: int| 0 <= j < start ==> is_space(#[trigger] s@[j]),
            seen ==> !is_space(s@[start as int]) && !is_space(s@[end - 1]),
            seen ==> forall|j: int| end <= j < i ==> is_space(#[trigger] s@[j]),
    {
        if !is_whitespace(c) {
            if !seen {
                seen = true;
                start = i;
            }
            end = i + 1;
        }
        i = i + 1;
    }
    proof {
        if seen {
            lemma_trim_start(s@, start as int);
            let t = s@.skip(start as int);
            assert forall|j: int| end - start <= j < t.len() implies is_space(
                #[trigger] t[j],
            ) by {
                assert(t[j] == s@[j + start]);
            }
            assert(t[end - start - 1] == s@[end - 1]);
            lemma_trim_end(t, end - start);
            assert(t.take(end - start) =~= s@.subrange(start as int, end as int));
        } else {
            lemma_trim_start(s@, n as int);
            assert(s@.skip(n as int) =~= Seq::<char>::empty());
            assert(s@.subrange(0, 0) =~= Seq::<char>::empty());
        }
    }
    s.substring_char(start, end)
}

/// Whether `c` occurs nowhere in `s`.
pub open spec fn free_of(s: Seq<char>, c: char) -> bool {
    forall|i: int| 0 <= i < s.len() ==> #[trigger] s[i] != c
}

/// The pieces into which the occurrences of `sep` cut `s`, in order. There is one
/// piece more than there are occurrences, so at least one, and a piece is empty
/// where two separators meet or `s` starts or ends with one.
pub open spec fn split_on(s: Seq<char>, sep: char) -> Seq<Seq<char>>
    decreases s.len(),
{
    if s.len() == 0 {
        seq![Seq::<char>::empty()]
    } else {
        let before = split_on(s.drop_last(), sep);
        if s.last() == sep {
            before.push(Seq::<char>::empty())
        } else {
            before.drop_last().push(before.last().push(s.last()))
        }
    }
}

/// The pieces written one after another with `sep` between each two.
pub open spec fn join(pieces: Seq<Seq<char>>, sep: char) -> Seq<char>
    decreases pieces.len(),
{
    if pieces.len() == 0 {
        Seq::<char>::empty()
    } else if pieces.len() == 1 {
        pieces[0]
    } else {
        join(pieces.drop_last(), sep).push(sep) + pieces.last()
    }
}

/// Splitting gives at least one piece, and no piece holds the separator.
pub proof fn lemma_split_pieces(s: Seq<char>, sep: char)
    ensures
        split_on(s, sep).len() >= 1,
        forall|k: int|
            0 <= k < split_on(s, sep).len() ==> free_of(#[trigger] split_on(s, sep)[k], sep),
    decreases s.len(),
{
    if s.len() > 0 {
        lemma_split_pieces(s.drop_last(), sep);
    }
}

/// Joining the pieces of a split with the same separator gives the text back.
pub proof fn lemma_join_split(s: Seq<char>, sep: char)
    ensures
        join(split_on(s, sep), sep) == s,
    decreases s.len(),
{
    if s.len() > 0 {
        let head = s.drop_last();
        let before = split_on(head, sep);
        lemma_split_pieces(head, sep);
        lemma_join_split(head, sep);
        let pieces = split_on(s, sep);
        if s.last() == sep {
            assert(pieces.drop_last() =~= before);
            assert(join(pieces, sep) =~= s);
        } else {
            assert(pieces.drop_last() =~= before.drop_last());
            assert(pieces.last() == before.last().push(s.last()));
            assert(head.push(s.last()) =~= s);
            if before.len() > 1 {
                assert(join(before, sep) == join(before.drop_last(), sep).push(sep)
                    + before.last());
            }
            assert(join(pieces, sep) =~= s);
        }
    }
}

/// A text without the separator is its own single piece.
pub proof fn lemma_split_free(s: Seq<char>, sep: char)
    requires
        free_of(s, sep),
    ensures
        split_on(s, sep) == seq![s],
    decreases s.len(),
{
    if s.len() == 0 {
        assert(s =~= Seq::<char>::empty());
    } else {
        lemma_split_free(s.drop_last(), sep);
        assert(s[s.len() - 1] != sep);
        assert(s.drop_last().push(s.last()) =~= s);
        assert(split_on(s, sep) =~= seq![s]);
    }
}

/// A separator followed by a text without one adds that text as one more piece.
pub proof fn lemma_split_append(a: Seq<char>, b: Seq<char>, sep: char)
    requires
        free_of(b, sep),
    ensures
        split_on(a.push(sep) + b, sep) == split_on(a, sep).push(b),
    decreases b.len(),
{
    let whole = a.push(sep) + b;
    if b.len() == 0 {
        assert(whole.drop_last() =~= a);
        assert(b =~= Seq::<char>::empty());
    } else {
        lemma_split_append(a, b.drop_last(), sep);
        assert(whole.drop_last() =~= a.push(sep) + b.drop_last());
        assert(whole.last() == b.last());
        assert(b[b.len() - 1] != sep);
        assert(b.drop_last().push(b.last()) =~= b);
        assert(split_on(a, sep).push(b.drop_last()).drop_last() =~= split_on(a, sep));
        assert(split_on(whole, sep) =~= split_on(a, sep).push(b));
    }
}

/// A text without the separator, put behind another text, lengthens that text's
/// last piece and adds none.
pub proof fn lemma_split_concat(a: Seq<char>, b: Seq<char>, sep: char)
    requires
        free_of(b, sep),
    ensures
        split_on(a, sep).len() >= 1,
        split_on(a + b, sep) == split_on(a, sep).drop_last().push(split_on(a, sep).last() + b),
    decreases b.len(),
{
    lemma_split_pieces(a, sep);
    let pieces = split_on(a, sep);
    if b.len() == 0 {
        assert(a + b =~= a);
        assert(pieces.last() + b =~= pieces.last());
        assert(pieces.drop_last().push(pieces.last()) =~= pieces);
    } else {
        let head = b.drop_last();
        lemma_split_concat(a, head, sep);
        let whole = a + b;
        assert(whole.drop_last() =~= a + head);
        assert(whole.last() == b.last());
        assert(b[b.len() - 1] != sep);
        let before = split_on(a + head, sep);
        assert(before.drop_last() =~= pieces.drop_last());
        assert(before.last().push(b.last()) =~= pieces.last() + b);
    }
}

/// What is joined from pieces without the character `c`, with a separator other
/// than `c`, is without `c`.
pub proof fn lemma_join_free(pieces: Seq<Seq<char>>, sep: char, c: char)
    requires
        sep != c,
        forall|k: int| 0 <= k < pieces.len() ==> free_of(#[trigger] pieces[k], c),
    ensures
        free_of(join(pieces, sep), c),
    decreases pieces.len(),
{
    if pieces.len() == 1 {
        assert(free_of(pieces[0], c));
    } else if pieces.len() > 1 {
        let head = pieces.drop_last();
        assert forall|k: int| 0 <= k < head.len() implies free_of(#[trigger] head[k], c) by {
            assert(head[k] == pieces[k]);
        }
        lemma_join_free(head, sep, c);
        assert(free_of(pieces[pieces.len() - 1], c));
    }
}

/// Splitting what was joined gives the pieces back, where there is at least one
/// piece and none holds the separator.
pub proof fn lemma_split_join(pieces: Seq<Seq<char>>, sep: char)
    requires
        pieces.len() >= 1,
        forall|k: int| 0 <= k < pieces.len() ==> free_of(#[trigger] pieces[k], sep),
    ensures
        split_on(join(pieces, sep), sep) == pieces,
    decreases pieces.len(),
{
    if pieces.len() == 1 {
        lemma_split_free(pieces[0], sep);
        assert(pieces =~= seq![pieces[0]]);
    } else {
        let head = pieces.drop_last();
        assert forall|k: int| 0 <= k < head.len() implies free_of(#[trigger] head[k], sep) by {
            assert(head[k] == pieces[k]);
        }
        lemma_split_join(head, sep);
        lemma_split_append(join(head, sep), pieces.last(), sep);
        assert(head.push(pieces.last()) =~= pieces);
    }
}

/// Cuts `s` at every occurrence of `sep` and returns the pieces in order, as
/// `str::split` hands them out.
pub fn split(s: &str, sep: char) -> (pieces: Vec<String>)
    ensures
        pieces.deep_view() == split_on(s@, sep),
{
    let mut pieces: Vec<String> = Vec::new();
    let mut current = String::new();
    for c in it: s.chars()
        invariant
            it.seq() == s@,
            pieces.deep_view().push(current@) == split_on(s@.take(it.index() as int), sep),
    {
        let ghost done = pieces.deep_view();
        let ghost piece = current@;
        let ghost before = s@.take(it.index() as int);
        let ghost after = s@.take(it.index() as int + 1);
        proof {
            assert(after.drop_last() =~= before);
            assert(after.last() == c);
            assert(done.push(piece).drop_last() =~= done);
        }
        if c == sep {
            pieces.push(current);
            current = String::new();
            assert(pieces.deep_view() =~= done.push(piece));
        } else {
            current.push(c);
        }
        assert(pieces.deep_view().push(current@) =~= split_on(after, sep));
    }
    proof {
        assert(s@.take(s@.len() as int) =~= s@);
    }
    let ghost done = pieces.deep_view();
    pieces.push(current);
    assert(pieces.deep_view() =~= done.push(current@));
    pieces
}

/// `line` without the carriage return it ends with, if it ends with one.
pub open spec fn strip_cr(line: Seq<char>) -> Seq<char> {
    if line.len() > 0 && line.last() == '\r' {
        line.drop_last()
    } else {
        line
    }
}

/// Each of `pieces` without the carriage return it ends with.
pub open spec fn strip_each(pieces: Seq<Seq<char>>) -> Seq<Seq<char>> {
    Seq::new(pieces.len(), |k: int| strip_cr(pieces[k]))
}

/// The lines of `text`. A line ends at a line feed; the line feed and one carriage
/// return before it do not belong to the line. What follows the last line feed is
/// a line too, kept as it is, unless it is empty.
pub open spec fn lines_of(text: Seq<char>) -> Seq<Seq<char>> {
    let pieces = split_on(text, '\n');
    let ended = strip_each(pieces.drop_last());
    if pieces.last().len() == 0 {
        ended
    } else {
        ended.push(pieces.last())
    }
}

/// Cuts `text` into its lines, as `BufRead::lines` hands them out.
pub fn lines(text: &str) -> (result: Vec<String>)
    ensures
        result.deep_view() == lines_of(text@),
{
    let mut done: Vec<String> = Vec::new();
    let mut current = String::new();
    let mut pending_cr = false;
    for c in it: text.chars()
        invariant
            it.seq() == text@,
            split_on(text@.take(it.index() as int), '\n').len() >= 1,
            done.deep_view() == strip_each(
                split_on(text@.take(it.index() as int), '\n').drop_last(),
            ),
            split_on(text@.take(it.index() as int), '\n').last() == if pending_cr {
                current@.push('\r')
            } else {
                current@
            },
            !pending_cr ==> current@.len() == 0 || current@.last() != '\r',
    {
        let ghost finished = done.deep_view();
        let ghost line = current@;
        let ghost before = text@.take(it.index() as int);
        let ghost after = text@.take(it.index() as int + 1);
        let ghost pieces = split_on(before, '\n');
        proof {
            assert(after.drop_last() =~= before);
            assert(after.last() == c);
            lemma_split_pieces(after, '\n');
        }
        if c == '\n' {
            done.push(current);
            current = String::new();
            pending_cr = false;
            proof {
                assert(split_on(after, '\n').drop_last() =~= pieces);
                assert(strip_cr(pieces.last()) =~= line);
                assert(done.deep_view() =~= finished.push(line));
                assert(strip_each(pieces) =~= strip_each(pieces.drop_last()).push(line));
            }
        } else {
            if pending_cr {
                current.push('\r');
            }
            if c == '\r' {
                pending_cr = true;
            } else {
                current.push(c);
                pending_cr = false;
            }
            proof {
                assert(split_on(after, '\n').drop_last() =~= pieces.drop_last());
            }
        }
    }
    proof {
        assert(text@.take(text@.len() as int) =~= text@);
    }
    if pending_cr {
        current.push('\r');
    }
    if !current.as_str().is_empty() {
        let ghost finished = done.deep_view();
        let ghost line = current@;
        done.push(current);
        assert(done.deep_view() =~= finished.push(line));
    }
    done
}

} // verus!
