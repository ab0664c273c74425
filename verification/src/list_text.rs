//! The text format of a published blocklist: one domain per line, where a
//! line holding `#` is a comment.

use vstd::prelude::*;

verus! {

/// The offset of the first newline in `s`, or its length if it has none.
pub open spec fn line_end(s: Seq<char>) -> int
    decreases s.len(),
{
    if s.len() == 0 || s[0] == '\n' {
        0
    } else {
        1 + line_end(s.drop_first())
    }
}

/// A line without the one carriage return that may end it.
pub open spec fn strip_cr(line: Seq<char>) -> Seq<char> {
    if line.len() > 0 && line.last() == '\r' {
        line.drop_last()
    } else {
        line
    }
}

/// The lines of a text, as `str::lines` gives them: split at each `\n`, a
/// `\r` right before the `\n` dropped, and a last line ending the text with
/// or without a newline.
pub open spec fn text_lines(s: Seq<char>) -> Seq<Seq<char>>
    decreases s.len(),
{
    if s.len() == 0 {
        seq![]
    } else {
        let e = line_end(s);
        if e < 0 || e >= s.len() {
            seq![s]
        } else {
            seq![strip_cr(s.take(e))] + text_lines(s.skip(e + 1))
        }
    }
}

/// The domains that a list text names: its lines that hold no `#`.
pub open spec fn listed_domains(lines: Seq<Seq<char>>) -> Set<Seq<char>> {
    Set::new(|line: Seq<char>| lines.contains(line) && !line.contains('#'))
}

/// `line_end` is the first newline, or the end.
pub proof fn lemma_line_end(s: Seq<char>)
    ensures
        0 <= line_end(s) <= s.len(),
        line_end(s) < s.len() ==> s[line_end(s)] == '\n',
        forall|i: int| 0 <= i < line_end(s) ==> s[i] != '\n',
    decreases s.len(),
{
    if s.len() == 0 || s[0] == '\n' {
    } else {
        lemma_line_end(s.drop_first());
        assert forall|i: int| 0 <= i < line_end(s) implies s[i] != '\n' by {
            if i > 0 {
                assert(s[i] == s.drop_first()[i - 1]);
            }
        }
    }
}

/// A position with no newline before it and a newline (or the end) at it is
/// `line_end`.
pub proof fn lemma_line_end_unique(s: Seq<char>, e: int)
    requires
        0 <= e <= s.len(),
        e < s.len() ==> s[e] == '\n',
        forall|i: int| 0 <= i < e ==> s[i] != '\n',
    ensures
        line_end(s) == e,
    decreases s.len(),
{
    if s.len() == 0 || s[0] == '\n' {
    } else {
        let t = s.drop_first();
        assert forall|i: int| 0 <= i < e - 1 implies t[i] != '\n' by {
            assert(t[i] == s[i + 1]);
        }
        lemma_line_end_unique(t, e - 1);
    }
}

/// The lines of two texts joined, where the first ends with a newline (or
/// is empty), are the lines of each in turn.
pub proof fn lemma_text_lines_concat(a: Seq<char>, b: Seq<char>)
    requires
        a.len() == 0 || a.last() == '\n',
    ensures
        text_lines(a + b) == text_lines(a) + text_lines(b),
    decreases a.len(),
{
    if a.len() == 0 {
        assert(a + b =~= b);
        assert(text_lines(a) + text_lines(b) =~= text_lines(b));
    } else {
        lemma_line_end(a);
        let e = line_end(a);
        assert(e < a.len()) by {
            if e >= a.len() {
                assert(a[a.len() - 1] != '\n');
            }
        }
        let ab = a + b;
        assert forall|i: int| 0 <= i < e implies ab[i] != '\n' by {
            assert(ab[i] == a[i]);
        }
        assert(ab[e] == a[e]);
        lemma_line_end_unique(ab, e);
        assert(ab.take(e) =~= a.take(e));
        let rest = a.skip(e + 1);
        assert(ab.skip(e + 1) =~= rest + b);
        assert(rest.len() == 0 || rest.last() == '\n') by {
            if rest.len() > 0 {
                assert(rest.last() == a.last());
            }
        }
        lemma_text_lines_concat(rest, b);
        assert(text_lines(a) == seq![strip_cr(a.take(e))] + text_lines(rest));
        assert(text_lines(ab) == seq![strip_cr(ab.take(e))] + text_lines(ab.skip(e + 1)));
        assert(text_lines(ab) =~= text_lines(a) + text_lines(b));
    }
}

/// A text that is one line ended by a newline has just that line.
pub proof fn lemma_text_lines_one_terminated(t: Seq<char>)
    requires
        t.len() > 0,
        t.last() == '\n',
        forall|i: int| 0 <= i < t.len() - 1 ==> t[i] != '\n',
    ensures
        text_lines(t) == seq![strip_cr(t.take(t.len() - 1))],
{
    lemma_line_end_unique(t, t.len() - 1);
    assert(t.skip(t.len() as int) =~= Seq::<char>::empty());
    assert(text_lines(t.skip(t.len() as int)) =~= Seq::<Seq<char>>::empty());
    assert(text_lines(t) =~= seq![strip_cr(t.take(t.len() - 1))]);
}

/// A text with no newline is one line, or none when empty.
pub proof fn lemma_text_lines_unterminated(t: Seq<char>)
    requires
        forall|i: int| 0 <= i < t.len() ==> t[i] != '\n',
    ensures
        text_lines(t) == (if t.len() == 0 {
            Seq::<Seq<char>>::empty()
        } else {
            seq![t]
        }),
{
    if t.len() > 0 {
        lemma_line_end_unique(t, t.len() as int);
    } else {
        assert(text_lines(t) =~= Seq::<Seq<char>>::empty());
    }
}

/// The domains of lines followed by one more line.
pub proof fn lemma_listed_push(lines: Seq<Seq<char>>, line: Seq<char>)
    ensures
        listed_domains(lines.push(line)) == (if line.contains('#') {
            listed_domains(lines)
        } else {
            listed_domains(lines).insert(line)
        }),
{
    crate::text::lemma_push_contains(lines, line);
    if line.contains('#') {
        assert(listed_domains(lines.push(line)) =~= listed_domains(lines));
    } else {
        assert(listed_domains(lines.push(line)) =~= listed_domains(lines).insert(line));
    }
}

/// `line` stands in `text` as a whole line from offset `k`: it starts the
/// text or follows a newline, holds no newline, and ends the text or is
/// followed by a newline, or by a carriage return and a newline.
pub open spec fn line_at(text: Seq<char>, line: Seq<char>, k: int) -> bool {
    let e = k + line.len();
    &&& 0 <= k && e <= text.len()
    &&& text.subrange(k, e) == line
    &&& (k == 0 || text[k - 1] == '\n')
    &&& !line.contains('\n')
    &&& (e == text.len() || text[e] == '\n' || (text[e] == '\r' && e + 1 < text.len()
        && text[e + 1] == '\n'))
}

/// Every line that `text_lines` gives stands in the text as a whole line.
pub proof fn lemma_text_lines_are_lines(s: Seq<char>, line: Seq<char>)
    requires
        text_lines(s).contains(line),
    ensures
        exists|k: int| line_at(s, line, k),
    decreases s.len(),
{
    lemma_line_end(s);
    let e = line_end(s);
    if e >= s.len() {
        assert(text_lines(s) == seq![s]);
        assert(line == s);
        assert(s.subrange(0, s.len() as int) =~= s);
        assert(!s.contains('\n'));
        assert(line_at(s, line, 0));
    } else {
        let first = strip_cr(s.take(e));
        let rest = s.skip(e + 1);
        assert(text_lines(s) == seq![first] + text_lines(rest));
        if line == first {
            assert(!s.take(e).contains('\n'));
            if e > 0 && s.take(e).last() == '\r' {
                assert(line =~= s.take(e - 1));
                assert(s.subrange(0, e - 1) =~= line);
                assert(!line.contains('\n'));
                assert(line_at(s, line, 0));
            } else {
                assert(line =~= s.take(e));
                assert(s.subrange(0, e) =~= line);
                assert(line_at(s, line, 0));
            }
        } else {
            let j = choose|j: int| 0 <= j < text_lines(s).len() && text_lines(s)[j] == line;
            assert(text_lines(rest)[j - 1] == line);
            lemma_text_lines_are_lines(rest, line);
            let k = choose|k: int| line_at(rest, line, k);
            let kk = k + e + 1;
            assert(s.subrange(kk, kk + line.len()) =~= rest.subrange(k, k + line.len()));
            if k > 0 {
                assert(s[kk - 1] == rest[k - 1]);
            }
            let ee = k + line.len();
            if ee < rest.len() {
                assert(s[kk + line.len()] == rest[ee]);
                if ee + 1 < rest.len() {
                    assert(s[kk + line.len() + 1] == rest[ee + 1]);
                }
            }
            assert(line_at(s, line, kk));
        }
    }
}

/// A line that ends with a newline, after text that is empty or ends with a
/// newline, is one of the text's lines (without the carriage return that may
/// end it).
pub proof fn lemma_whole_line_listed(
    pre: Seq<char>,
    line: Seq<char>,
    post: Seq<char>,
)
    requires
        pre.len() == 0 || pre.last() == '\n',
        !line.contains('\n'),
    ensures
        text_lines(pre + line + seq!['\n'] + post).contains(strip_cr(line)),
{
    let t = line + seq!['\n'];
    assert(pre + line + seq!['\n'] + post =~= pre + (t + post));
    lemma_text_lines_concat(pre, t + post);
    lemma_text_lines_concat(t, post);
    assert forall|i: int| 0 <= i < t.len() - 1 implies t[i] != '\n' by {
        assert(t[i] == line[i]);
    }
    lemma_text_lines_one_terminated(t);
    assert(t.take(t.len() - 1) =~= line);
    let all = text_lines(pre) + (text_lines(t) + text_lines(post));
    assert(all[text_lines(pre).len() as int] == strip_cr(line));
}

} // verus!
