//! Splitting text at a separator, and the lines of a text.

use vstd::prelude::*;

verus! {

/// The pieces of `s` between occurrences of `sep`, in order: one more piece
/// than there are separators, empty pieces included.
pub open spec fn split_on<T>(s: Seq<T>, sep: T) -> Seq<Seq<T>>
    decreases s.len(),
{
    if s.len() == 0 {
        seq![Seq::empty()]
    } else {
        let before = split_on(s.drop_last(), sep);
        if s.last() == sep {
            before.push(Seq::empty())
        } else {
            before.update(before.len() - 1, before.last().push(s.last()))
        }
    }
}

/// `s` without one carriage return at its end.
pub open spec fn strip_cr<T>(s: Seq<T>, cr: T) -> Seq<T> {
    if s.len() > 0 && s.last() == cr {
        s.drop_last()
    } else {
        s
    }
}

/// The lines of `s`: the pieces between line feeds, each without the
/// carriage return that ends it before its line feed. A final line feed
/// ends the last line and starts no new one; an empty text has no lines.
pub open spec fn lines_of<T>(s: Seq<T>, lf: T, cr: T) -> Seq<Seq<T>> {
    if s.len() == 0 {
        Seq::empty()
    } else if s.last() == lf {
        split_on(s.drop_last(), lf).map_values(|line: Seq<T>| strip_cr(line, cr))
    } else {
        let pieces = split_on(s, lf);
        pieces.drop_last().map_values(|line: Seq<T>| strip_cr(line, cr)).push(pieces.last())
    }
}

/// Splitting never yields an empty list of pieces.
pub proof fn lemma_split_nonempty<T>(s: Seq<T>, sep: T)
    ensures
        split_on(s, sep).len() >= 1,
    decreases s.len(),
{
    if s.len() > 0 {
        lemma_split_nonempty(s.drop_last(), sep);
    }
}

/// Text without the separator splits into itself alone.
pub proof fn lemma_split_no_sep<T>(s: Seq<T>, sep: T)
    requires
        !s.contains(sep),
    ensures
        split_on(s, sep) == seq![s],
    decreases s.len(),
{
    if s.len() > 0 {
        assert(!s.drop_last().contains(sep)) by {
            if s.drop_last().contains(sep) {
                let k = choose|k: int| 0 <= k < s.drop_last().len() && s.drop_last()[k] == sep;
                assert(s[k] == sep);
            }
        }
        lemma_split_no_sep(s.drop_last(), sep);
        assert(s.last() != sep) by {
            if s.last() == sep {
                assert(s[s.len() - 1] == sep);
            }
        }
        assert(s.drop_last().push(s.last()) =~= s);
        assert(seq![s.drop_last()].update(0, s.drop_last().push(s.last())) =~= seq![s]);
    } else {
        assert(s =~= Seq::<T>::empty());
    }
}

/// Splitting text that has a separator in the middle splits each side.
pub proof fn lemma_split_concat<T>(a: Seq<T>, b: Seq<T>, sep: T)
    ensures
        split_on(a.push(sep) + b, sep) == split_on(a, sep) + split_on(b, sep),
    decreases b.len(),
{
    let s = a.push(sep) + b;
    if b.len() == 0 {
        assert(s =~= a.push(sep));
        assert(s.drop_last() =~= a);
        assert(split_on(a, sep).push(Seq::empty()) =~= split_on(a, sep) + seq![Seq::<T>::empty()]);
    } else {
        let c = b.drop_last();
        assert(s.drop_last() =~= a.push(sep) + c);
        assert(s.last() == b.last());
        lemma_split_concat(a, c, sep);
        let x = split_on(a, sep);
        let y = split_on(c, sep);
        lemma_split_nonempty(c, sep);
        if b.last() == sep {
            assert((x + y).push(Seq::empty()) =~= x + y.push(Seq::empty()));
        } else {
            assert((x + y).update((x + y).len() - 1, (x + y).last().push(b.last())) =~= x + y.update(
                y.len() - 1,
                y.last().push(b.last()),
            ));
        }
    }
}

/// The first piece runs up to the first separator; what follows it splits
/// on its own.
pub proof fn lemma_split_first<T>(s: Seq<T>, sep: T, i: int)
    requires
        0 <= i <= s.len(),
        forall|k: int| 0 <= k < i ==> s[k] != sep,
        i == s.len() || s[i] == sep,
    ensures
        split_on(s, sep)[0] == s.take(i),
        i == s.len() ==> split_on(s, sep).len() == 1,
        i < s.len() ==> split_on(s, sep) == seq![s.take(i)] + split_on(s.skip(i + 1), sep),
{
    assert(!s.take(i).contains(sep)) by {
        if s.take(i).contains(sep) {
            let k = choose|k: int| 0 <= k < s.take(i).len() && s.take(i)[k] == sep;
            assert(s[k] == sep);
        }
    }
    lemma_split_no_sep(s.take(i), sep);
    if i == s.len() {
        assert(s.take(i) =~= s);
    } else {
        assert(s =~= s.take(i).push(sep) + s.skip(i + 1));
        lemma_split_concat(s.take(i), s.skip(i + 1), sep);
    }
}

/// Relies on `String::push`: appends one character.
#[verifier::external_body]
pub(crate) fn push_char(s: &mut String, c: char)
    ensures
        final(s)@ == old(s)@.push(c),
{
    s.push(c)
}

/// Relies on `str::chars`: the characters of the text, in order.
#[verifier::external_body]
pub(crate) fn chars_of(s: &str) -> (r: Vec<char>)
    ensures
        r@ == s@,
{
    s.chars().collect()
}

/// Appends the characters `cs` to `s`.
pub(crate) fn push_chars(s: &mut String, cs: &Vec<char>)
    ensures
        final(s)@ == old(s)@ + cs@,
{
    let mut i: usize = 0;
    while i < cs.len()
        invariant
            i <= cs@.len(),
            s@ == old(s)@ + cs@.take(i as int),
        decreases cs@.len() - i,
    {
        push_char(s, cs[i]);
        assert(old(s)@ + cs@.take(i + 1) =~= (old(s)@ + cs@.take(i as int)).push(cs@[i as int]));
        i = i + 1;
    }
    assert(cs@.take(i as int) =~= cs@);
}

/// The characters of each line, in order.
pub open spec fn line_texts(lines: Seq<Vec<char>>) -> Seq<Seq<char>> {
    lines.map_values(|line: Vec<char>| line@)
}

/// The lines of `cs`: split at line feeds, with the carriage return of each
/// `\r\n` ending removed.
pub fn split_lines(cs: &Vec<char>) -> (r: Vec<Vec<char>>)
    ensures
        line_texts(r@) == lines_of(cs@, '\n', '\r'),
{
    let ghost s = cs@;
    let mut out: Vec<Vec<char>> = Vec::new();
    let mut cur: Vec<char> = Vec::new();
    let ghost mut done: Seq<Seq<char>> = Seq::empty();
    let mut i: usize = 0;
    proof {
        assert(s.take(0) =~= Seq::<char>::empty());
    }
    while i < cs.len()
        invariant
            s == cs@,
            i <= s.len(),
            split_on(s.take(i as int), '\n') == done.push(cur@),
            line_texts(out@) == done.map_values(|line: Seq<char>| strip_cr(line, '\r')),
            i > 0 && s[i - 1] == '\n' ==> cur@.len() == 0,
        decreases s.len() - i,
    {
        assert(s.take(i + 1).drop_last() =~= s.take(i as int));
        assert(s.take(i + 1).last() == s[i as int]);
        if cs[i] == '\n' {
            let ghost piece = cur@;
            let mut line = cur;
            if line.len() > 0 && line[line.len() - 1] == '\r' {
                line.pop();
            }
            assert(line@ == strip_cr(piece, '\r')) by {
                if piece.len() > 0 && piece.last() == '\r' {
                    assert(line@ =~= piece.drop_last());
                }
            }
            let ghost before = line_texts(out@);
            out.push(line);
            proof {
                assert(line_texts(out@) =~= before.push(strip_cr(piece, '\r')));
                assert(done.push(piece).map_values(|line: Seq<char>| strip_cr(line, '\r')) =~= done.map_values(
                    |line: Seq<char>| strip_cr(line, '\r'),
                ).push(strip_cr(piece, '\r')));
                done = done.push(piece);
            }
            cur = Vec::new();
        } else {
            let ghost before = done.push(cur@);
            cur.push(cs[i]);
            assert(before.update(before.len() - 1, before.last().push(s[i as int])) =~= done.push(cur@));
        }
        i = i + 1;
    }
    proof {
        assert(s.take(i as int) =~= s);
        assert(split_on(s, '\n') == done.push(cur@));
    }
    if cur.len() > 0 {
        let ghost before = line_texts(out@);
        let ghost last = cur@;
        out.push(cur);
        proof {
            if s.len() == 0 {
                assert(done.push(last).last() == last);
                assert(split_on(s, '\n').last() =~= Seq::<char>::empty());
            }
            assert(s.len() > 0);
            assert(s.last() != '\n');
            assert(line_texts(out@) =~= before.push(last));
            assert(done.push(last).drop_last() =~= done);
        }
    } else {
        proof {
            if s.len() == 0 {
                assert(done.push(cur@).len() == 1);
                assert(line_texts(out@) =~= lines_of(s, '\n', '\r'));
            } else {
                // A last piece that does not end the text at a line feed
                // would hold the text's last character, yet it is empty.
                assert(s.last() == '\n') by {
                    if s.last() != '\n' {
                        let d = split_on(s.drop_last(), '\n');
                        lemma_split_nonempty(s.drop_last(), '\n');
                        assert(split_on(s, '\n').last() == d.last().push(s.last()));
                    }
                }
                assert(split_on(s, '\n') == split_on(s.drop_last(), '\n').push(Seq::empty()));
                assert(split_on(s, '\n').drop_last() =~= split_on(s.drop_last(), '\n'));
                assert(done.push(cur@).drop_last() =~= done);
            }
        }
    }
    out
}

} // verus!
