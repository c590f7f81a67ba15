//! Keeping a site's navigation in step with a template: the lines of the
//! template's `<header>` element replace those of each page's.

use crate::index::texts;
use crate::text::{chars_of, line_texts, lines_of, push_char, push_chars, split_lines};
use vstd::prelude::*;

verus! {

/// The line that opens the header block.
pub const HEADER_OPEN: &'static str = "<header>";

/// The line that closes the header block.
pub const HEADER_CLOSE: &'static str = "</header>";

pub const MISSING_PROGRAM_NAME: &'static str = "Didn't get the program name somehow.";

pub const MISSING_TEMPLATE_FILE: &'static str = "First argument should be the template file";

pub const MISSING_PATH_TO_UPDATE: &'static str = "Second argument should be file or path to update";

/// What to update, and after which template.
pub struct Config {
    pub template_file: String,
    pub path_to_update: String,
}

impl Config {
    /// Reads the command line: the program's name, the template file, then
    /// the file or directory to update. Further arguments are ignored.
    pub fn build(args: Vec<String>) -> (r: Result<Config, &'static str>)
        ensures
            args@.len() == 0 ==> r == Err::<Config, &'static str>(MISSING_PROGRAM_NAME),
            args@.len() == 1 ==> r == Err::<Config, &'static str>(MISSING_TEMPLATE_FILE),
            args@.len() == 2 ==> r == Err::<Config, &'static str>(MISSING_PATH_TO_UPDATE),
            args@.len() >= 3 ==> match r {
                Ok(config) => config.template_file@ == args@[1]@ && config.path_to_update@
                    == args@[2]@,
                Err(_) => false,
            },
    {
        if args.len() == 0 {
            return Err(MISSING_PROGRAM_NAME);
        }
        if args.len() == 1 {
            return Err(MISSING_TEMPLATE_FILE);
        }
        if args.len() == 2 {
            return Err(MISSING_PATH_TO_UPDATE);
        }
        Ok(Config { template_file: args[1].clone(), path_to_update: args[2].clone() })
    }
}

/// Whether `pat` occurs in `line`.
pub open spec fn has_sub(line: Seq<char>, pat: Seq<char>) -> bool {
    exists|i: int| 0 <= i && i + pat.len() <= line.len() && #[trigger] line.subrange(i, i + pat.len()) == pat
}

/// How many lines come before the first one in which `pat` occurs; all of
/// them when it occurs in none.
pub open spec fn first_with(lines: Seq<Seq<char>>, pat: Seq<char>) -> nat
    decreases lines.len(),
{
    if lines.len() == 0 {
        0
    } else if has_sub(lines[0], pat) {
        0
    } else {
        1 + first_with(lines.drop_first(), pat)
    }
}

proof fn lemma_first_with(lines: Seq<Seq<char>>, pat: Seq<char>, i: int)
    requires
        0 <= i <= lines.len(),
        forall|k: int| 0 <= k < i ==> !has_sub(#[trigger] lines[k], pat),
        i == lines.len() || has_sub(lines[i], pat),
    ensures
        first_with(lines, pat) == i,
    decreases i,
{
    if i > 0 {
        assert(!has_sub(lines[0], pat));
        assert forall|k: int| 0 <= k < i - 1 implies !has_sub(#[trigger] lines.drop_first()[k], pat) by {
            assert(lines.drop_first()[k] == lines[k + 1]);
        }
        lemma_first_with(lines.drop_first(), pat, i - 1);
    }
}

/// The lines strictly inside the template's first header block: after the
/// first line holding `<header>`, up to the next line holding `</header>`.
pub open spec fn header_block(lines: Seq<Seq<char>>) -> Seq<Seq<char>> {
    let rest = lines.skip(first_with(lines, HEADER_OPEN@) as int);
    let block = rest.take(first_with(rest, HEADER_CLOSE@) as int);
    if block.len() == 0 {
        block
    } else {
        block.drop_first()
    }
}

/// Each line followed by a line feed.
pub open spec fn joined_lines(lines: Seq<Seq<char>>) -> Seq<char>
    decreases lines.len(),
{
    if lines.len() == 0 {
        Seq::empty()
    } else {
        joined_lines(lines.drop_last()) + lines.last() + seq!['\n']
    }
}

/// A page with its header blocks replaced: a line holding `<header>` is
/// kept, the template's lines follow it, and the page's lines up to the next
/// line holding `</header>` are dropped; that line is kept. Every line kept
/// ends in a line feed.
pub open spec fn spliced(lines: Seq<Seq<char>>, template: Seq<Seq<char>>) -> Seq<char>
    decreases lines.len(),
{
    if lines.len() == 0 {
        Seq::empty()
    } else if has_sub(lines[0], HEADER_OPEN@) {
        let rest = lines.drop_first();
        let k = first_with(rest, HEADER_CLOSE@);
        if k < rest.len() {
            lines[0] + seq!['\n'] + joined_lines(template) + rest[k as int] + seq!['\n'] + spliced(
                rest.skip((k + 1) as int),
                template,
            )
        } else {
            lines[0] + seq!['\n'] + joined_lines(template) + seq!['\n']
        }
    } else {
        lines[0] + seq!['\n'] + spliced(lines.drop_first(), template)
    }
}

fn matches_at(line: &Vec<char>, pat: &Vec<char>, i: usize) -> (r: bool)
    requires
        i + pat@.len() <= line@.len(),
    ensures
        r == (line@.subrange(i as int, i + pat@.len()) == pat@),
{
    let n = line.len();
    let mut j: usize = 0;
    while j < pat.len()
        invariant
            n == line@.len(),
            i + pat@.len() <= line@.len(),
            j <= pat@.len(),
            forall|k: int| 0 <= k < j ==> line@[i + k] == pat@[k],
        decreases pat@.len() - j,
    {
        if line[i + j] != pat[j] {
            assert(line@.subrange(i as int, i + pat@.len())[j as int] != pat@[j as int]);
            return false;
        }
        j = j + 1;
    }
    assert(line@.subrange(i as int, i + pat@.len()) =~= pat@);
    true
}

pub(crate) fn has_pattern(line: &Vec<char>, pat: &Vec<char>) -> (r: bool)
    ensures
        r == has_sub(line@, pat@),
{
    if pat.len() > line.len() {
        return false;
    }
    if pat.len() == 0 {
        assert(line@.subrange(0int, 0int + pat@.len()) =~= pat@);
        return true;
    }
    let n = line.len();
    let last = n - pat.len();
    let mut i: usize = 0;
    while i <= last
        invariant
            n == line@.len(),
            last + pat@.len() == line@.len(),
            pat@.len() > 0,
            i <= last + 1,
            forall|k: int|
                0 <= k < i ==> #[trigger] line@.subrange(k, k + pat@.len()) != pat@,
        decreases last + 1 - i,
    {
        if matches_at(line, pat, i) {
            return true;
        }
        i = i + 1;
    }
    false
}

/// Index of the first line at or after `from` in which `pat` occurs; the
/// number of lines when there is none.
fn find_line(lines: &Vec<Vec<char>>, pat: &Vec<char>, from: usize) -> (r: usize)
    requires
        from <= lines@.len(),
    ensures
        from <= r <= lines@.len(),
        r == from + first_with(line_texts(lines@).skip(from as int), pat@),
{
    let ghost ls = line_texts(lines@).skip(from as int);
    let mut i: usize = from;
    while i < lines.len() && !has_pattern(&lines[i], pat)
        invariant
            from <= i <= lines@.len(),
            ls == line_texts(lines@).skip(from as int),
            forall|k: int| 0 <= k < i - from ==> !has_sub(#[trigger] ls[k], pat@),
        decreases lines@.len() - i,
    {
        assert(ls[i - from] == lines@[i as int]@);
        i = i + 1;
    }
    proof {
        if i < lines.len() {
            assert(ls[i - from] == lines@[i as int]@);
        }
        lemma_first_with(ls, pat@, i - from);
    }
    i
}

/// The lines strictly inside the template's first `<header>` block.
pub fn header_lines_from_template(template: &str) -> (r: Vec<String>)
    ensures
        texts(r@) == header_block(lines_of(template@, '\n', '\r')),
{
    let chars = chars_of(template);
    let lines = split_lines(&chars);
    let ghost all = line_texts(lines@);
    let open = chars_of(HEADER_OPEN);
    let close = chars_of(HEADER_CLOSE);
    let start = find_line(&lines, &open, 0);
    let end = find_line(&lines, &close, start);
    proof {
        assert(all.skip(0) =~= all);
    }
    let mut r: Vec<String> = Vec::new();
    if end > start {
        let mut k: usize = start + 1;
        while k < end
            invariant
                start < end <= lines@.len(),
                start + 1 <= k <= end,
                all == line_texts(lines@),
                texts(r@) =~= all.subrange(start + 1, k as int),
            decreases end - k,
        {
            let mut line = String::new();
            push_chars(&mut line, &lines[k]);
            let ghost before = texts(r@);
            r.push(line);
            assert(texts(r@) =~= before.push(all[k as int]));
            assert(all.subrange(start + 1, k + 1) =~= all.subrange(start + 1, k as int).push(all[k as int]));
            k = k + 1;
        }
        assert(all.skip(start as int).take((end - start) as int).drop_first() =~= all.subrange(
            start + 1,
            end as int,
        ));
    } else {
        assert(all.skip(start as int).take((end - start) as int) =~= Seq::<Seq<char>>::empty());
    }
    r
}

/// The page `contents_to_update` with each header block's lines replaced by
/// `template_header_lines`.
pub fn get_updated_file_contents(template_header_lines: &Vec<&str>, contents_to_update: String) -> (r:
    String)
    ensures
        r@ == spliced(
            lines_of(contents_to_update@, '\n', '\r'),
            template_header_lines@.map_values(|t: &str| t@),
        ),
{
    let ghost tmpl = template_header_lines@.map_values(|t: &str| t@);
    let chars = chars_of(contents_to_update.as_str());
    let lines = split_lines(&chars);
    let ghost all = line_texts(lines@);
    let open = chars_of(HEADER_OPEN);
    let close = chars_of(HEADER_CLOSE);
    let n = lines.len();
    let mut out = String::new();
    let mut i: usize = 0;
    proof {
        assert(all.skip(0) =~= all);
    }
    while i < n
        invariant
            n == lines@.len(),
            i <= n,
            open@ == HEADER_OPEN@,
            close@ == HEADER_CLOSE@,
            all == line_texts(lines@),
            tmpl == template_header_lines@.map_values(|t: &str| t@),
            spliced(all, tmpl) == out@ + spliced(all.skip(i as int), tmpl),
        decreases n - i,
    {
        let ghost here = all.skip(i as int);
        let ghost before = out@;
        assert(here[0] == lines@[i as int]@);
        assert(here.drop_first() =~= all.skip(i + 1));
        push_chars(&mut out, &lines[i]);
        push_char(&mut out, '\n');
        if has_pattern(&lines[i], &open) {
            let mut t: usize = 0;
            while t < template_header_lines.len()
                invariant
                    n == lines@.len(),
                    i < n,
                    close@ == HEADER_CLOSE@,
                    all == line_texts(lines@),
                    tmpl == template_header_lines@.map_values(|t: &str| t@),
                    t <= tmpl.len(),
                    out@ == before + lines@[i as int]@ + seq!['\n'] + joined_lines(tmpl.take(t as int)),
                decreases tmpl.len() - t,
            {
                out.append(template_header_lines[t]);
                push_char(&mut out, '\n');
                assert(tmpl.take(t + 1).drop_last() =~= tmpl.take(t as int));
                assert(out@ =~= before + lines@[i as int]@ + seq!['\n'] + joined_lines(tmpl.take(t + 1)));
                t = t + 1;
            }
            assert(tmpl.take(t as int) =~= tmpl);
            let j = find_line(&lines, &close, i + 1);
            proof {
                assert(has_sub(here[0], HEADER_OPEN@));
                assert(here.drop_first() =~= all.skip(i + 1));
                assert(first_with(here.drop_first(), HEADER_CLOSE@) == j - (i + 1));
            }
            if j < n {
                push_chars(&mut out, &lines[j]);
                push_char(&mut out, '\n');
                proof {
                    let rest = here.drop_first();
                    assert(rest[j - (i + 1)] == all[j as int]);
                    assert(rest.skip(j - i) =~= all.skip(j + 1));
                    assert(spliced(here, tmpl) == here[0] + seq!['\n'] + joined_lines(tmpl) + all[j as int]
                        + seq!['\n'] + spliced(all.skip(j + 1), tmpl));
                    assert(out@ =~= before + here[0] + seq!['\n'] + joined_lines(tmpl) + all[j as int]
                        + seq!['\n']);
                    assert(before + spliced(here, tmpl) =~= out@ + spliced(all.skip(j + 1), tmpl));
                }
                i = j + 1;
            } else {
                push_char(&mut out, '\n');
                proof {
                    assert(all.skip(n as int) =~= Seq::<Seq<char>>::empty());
                    assert(spliced(here, tmpl) == here[0] + seq!['\n'] + joined_lines(tmpl) + seq!['\n']);
                    assert(out@ =~= before + here[0] + seq!['\n'] + joined_lines(tmpl) + seq!['\n']);
                    assert(before + spliced(here, tmpl) =~= out@ + spliced(all.skip(n as int), tmpl));
                }
                i = n;
            }
        } else {
            assert(here.len() > 0);
            assert(!has_sub(here[0], HEADER_OPEN@));
            assert(spliced(here, tmpl) == here[0] + seq!['\n'] + spliced(all.skip(i + 1), tmpl));
            assert(before + spliced(here, tmpl) =~= out@ + spliced(all.skip(i + 1), tmpl));
            i = i + 1;
        }
    }
    proof {
        assert(all.skip(n as int) =~= Seq::<Seq<char>>::empty());
        assert(out@ =~= out@ + Seq::<char>::empty());
    }
    out
}

} // verus!
