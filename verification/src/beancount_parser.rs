use vstd::prelude::*;

use crate::beancount::{BeancountDirective, BeancountOnlyDirective};
use crate::decimal::sub_vec;
use crate::lexer::{is_blank_line, is_word, line_tokens, tokenize, tview, tviews};
use crate::grammar::{is_kw, item_reads, lemma_item_reads_some};
use crate::models::Directive;
use crate::parser::{
    blank_line, indented, is_line_split, item_end_from, item_lines, join_lines, lemma_item_end, line_views, parse_item,
    starts_indented, ParseError,
};
use crate::span::{SpanInfo, Spanned};
use crate::strings::{chars_of, join_parts, split_on, str_eq_chars, string_from_chars};

verus! {

/// Reads beancount files: zhang's directives, and the tag stack lines of beancount.
#[derive(Debug, Clone, Copy, Default)]
pub struct BeancountParer {}

/// What the parser gives for an item of lines `p` of the file `file`: its span; a comment
/// exactly for a line that starts with `;`; a pushed or popped tag for a single line that
/// starts with `pushtag` or `poptag`.
pub open spec fn beancount_item_read(p: Seq<Seq<char>>, file: Option<String>, d: Spanned<BeancountDirective>) -> bool {
    let first = p[d.span.start - 1];
    &&& item_lines(p, d.span.start as int, d.span.end as int)
    &&& d.span.content@ == join_parts(p.subrange(d.span.start - 1, d.span.end as int), '\n')
    &&& d.span.filename == file
    &&& (first[0] == ';') == (d.data matches BeancountDirective::Left(Directive::Comment(_)))
    &&& (d.data matches BeancountDirective::Left(Directive::Comment(c)) ==> d.span.start == d.span.end && c.content@ == first)
    &&& match d.data {
        BeancountDirective::Right(BeancountOnlyDirective::PushTag(t)) => d.span.start == d.span.end
            && first.len() >= 7 && first.subrange(0, 7) == "pushtag"@ && t@.len() > 0,
        BeancountDirective::Right(BeancountOnlyDirective::PopTag(t)) => d.span.start == d.span.end
            && first.len() >= 6 && first.subrange(0, 6) == "poptag"@ && t@.len() > 0,
        BeancountDirective::Right(_) => false,
        BeancountDirective::Left(_) => true,
    }
    &&& beancount_item_reads(p.subrange(d.span.start - 1, d.span.end as int), Some(d.data))
}

/// A single line that starts with `pushtag` or `poptag` and reads as that word and a tag
/// `#name`: whether it pushes, and the name.
pub open spec fn tag_words(ls: Seq<Seq<char>>) -> Option<(bool, Seq<char>)> {
    if ls.len() == 1 && line_tokens(ls[0]) is Some {
        let l = ls[0];
        let push = l.len() >= 7 && l.subrange(0, 7) == "pushtag"@;
        let pop = l.len() >= 6 && l.subrange(0, 6) == "poptag"@;
        let h = line_tokens(l)->0;
        if (push || pop) && h.len() == 2 && !h[1].1 && h[1].0.len() >= 2 && h[1].0[0] == '#' {
            if push && is_kw(h[0], "pushtag"@) {
                Some((true, h[1].0.drop_first()))
            } else if pop && is_kw(h[0], "poptag"@) {
                Some((false, h[1].0.drop_first()))
            } else {
                None
            }
        } else {
            None
        }
    } else {
        None
    }
}

/// What the lines of an item of a beancount file read as: a tag line, or else what they read
/// as in a zhang file.
#[verifier::opaque]
pub open spec fn beancount_item_reads(ls: Seq<Seq<char>>, r: Option<BeancountDirective>) -> bool {
    match tag_words(ls) {
        Some((true, t)) => r matches Some(BeancountDirective::Right(BeancountOnlyDirective::PushTag(x))) && x@ == t,
        Some((false, t)) => r matches Some(BeancountDirective::Right(BeancountOnlyDirective::PopTag(x))) && x@ == t,
        None => match r {
            Some(BeancountDirective::Left(d)) => item_reads(ls, Some(d)),
            Some(_) => false,
            None => item_reads(ls, None),
        },
    }
}

/// The first line from `i` on (counted from 0) where a beancount text cannot be read, as
/// `first_error` for zhang text.
pub open spec fn beancount_first_error(p: Seq<Seq<char>>, i: int) -> Option<int>
    decreases p.len() - i,
{
    if i < 0 || i >= p.len() {
        None
    } else if blank_line(p[i]) {
        beancount_first_error(p, i + 1)
    } else if indented(p[i]) {
        Some(i)
    } else {
        let j = item_end_from(p, i + 1);
        proof {
            lemma_item_end(p, i + 1);
        }
        if beancount_item_reads(p.subrange(i, j), None) {
            Some(i)
        } else {
            beancount_first_error(p, j)
        }
    }
}

/// How the parse of a beancount text relates to its lines `p`, as `lines_read_as` for zhang text.
#[verifier::opaque]
pub open spec fn beancount_lines_read_as(
    p: Seq<Seq<char>>,
    file: Option<String>,
    r: Result<Vec<Spanned<BeancountDirective>>, ParseError>,
) -> bool {
    match r {
        Ok(ds) => {
            &&& beancount_first_error(p, 0) is None
            &&& forall|k: int| 0 <= k < ds@.len() ==> beancount_item_read(p, file, #[trigger] ds@[k])
            &&& forall|k: int, l: int| 0 <= k < l < ds@.len() ==> #[trigger] ds@[k].span.end < #[trigger] ds@[l].span.start
            &&& forall|j: int|
                0 <= j < p.len() && (forall|k: int| 0 <= k < ds@.len() ==> !(#[trigger] ds@[k].span.start <= j + 1 <= ds@[k].span.end))
                    ==> blank_line(#[trigger] p[j])
        },
        Err(e) => 1 <= e.line <= p.len() && !blank_line(p[e.line - 1]) && beancount_first_error(p, 0) == Some(
            e.line - 1,
        ),
    }
}

/// How the parse of a beancount text relates to its lines (see `beancount_lines_read_as`).
pub open spec fn beancount_read_as(
    input: Seq<char>,
    file: Option<String>,
    r: Result<Vec<Spanned<BeancountDirective>>, ParseError>,
) -> bool {
    forall|p: Seq<Seq<char>>| #[trigger] is_line_split(input, p) ==> beancount_lines_read_as(p, file, r)
}

/// Whether the line begins with the word.
fn begins_with(line: &Vec<char>, w: &str) -> (r: bool)
    ensures
        r == (line@.len() >= w@.len() && line@.subrange(0, w@.len() as int) == w@),
{
    let n = chars_of(w).len();
    if line.len() < n {
        return false;
    }
    str_eq_chars(w, &sub_vec(line, 0, n))
}

/// Reads the lines `lo..hi` as a `pushtag` or `poptag` line: the keyword, then the tag after
/// `#`.
fn tag_item(lines: &Vec<Vec<char>>, lo: usize, hi: usize) -> (r: Option<BeancountOnlyDirective>)
    requires
        lo < hi <= lines@.len(),
    ensures
        match r {
            Some(BeancountOnlyDirective::PushTag(t)) => hi == lo + 1 && lines@[lo as int]@.len() >= 7
                && lines@[lo as int]@.subrange(0, 7) == "pushtag"@ && t@.len() > 0,
            Some(BeancountOnlyDirective::PopTag(t)) => hi == lo + 1 && lines@[lo as int]@.len() >= 6
                && lines@[lo as int]@.subrange(0, 6) == "poptag"@ && t@.len() > 0,
            Some(_) => false,
            None => true,
        },
        match r {
            Some(BeancountOnlyDirective::PushTag(t)) => tag_words(line_views(lines@).subrange(lo as int, hi as int))
                == Some((true, t@)),
            Some(BeancountOnlyDirective::PopTag(t)) => tag_words(line_views(lines@).subrange(lo as int, hi as int))
                == Some((false, t@)),
            Some(_) => false,
            None => tag_words(line_views(lines@).subrange(lo as int, hi as int)) is None,
        },
{
    proof {
        reveal_strlit("pushtag");
        reveal_strlit("poptag");
    }
    let ghost ls = line_views(lines@).subrange(lo as int, hi as int);
    proof {
        if hi == lo + 1 {
            assert(ls[0] == lines@[lo as int]@);
        }
    }
    if hi != lo + 1 {
        return None;
    }
    let line = &lines[lo];
    let push = begins_with(line, "pushtag");
    let pop = begins_with(line, "poptag");
    if !push && !pop {
        return None;
    }
    let h = match tokenize(line) {
        Some(t) => t,
        None => return None,
    };
    if h.len() != 2 {
        return None;
    }
    let t = &h[1];
    let len = t.text.len();
    if t.quoted || len < 2 || t.text[0] != '#' {
        return None;
    }
    let tag = string_from_chars(&sub_vec(&t.text, 1, len));
    proof {
        assert(tag@ =~= t.text@.drop_first());
        assert(tviews(h@)[1] == tview(h@[1]));
        assert(tviews(h@)[0] == tview(h@[0]));
    }
    if push && is_word(&h[0], "pushtag") {
        Some(BeancountOnlyDirective::PushTag(tag))
    } else if pop && is_word(&h[0], "poptag") {
        Some(BeancountOnlyDirective::PopTag(tag))
    } else {
        None
    }
}

/// Reads the lines `lo..hi` as one beancount directive.
fn beancount_item(lines: &Vec<Vec<char>>, lo: usize, hi: usize) -> (r: Option<BeancountDirective>)
    requires
        lo < hi <= lines@.len(),
        lines@[lo as int]@.len() > 0,
    ensures
        r is Some ==> ((lines@[lo as int]@[0] == ';') == (r.unwrap() matches BeancountDirective::Left(Directive::Comment(_)))),
        r matches Some(BeancountDirective::Left(Directive::Comment(c))) ==> hi == lo + 1 && c.content@ == lines@[lo as int]@,
        match r {
            Some(BeancountDirective::Right(BeancountOnlyDirective::PushTag(t))) => hi == lo + 1 && lines@[lo as int]@.len() >= 7
                && lines@[lo as int]@.subrange(0, 7) == "pushtag"@ && t@.len() > 0,
            Some(BeancountDirective::Right(BeancountOnlyDirective::PopTag(t))) => hi == lo + 1 && lines@[lo as int]@.len() >= 6
                && lines@[lo as int]@.subrange(0, 6) == "poptag"@ && t@.len() > 0,
            Some(BeancountDirective::Right(_)) => false,
            _ => true,
        },
        beancount_item_reads(line_views(lines@).subrange(lo as int, hi as int), r),
{
    proof {
        reveal(beancount_item_reads);
    }
    match tag_item(lines, lo, hi) {
        Some(d) => {
            proof {
                reveal_strlit("pushtag");
                reveal_strlit("poptag");
                assert(lines@[lo as int]@[0] == lines@[lo as int]@.subrange(0, 6)[0]);
            }
            Some(BeancountDirective::Right(d))
        },
        None => match parse_item(lines, lo, hi) {
            Some(d) => Some(BeancountDirective::Left(d)),
            None => None,
        },
    }
}

/// The items read from the only way to cut a text into lines are how the text reads.
proof fn lemma_beancount_read_as(
    input: Seq<char>,
    file: Option<String>,
    lv: Seq<Seq<char>>,
    out: Vec<Spanned<BeancountDirective>>,
)
    requires
        forall|p: Seq<Seq<char>>| is_line_split(input, p) ==> p == lv,
        beancount_first_error(lv, 0) is None,
        forall|k: int| 0 <= k < out@.len() ==> beancount_item_read(lv, file, #[trigger] out@[k]),
        forall|k: int, l: int| 0 <= k < l < out@.len() ==> #[trigger] out@[k].span.end < #[trigger] out@[l].span.start,
        forall|j: int|
            0 <= j < lv.len() && (forall|k: int| 0 <= k < out@.len() ==> !(#[trigger] out@[k].span.start <= j + 1 <= out@[k].span.end))
                ==> blank_line(#[trigger] lv[j]),
    ensures
        beancount_read_as(input, file, Ok(out)),
{
    assert(beancount_lines_read_as(lv, file, Ok(out))) by {
        reveal(beancount_lines_read_as);
    }
    assert forall|p: Seq<Seq<char>>| #[trigger] is_line_split(input, p) implies beancount_lines_read_as(
        p,
        file,
        Ok(out),
    ) by {
        assert(p == lv);
    }
}

/// The text whose only cut into lines has its first unreadable line at `line` reads as an
/// error there.
proof fn lemma_beancount_read_as_err(input: Seq<char>, file: Option<String>, lv: Seq<Seq<char>>, line: usize)
    requires
        forall|p: Seq<Seq<char>>| is_line_split(input, p) ==> p == lv,
        1 <= line <= lv.len(),
        !blank_line(lv[line - 1]),
        beancount_first_error(lv, 0) == Some(line - 1),
    ensures
        beancount_read_as(input, file, Err(ParseError { line })),
{
    assert(beancount_lines_read_as(lv, file, Err(ParseError { line }))) by {
        reveal(beancount_lines_read_as);
    }
    assert forall|p: Seq<Seq<char>>| #[trigger] is_line_split(input, p) implies beancount_lines_read_as(
        p,
        file,
        Err(ParseError { line }),
    ) by {
        assert(p == lv);
    }
}

/// Reads a beancount text of the file `file`: its directives in the order written, each with
/// the lines it was read from and the file.
pub fn parse(input: &str, file: Option<String>) -> (r: Result<Vec<Spanned<BeancountDirective>>, ParseError>)
    ensures
        beancount_read_as(input@, file, r),
{
    let chars = chars_of(input);
    let lines = split_on(&chars, '\n');
    let ghost lv = line_views(lines@);
    proof {
        assert(lv =~= lines@.map_values(|l: Vec<char>| l@));
        assert forall|p: Seq<Seq<char>>| is_line_split(input@, p) implies p == lv by {
            crate::strings::lemma_split_unique_on(p, lv, '\n');
        }
    }
    let n = lines.len();
    let mut out: Vec<Spanned<BeancountDirective>> = Vec::new();
    let mut i: usize = 0;
    while i < n
        invariant
            n == lines@.len(),
            lv == line_views(lines@),
            forall|p: Seq<Seq<char>>| is_line_split(input@, p) ==> p == lv,
            i <= n,
            forall|k: int| 0 <= k < out@.len() ==> beancount_item_read(lv, file, #[trigger] out@[k]),
            forall|k: int| 0 <= k < out@.len() ==> #[trigger] out@[k].span.end <= i,
            forall|k: int, l: int| 0 <= k < l < out@.len() ==> #[trigger] out@[k].span.end < #[trigger] out@[l].span.start,
            forall|j: int| 0 <= j < i && (forall|k: int| 0 <= k < out@.len() ==> !(#[trigger] out@[k].span.start <= j + 1 <= out@[k].span.end))
                ==> blank_line(#[trigger] lv[j]),
            beancount_first_error(lv, 0) == beancount_first_error(lv, i as int),
        decreases n - i,
    {
        assert(lv[i as int] == lines@[i as int]@);
        if is_blank_line(&lines[i]) {
            i = i + 1;
            continue;
        }
        if starts_indented(&lines[i]) {
            proof {
                lemma_beancount_read_as_err(input@, file, lv, (i + 1) as usize);
            }
            return Err(ParseError { line: i + 1 });
        }
        let mut j = i + 1;
        while j < n && !is_blank_line(&lines[j]) && starts_indented(&lines[j])
            invariant
                n == lines@.len(),
                lv == line_views(lines@),
                i < j <= n,
                forall|t: int| i < t < j ==> !blank_line(#[trigger] lv[t]) && indented(lv[t]),
                item_end_from(lv, i + 1) == item_end_from(lv, j as int),
            decreases n - j,
        {
            assert(lv[j as int] == lines@[j as int]@);
            j = j + 1;
        }
        proof {
            if j < n {
                assert(lv[j as int] == lines@[j as int]@);
            }
            assert(item_end_from(lv, j as int) == j);
        }
        let data = match beancount_item(&lines, i, j) {
            Some(d) => d,
            None => {
                proof {
                    lemma_beancount_read_as_err(input@, file, lv, (i + 1) as usize);
                }
                return Err(ParseError { line: i + 1 });
            },
        };
        proof {
            let ls = lv.subrange(i as int, j as int);
            reveal(beancount_item_reads);
            if tag_words(ls) is None {
                if data is Left {
                    lemma_item_reads_some(ls, data->Left_0);
                }
            }
            assert(!beancount_item_reads(ls, None));
            assert(beancount_first_error(lv, i as int) == beancount_first_error(lv, j as int));
        }
        let content = join_lines(&lines, i, j);
        let filename = match &file {
            Some(f) => Some(f.clone()),
            None => None,
        };
        let item = Spanned { data, span: SpanInfo { start: i + 1, end: j, content: string_from_chars(&content), filename } };
        proof {
            assert(item_lines(lv, i + 1, j as int));
        }
        let ghost prev = out@;
        out.push(item);
        proof {
            assert forall|t: int| 0 <= t < j && (forall|k: int| 0 <= k < out@.len() ==> !(#[trigger] out@[k].span.start <= t + 1 <= out@[k].span.end))
                implies blank_line(#[trigger] lv[t]) by {
                if t < i {
                    assert forall|k: int| 0 <= k < prev.len() implies !(#[trigger] prev[k].span.start <= t + 1 <= prev[k].span.end) by {
                        assert(out@[k] == prev[k]);
                    }
                } else {
                    assert(out@[out@.len() - 1].span.start <= t + 1 <= out@[out@.len() - 1].span.end);
                }
            }
        }
        i = j;
    }
    proof {
        lemma_beancount_read_as(input@, file, lv, out);
    }
    Ok(out)
}

impl BeancountParer {
    /// Reads a beancount text; see `parse`.
    pub fn parse(input: &str, file: Option<String>) -> (r: Result<Vec<Spanned<BeancountDirective>>, ParseError>)
        ensures
            beancount_read_as(input@, file, r),
    {
        parse(input, file)
    }
}

} // verus!
