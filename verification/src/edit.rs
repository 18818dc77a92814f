use vstd::prelude::*;

use crate::strings::{chars_of, join_parts, string_from_chars};

verus! {

/// A line without the carriage return that ended it.
pub open spec fn strip_cr(l: Seq<char>) -> Seq<char> {
    if l.len() > 0 && l.last() == '\r' {
        l.drop_last()
    } else {
        l
    }
}

/// The lines ended so far in a text, and the one it is in.
pub open spec fn line_state(t: Seq<char>) -> (Seq<Seq<char>>, Seq<char>)
    decreases t.len(),
{
    if t.len() == 0 {
        (Seq::empty(), Seq::empty())
    } else {
        let (done, cur) = line_state(t.drop_last());
        if t.last() == '\n' {
            (done.push(strip_cr(cur)), Seq::empty())
        } else {
            (done, cur.push(t.last()))
        }
    }
}

/// The lines of a text: split at each `\n`, a `\r` before it dropped, and no empty line
/// after a final `\n`.
pub open spec fn text_lines(t: Seq<char>) -> Seq<Seq<char>> {
    let (done, cur) = line_state(t);
    if cur.len() == 0 {
        done
    } else {
        done.push(cur)
    }
}

/// The first `n` lines but those from position `lo` to before `hi`.
pub open spec fn kept_lines(lines: Seq<Seq<char>>, lo: int, hi: int, n: int) -> Seq<Seq<char>>
    decreases n,
{
    if n <= 0 {
        Seq::empty()
    } else {
        let k = kept_lines(lines, lo, hi, n - 1);
        if n - 1 < lo || n - 1 >= hi {
            k.push(lines[n - 1])
        } else {
            k
        }
    }
}

/// The lines of a text.
pub fn lines_of(text: &str) -> (r: Vec<Vec<char>>)
    ensures
        r@.map_values(|l: Vec<char>| l@) == text_lines(text@),
{
    let t = chars_of(text);
    let mut done: Vec<Vec<char>> = Vec::new();
    let mut cur: Vec<char> = Vec::new();
    let mut i: usize = 0;
    while i < t.len()
        invariant
            t@ == text@,
            i <= t@.len(),
            (done@.map_values(|l: Vec<char>| l@), cur@) == line_state(t@.take(i as int)),
        decreases t@.len() - i,
    {
        proof {
            assert(t@.take(i + 1).drop_last() =~= t@.take(i as int));
        }
        let c = t[i];
        if c == '\n' {
            let ghost before = done@.map_values(|l: Vec<char>| l@);
            let ghost old_cur = cur@;
            let n = cur.len();
            if n > 0 && cur[n - 1] == '\r' {
                cur.pop();
            }
            let mut line: Vec<char> = Vec::new();
            std::mem::swap(&mut line, &mut cur);
            done.push(line);
            proof {
                assert(line@ == strip_cr(old_cur)) by {
                    if old_cur.len() > 0 && old_cur.last() == '\r' {
                        assert(line@ =~= old_cur.drop_last());
                    }
                }
                assert(done@.map_values(|l: Vec<char>| l@) =~= before.push(strip_cr(old_cur)));
                assert(cur@ =~= Seq::<char>::empty());
            }
        } else {
            cur.push(c);
        }
        i = i + 1;
    }
    proof {
        assert(t@.take(t@.len() as int) =~= t@);
    }
    if cur.len() > 0 {
        let ghost before = done@.map_values(|l: Vec<char>| l@);
        done.push(cur);
        proof {
            assert(done@.map_values(|l: Vec<char>| l@) =~= before.push(done@.last()@));
        }
    }
    done
}

/// The lines joined with `\n`.
fn join_lines_text(lines: &Vec<Vec<char>>) -> (r: String)
    ensures
        r@ == join_parts(lines@.map_values(|l: Vec<char>| l@), '\n'),
{
    let mut out: Vec<char> = Vec::new();
    let mut i: usize = 0;
    while i < lines.len()
        invariant
            i <= lines@.len(),
            out@ == join_parts(lines@.take(i as int).map_values(|l: Vec<char>| l@), '\n'),
        decreases lines@.len() - i,
    {
        let ghost before = out@;
        if i > 0 {
            out.push('\n');
        }
        let mut j: usize = 0;
        let ghost mid = out@;
        while j < lines[i].len()
            invariant
                i < lines@.len(),
                j <= lines@[i as int]@.len(),
                out@ == mid + lines@[i as int]@.take(j as int),
            decreases lines@[i as int]@.len() - j,
        {
            out.push(lines[i][j]);
            proof {
                assert(lines@[i as int]@.take(j + 1) =~= lines@[i as int]@.take(j as int).push(lines@[i as int]@[j as int]));
            }
            j = j + 1;
        }
        proof {
            assert(lines@[i as int]@.take(j as int) =~= lines@[i as int]@);
            let vs = lines@.take(i + 1).map_values(|l: Vec<char>| l@);
            assert(vs.drop_last() =~= lines@.take(i as int).map_values(|l: Vec<char>| l@));
            assert(vs.last() == lines@[i as int]@);
            assert(out@ =~= join_parts(vs, '\n'));
        }
        i = i + 1;
    }
    proof {
        assert(lines@.take(lines@.len() as int) =~= lines@);
    }
    string_from_chars(&out)
}

/// The text with its lines from `start` to `end` (counted from one, both included) replaced
/// by one line of `content`, the lines joined with `\n`. `None` where no such line can be
/// put: `start` is zero, `end` is zero while lines come from `start` on, or `start` lies
/// past the lines that are kept and one more.
pub fn replace_lines(text: &str, content: &str, start: usize, end: usize) -> (r: Option<String>)
    ensures
        ({
            let lines = text_lines(text@);
            let kept = kept_lines(lines, start - 1, end as int, lines.len() as int);
            let ok = start >= 1 && (end >= 1 || lines.len() <= start - 1) && start - 1 <= kept.len();
            match r {
                Some(s) => ok && s@ == join_parts(kept.insert(start - 1, content@), '\n'),
                None => !ok,
            }
        }),
{
    let lines = lines_of(text);
    let ghost ls = text_lines(text@);
    if start == 0 || (end == 0 && lines.len() > start - 1) {
        return None;
    }
    let mut kept: Vec<Vec<char>> = Vec::new();
    let mut i: usize = 0;
    while i < lines.len()
        invariant
            lines@.map_values(|l: Vec<char>| l@) == ls,
            start >= 1,
            end >= 1 || lines.len() <= start - 1,
            i <= lines.len(),
            kept@.map_values(|l: Vec<char>| l@) == kept_lines(ls, start - 1, end as int, i as int),
        decreases lines.len() - i,
    {
        let ghost before = kept@.map_values(|l: Vec<char>| l@);
        if i < start - 1 || i >= end {
            kept.push(lines[i].clone());
            proof {
                assert(kept@.map_values(|l: Vec<char>| l@) =~= before.push(ls[i as int]));
            }
        }
        i = i + 1;
    }
    if start - 1 > kept.len() {
        return None;
    }
    let ghost before = kept@.map_values(|l: Vec<char>| l@);
    kept.insert(start - 1, chars_of(content));
    proof {
        assert(kept@.map_values(|l: Vec<char>| l@) =~= before.insert(start - 1, content@));
    }
    Some(join_lines_text(&kept))
}

/// The text with one line of `content` put before its line at `at` (counted from zero), or
/// after its last line when it has no more than `at` lines, the lines joined with `\n`.
pub fn insert_line(text: &str, content: &str, at: usize) -> (r: String)
    ensures
        ({
            let lines = text_lines(text@);
            let pos = if at < lines.len() { at as int } else { lines.len() as int };
            r@ == join_parts(lines.insert(pos, content@), '\n')
        }),
{
    let mut lines = lines_of(text);
    let pos = if at < lines.len() { at } else { lines.len() };
    let ghost before = lines@.map_values(|l: Vec<char>| l@);
    lines.insert(pos, chars_of(content));
    proof {
        assert(lines@.map_values(|l: Vec<char>| l@) =~= before.insert(pos as int, content@));
    }
    join_lines_text(&lines)
}

} // verus!
