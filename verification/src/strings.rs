use vstd::prelude::*;

verus! {

/// Appends one character. (`String::push`.)
#[verifier::external_body]
pub fn push_char(s: &mut String, c: char)
    ensures
        final(s)@ == old(s)@.push(c),
{
    s.push(c);
}

/// A string holding the given characters.
pub fn string_from_chars(v: &Vec<char>) -> (r: String)
    ensures
        r@ == v@,
{
    let mut r = String::new();
    let mut i: usize = 0;
    while i < v.len()
        invariant
            i <= v@.len(),
            r@ == v@.subrange(0, i as int),
        decreases v@.len() - i,
    {
        push_char(&mut r, v[i]);
        proof {
            assert(v@.subrange(0, i as int).push(v@[i as int]) =~= v@.subrange(0, i + 1));
        }
        i = i + 1;
    }
    proof {
        assert(v@.subrange(0, v@.len() as int) =~= v@);
    }
    r
}

/// The characters of a string.
pub fn chars_of(s: &str) -> (r: Vec<char>)
    ensures
        r@ == s@,
{
    let mut r: Vec<char> = Vec::new();
    for c in it: s.chars()
        invariant
            r@ == it.seq().subrange(0, it.index() as int),
            it.seq() == s@,
    {
        r.push(c);
        proof {
            assert(it.seq().subrange(0, it.index() as int).push(c) =~= it.seq().subrange(0, it.index() + 1));
        }
    }
    r
}

} // verus!

verus! {

/// Whether the characters of `s` are exactly `v`.
pub fn str_eq_chars(s: &str, v: &Vec<char>) -> (r: bool)
    ensures
        r == (s@ == v@),
{
    let cs = chars_of(s);
    if cs.len() != v.len() {
        return false;
    }
    let mut i: usize = 0;
    while i < cs.len()
        invariant
            cs@ == s@,
            cs@.len() == v@.len(),
            i <= cs@.len(),
            forall|j: int| 0 <= j < i ==> cs@[j] == v@[j],
        decreases cs@.len() - i,
    {
        if cs[i] != v[i] {
            return false;
        }
        i = i + 1;
    }
    assert(cs@ =~= v@);
    true
}

/// Appends the characters of `s`.
pub fn push_str_chars(out: &mut Vec<char>, s: &str)
    ensures
        final(out)@ == old(out)@ + s@,
{
    let cs = chars_of(s);
    let ghost start = out@;
    let mut i: usize = 0;
    while i < cs.len()
        invariant
            cs@ == s@,
            i <= cs@.len(),
            out@ == start + cs@.subrange(0, i as int),
        decreases cs@.len() - i,
    {
        out.push(cs[i]);
        proof {
            assert(start + cs@.subrange(0, i as int).push(cs@[i as int]) =~= start + cs@.subrange(0, i + 1));
        }
        i = i + 1;
    }
    assert(cs@.subrange(0, cs@.len() as int) =~= cs@);
}

/// Appends a string's characters.
pub fn push_string_chars(out: &mut Vec<char>, s: &String)
    ensures
        final(out)@ == old(out)@ + s@,
{
    push_str_chars(out, s.as_str());
}

/// Joins the parts with `sep` between neighbours.
pub open spec fn join_parts(parts: Seq<Seq<char>>, sep: char) -> Seq<char>
    decreases parts.len(),
{
    if parts.len() == 0 {
        Seq::empty()
    } else if parts.len() == 1 {
        parts[0]
    } else {
        join_parts(parts.drop_last(), sep) + seq![sep] + parts.last()
    }
}

pub open spec fn string_views(v: Seq<String>) -> Seq<Seq<char>> {
    v.map_values(|s: String| s@)
}

/// The strings joined with `sep`.
pub fn join_strings(parts: &Vec<String>, sep: char) -> (r: String)
    ensures
        r@ == join_parts(string_views(parts@), sep),
{
    let mut out: Vec<char> = Vec::new();
    let mut i: usize = 0;
    while i < parts.len()
        invariant
            i <= parts@.len(),
            out@ == join_parts(string_views(parts@.take(i as int)), sep),
        decreases parts@.len() - i,
    {
        let ghost before = out@;
        if i > 0 {
            out.push(sep);
        }
        push_string_chars(&mut out, &parts[i]);
        proof {
            let vs = string_views(parts@.take(i + 1));
            assert(vs.drop_last() =~= string_views(parts@.take(i as int)));
            assert(vs.last() == parts@[i as int]@);
            if i == 0 {
                assert(out@ =~= join_parts(vs, sep));
            } else {
                assert(out@ =~= join_parts(vs, sep));
            }
        }
        i = i + 1;
    }
    assert(parts@.take(parts@.len() as int) =~= parts@);
    string_from_chars(&out)
}

pub open spec fn has_no_char(s: Seq<char>, c: char) -> bool {
    forall|i: int| 0 <= i < s.len() ==> s[i] != c
}

/// The parts of `v` between occurrences of `sep`.
pub fn split_on(v: &Vec<char>, sep: char) -> (r: Vec<Vec<char>>)
    ensures
        r@.len() >= 1,
        join_parts(r@.map_values(|p: Vec<char>| p@), sep) == v@,
        forall|i: int| 0 <= i < r@.len() ==> has_no_char(#[trigger] r@[i]@, sep),
{
    let mut parts: Vec<Vec<char>> = Vec::new();
    let mut cur: Vec<char> = Vec::new();
    let mut i: usize = 0;
    while i < v.len()
        invariant
            i <= v@.len(),
            join_parts(parts@.map_values(|p: Vec<char>| p@).push(cur@), sep) == v@.take(i as int),
            forall|j: int| 0 <= j < parts@.len() ==> has_no_char(#[trigger] parts@[j]@, sep),
            has_no_char(cur@, sep),
        decreases v@.len() - i,
    {
        let c = v[i];
        let ghost pv = parts@.map_values(|p: Vec<char>| p@);
        if c == sep {
            let ghost old_cur = cur@;
            let mut done: Vec<char> = Vec::new();
            std::mem::swap(&mut done, &mut cur);
            parts.push(done);
            proof {
                assert(parts@.map_values(|p: Vec<char>| p@) =~= pv.push(old_cur));
                let np = pv.push(old_cur).push(cur@);
                assert(np.drop_last() =~= pv.push(old_cur));
                assert(cur@ =~= Seq::<char>::empty());
                assert(join_parts(np, sep) =~= v@.take(i + 1));
            }
        } else {
            let ghost old_cur = cur@;
            cur.push(c);
            proof {
                let np = pv.push(cur@);
                let op = pv.push(old_cur);
                assert(np.drop_last() =~= pv);
                assert(op.drop_last() =~= pv);
                assert(v@.take(i + 1) =~= v@.take(i as int).push(c));
                if pv.len() == 0 {
                    assert(join_parts(op, sep) == old_cur);
                    assert(join_parts(np, sep) == cur@);
                    assert(join_parts(np, sep) =~= v@.take(i + 1));
                } else {
                    assert(join_parts(np, sep) =~= join_parts(pv, sep) + seq![sep] + old_cur.push(c));
                    assert(join_parts(np, sep) =~= v@.take(i + 1));
                }
            }
        }
        i = i + 1;
    }
    let ghost pv = parts@.map_values(|p: Vec<char>| p@);
    parts.push(cur);
    proof {
        assert(parts@.map_values(|p: Vec<char>| p@) =~= pv.push(parts@.last()@));
        assert(v@.take(v@.len() as int) =~= v@);
    }
    parts
}

/// A sequence of parts free of `sep` is determined by its join with `sep`.
pub proof fn lemma_split_unique_on(a: Seq<Seq<char>>, b: Seq<Seq<char>>, sep: char)
    requires
        a.len() >= 1,
        b.len() >= 1,
        join_parts(a, sep) == join_parts(b, sep),
        forall|i: int| 0 <= i < a.len() ==> has_no_char(#[trigger] a[i], sep),
        forall|i: int| 0 <= i < b.len() ==> has_no_char(#[trigger] b[i], sep),
    ensures
        a == b,
    decreases a.len() + b.len(),
{
    let ja = join_parts(a, sep);
    if a.len() == 1 && b.len() == 1 {
    } else if a.len() == 1 {
        let jb = join_parts(b.drop_last(), sep);
        assert(ja[jb.len() as int] == sep);
        assert(has_no_char(a[0], sep));
    } else if b.len() == 1 {
        let jaa = join_parts(a.drop_last(), sep);
        assert(ja[jaa.len() as int] == sep);
        assert(has_no_char(b[0], sep));
    } else {
        let pa = join_parts(a.drop_last(), sep);
        let pb = join_parts(b.drop_last(), sep);
        let la = a.last();
        let lb = b.last();
        // the last colon of the join separates the last part
        if la.len() < lb.len() {
            assert(ja[ja.len() - la.len() - 1] == sep);
            assert(ja[ja.len() - la.len() - 1] == lb[lb.len() - la.len() - 1]);
        } else if lb.len() < la.len() {
            assert(ja[ja.len() - lb.len() - 1] == sep);
            assert(ja[ja.len() - lb.len() - 1] == la[la.len() - lb.len() - 1]);
        } else {
            assert(la =~= ja.skip(ja.len() - la.len()));
            assert(lb =~= ja.skip(ja.len() - lb.len()));
            assert(pa =~= ja.take(ja.len() - la.len() - 1));
            assert(pb =~= ja.take(ja.len() - lb.len() - 1));
            lemma_split_unique_on(a.drop_last(), b.drop_last(), sep);
            assert(a =~= a.drop_last().push(la));
            assert(b =~= b.drop_last().push(lb));
        }
    }
}

} // verus!
