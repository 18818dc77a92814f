use vstd::prelude::*;

use unicode_categories::UnicodeCategories;

verus! {

/// Whether `c` is of a Unicode "Other" category (Cc, Cf or Co), as the `unicode_categories`
/// crate's tables have it.
pub uninterp spec fn unicode_is_other(c: char) -> bool;

/// Whether `c` is of a Unicode "Separator" category (Zl, Zp or Zs), as the
/// `unicode_categories` crate's tables have it.
pub uninterp spec fn unicode_is_separator(c: char) -> bool;

/// An ASCII letter or digit.
pub open spec fn is_ascii_alphanumeric(c: char) -> bool {
    ('a' <= c <= 'z') || ('A' <= c <= 'Z') || ('0' <= c <= '9')
}

/// `UnicodeCategories::is_other` of the `unicode_categories` crate; its result is a function
/// of the character alone, and its tables hold no ASCII letter or digit (those are of the
/// letter and number categories).
#[verifier::external_body]
fn char_is_other(c: char) -> (r: bool)
    ensures
        r == unicode_is_other(c),
        is_ascii_alphanumeric(c) ==> !r,
{
    c.is_other()
}

/// `UnicodeCategories::is_separator` of the `unicode_categories` crate; its result is a
/// function of the character alone, and its tables hold no ASCII letter or digit.
#[verifier::external_body]
fn char_is_separator(c: char) -> (r: bool)
    ensures
        r == unicode_is_separator(c),
        is_ascii_alphanumeric(c) ==> !r,
{
    c.is_separator()
}

pub open spec fn hex_digit_char(d: int) -> char {
    if d < 10 {
        (d + 48) as char
    } else {
        (d + 87) as char
    }
}

/// Lower-case hexadecimal digits of `n`, without leading zeros.
pub open spec fn hex_digits(n: nat) -> Seq<char>
    decreases n,
{
    if n < 16 {
        seq![hex_digit_char(n as int)]
    } else {
        hex_digits(n / 16).push(hex_digit_char((n % 16) as int))
    }
}

/// What `char::escape_default` writes for a character: the usual backslash escapes for
/// tab, carriage return, line feed, backslash and quotes, printable ASCII as it is, and
/// `\u{..}` with lower-case hexadecimal digits for everything else.
pub open spec fn escape_default_text(c: char) -> Seq<char> {
    if c == '\t' {
        seq!['\\', 't']
    } else if c == '\r' {
        seq!['\\', 'r']
    } else if c == '\n' {
        seq!['\\', 'n']
    } else if c == '\\' || c == '\'' || c == '"' {
        seq!['\\', c]
    } else if 0x20 <= c as int <= 0x7e {
        seq![c]
    } else {
        seq!['\\', 'u', '{'] + hex_digits(c as nat) + seq!['}']
    }
}

/// How a single character is escaped inside a quoted string.
pub open spec fn escape_character_text(c: char) -> Seq<char> {
    if c == '\u{07}' {
        seq!['\\', 'a']
    } else if c == '\u{08}' {
        seq!['\\', 'b']
    } else if c == '\u{0b}' {
        seq!['\\', 'v']
    } else if c == '\u{0c}' {
        seq!['\\', 'f']
    } else if c == '\u{1b}' {
        seq!['\\', 'e']
    } else {
        escape_default_text(c)
    }
}

/// What a character becomes between the quotes.
pub open spec fn escape_one(c: char) -> Seq<char> {
    if c == '"' {
        seq!['\\', '"']
    } else if c == '\\' {
        seq!['\\', '\\']
    } else if c == ' ' {
        seq![' ']
    } else if c == '$' {
        seq!['\\', '$']
    } else if c == '`' {
        seq!['\\', '`']
    } else if unicode_is_other(c) || unicode_is_separator(c) {
        escape_character_text(c)
    } else {
        seq![c]
    }
}

/// The escaped characters of `s`, one after the other.
pub open spec fn escape_body(s: Seq<char>) -> Seq<char>
    decreases s.len(),
{
    if s.len() == 0 {
        Seq::empty()
    } else {
        escape_body(s.drop_last()) + escape_one(s.last())
    }
}

/// `s` escaped and put between double quotes.
pub open spec fn quoted_text(s: Seq<char>) -> Seq<char> {
    seq!['"'] + escape_body(s) + seq!['"']
}

fn push_hex(out: &mut Vec<char>, n: u32)
    ensures
        final(out)@ == old(out)@ + hex_digits(n as nat),
    decreases n,
{
    if n >= 16 {
        push_hex(out, n / 16);
    }
    let d = n % 16;
    let c = if d < 10 { ((d as u8) + 48u8) as char } else { ((d as u8) + 87u8) as char };
    out.push(c);
}

fn push_escape_default(out: &mut Vec<char>, c: char)
    ensures
        final(out)@ == old(out)@ + escape_default_text(c),
{
    let ghost start = out@;
    if c == '\t' {
        out.push('\\');
        out.push('t');
    } else if c == '\r' {
        out.push('\\');
        out.push('r');
    } else if c == '\n' {
        out.push('\\');
        out.push('n');
    } else if c == '\\' || c == '\'' || c == '"' {
        out.push('\\');
        out.push(c);
    } else if 0x20 <= c as u32 && c as u32 <= 0x7e {
        out.push(c);
    } else {
        out.push('\\');
        out.push('u');
        out.push('{');
        push_hex(out, c as u32);
        out.push('}');
    }
    proof {
        assert(out@ =~= start + escape_default_text(c));
    }
}

fn push_escape_character(out: &mut Vec<char>, c: char)
    ensures
        final(out)@ == old(out)@ + escape_character_text(c),
{
    let ghost start = out@;
    if c == '\u{07}' {
        out.push('\\');
        out.push('a');
    } else if c == '\u{08}' {
        out.push('\\');
        out.push('b');
    } else if c == '\u{0b}' {
        out.push('\\');
        out.push('v');
    } else if c == '\u{0c}' {
        out.push('\\');
        out.push('f');
    } else if c == '\u{1b}' {
        out.push('\\');
        out.push('e');
    } else {
        push_escape_default(out, c);
    }
    proof {
        assert(out@ =~= start + escape_character_text(c));
    }
}

/// How a character is written inside a quoted string: the bell, backspace, vertical tab,
/// form feed and escape characters as `\a \b \v \f \e`, everything else as
/// `char::escape_default` writes it.
pub fn escape_character(c: char) -> (r: String)
    ensures
        r@ == escape_character_text(c),
{
    let mut out: Vec<char> = Vec::new();
    push_escape_character(&mut out, c);
    assert(out@ =~= escape_character_text(c));
    crate::strings::string_from_chars(&out)
}

/// Appends `s` escaped and between double quotes.
pub fn push_quoted(out: &mut Vec<char>, s: &str)
    ensures
        final(out)@ == old(out)@ + quoted_text(s@),
        forall|j: int|
            0 <= j < s@.len() && is_ascii_alphanumeric(#[trigger] s@[j]) ==> !unicode_is_other(s@[j])
                && !unicode_is_separator(s@[j]),
{
    let cs = crate::strings::chars_of(s);
    let ghost start = out@;
    out.push('"');
    let mut i: usize = 0;
    while i < cs.len()
        invariant
            i <= cs@.len(),
            out@ == start + seq!['"'] + escape_body(cs@.take(i as int)),
            cs@ == s@,
            forall|j: int|
                0 <= j < i && is_ascii_alphanumeric(#[trigger] cs@[j]) ==> !unicode_is_other(cs@[j])
                    && !unicode_is_separator(cs@[j]),
        decreases cs@.len() - i,
    {
        let c = cs[i];
        let ghost before = out@;
        if c == '"' {
            out.push('\\');
            out.push('"');
        } else if c == '\\' {
            out.push('\\');
            out.push('\\');
        } else if c == ' ' {
            out.push(c);
        } else if c == '$' {
            out.push('\\');
            out.push('$');
        } else if c == '`' {
            out.push('\\');
            out.push('`');
        } else if char_is_other(c) || char_is_separator(c) {
            push_escape_character(out, c);
        } else {
            out.push(c);
        }
        proof {
            assert(cs@.take(i + 1).drop_last() =~= cs@.take(i as int));
            assert(out@ =~= before + escape_one(c));
        }
        i = i + 1;
    }
    out.push('"');
    proof {
        assert(cs@.take(cs@.len() as int) =~= cs@);
        assert(out@ =~= start + quoted_text(s@));
    }
}

/// Escaping never shortens a text.
proof fn lemma_escape_body_len(s: Seq<char>)
    ensures
        escape_body(s).len() >= s.len(),
    decreases s.len(),
{
    if s.len() > 0 {
        lemma_escape_body_len(s.drop_last());
        let c = s.last();
        assert(escape_one(c).len() >= 1) by {
            if unicode_is_other(c) || unicode_is_separator(c) {
                lemma_escape_character_nonempty(c);
            }
        }
    }
}

proof fn lemma_escape_character_nonempty(c: char)
    ensures
        escape_character_text(c).len() >= 1,
{
}

/// Letters and digits need no escape.
proof fn lemma_escape_plain(s: Seq<char>)
    requires
        forall|j: int|
            0 <= j < s.len() ==> is_ascii_alphanumeric(#[trigger] s[j]) && !unicode_is_other(s[j]) && !unicode_is_separator(
                s[j],
            ),
    ensures
        escape_body(s) == s,
    decreases s.len(),
{
    if s.len() > 0 {
        lemma_escape_plain(s.drop_last());
        assert(s.last() == s[s.len() - 1]);
        assert(s.drop_last() + seq![s.last()] =~= s);
    }
}

/// `s` between double quotes, with quotes, backslashes, `$`, `` ` `` and the characters of
/// the Unicode "Other" and "Separator" categories other than the space escaped: text of
/// ASCII letters and digits only is just put between the quotes. Reading the result back as
/// a quoted word gives `s` again (see `crate::lexer::string_of_token`).
pub fn escape_with_quote(s: &str) -> (r: String)
    ensures
        r@ == quoted_text(s@),
        r@.len() >= s@.len() + 2,
        r@[0] == '"' && r@.last() == '"',
        (forall|j: int| 0 <= j < s@.len() ==> is_ascii_alphanumeric(#[trigger] s@[j])) ==> r@ == seq!['"'] + s@ + seq!['"'],
{
    let mut out: Vec<char> = Vec::new();
    push_quoted(&mut out, s);
    assert(out@ =~= quoted_text(s@));
    proof {
        lemma_escape_body_len(s@);
        if forall|j: int| 0 <= j < s@.len() ==> is_ascii_alphanumeric(#[trigger] s@[j]) {
            lemma_escape_plain(s@);
        }
    }
    crate::strings::string_from_chars(&out)
}

} // verus!
