use vstd::prelude::*;
use vstd::string::StrSliceExecFns;

verus! {

/// Unicode's White_Space property.
pub open spec fn is_white(c: char) -> bool {
    ||| '\u{9}' <= c <= '\u{d}'
    ||| c == ' '
    ||| c == '\u{85}'
    ||| c == '\u{a0}'
    ||| c == '\u{1680}'
    ||| '\u{2000}' <= c <= '\u{200a}'
    ||| c == '\u{2028}'
    ||| c == '\u{2029}'
    ||| c == '\u{202f}'
    ||| c == '\u{205f}'
    ||| c == '\u{3000}'
}

pub open spec fn trim_start(s: Seq<char>) -> Seq<char>
    decreases s.len(),
{
    if s.len() > 0 && is_white(s[0]) {
        trim_start(s.skip(1))
    } else {
        s
    }
}

pub open spec fn trim_end(s: Seq<char>) -> Seq<char>
    decreases s.len(),
{
    if s.len() > 0 && is_white(s.last()) {
        trim_end(s.drop_last())
    } else {
        s
    }
}

/// `s` without leading and trailing white space.
pub open spec fn trim(s: Seq<char>) -> Seq<char> {
    trim_end(trim_start(s))
}

/// Relies on `str::trim`: removes leading and trailing characters that have
/// the White_Space property.
#[verifier::external_body]
pub(crate) fn trim_str(s: &str) -> (r: &str)
    ensures
        r@ == trim(s@),
{
    s.trim()
}

/// The end of the line that starts at `pos`: just past its newline, or the
/// end of the text.
pub open spec fn line_end(text: Seq<char>, pos: int) -> int
    decreases text.len() - pos,
{
    if pos < 0 || pos >= text.len() {
        text.len() as int
    } else if text[pos] == '\n' {
        pos + 1
    } else {
        line_end(text, pos + 1)
    }
}

pub proof fn lemma_line_end_bounds(text: Seq<char>, pos: int)
    requires
        0 <= pos < text.len(),
    ensures
        pos < line_end(text, pos) <= text.len(),
    decreases text.len() - pos,
{
    if text[pos] != '\n' {
        if pos + 1 < text.len() {
            lemma_line_end_bounds(text, pos + 1);
        } else {
            assert(line_end(text, pos + 1) == text.len());
        }
    }
}

/// The characters of `s`.
pub(crate) fn chars_of(s: &str) -> (r: Vec<char>)
    ensures
        r@ == s@,
{
    broadcast use vstd::string::axiom_spec_iter;

    let mut r: Vec<char> = Vec::new();
    for c in it: s.chars()
        invariant
            r@ == it.seq().take(it.index()),
    {
        r.push(c);
        assert(r@ =~= it.seq().take(it.index() + 1));
    }
    assert(r@ =~= s@);
    r
}

/// Relies on `String::push`: appends `c` to `s`.
#[verifier::external_body]
fn push_char(s: &mut String, c: char)
    ensures
        final(s)@ == old(s)@.push(c),
{
    s.push(c)
}

/// The characters of `text` from `from` up to `to`, as a string.
pub(crate) fn string_of(text: &Vec<char>, from: usize, to: usize) -> (r: String)
    requires
        from <= to <= text@.len(),
    ensures
        r@ == text@.subrange(from as int, to as int),
{
    let mut r = String::new();
    let mut i = from;
    while i < to
        invariant
            from <= i <= to <= text@.len(),
            r@ == text@.subrange(from as int, i as int),
        decreases to - i,
    {
        push_char(&mut r, text[i]);
        i = i + 1;
        assert(r@ =~= text@.subrange(from as int, i as int));
    }
    r
}

/// The end of the line of `text` that starts at `pos`.
pub(crate) fn find_line_end(text: &Vec<char>, pos: usize) -> (r: usize)
    requires
        pos < text@.len(),
    ensures
        r == line_end(text@, pos as int),
        pos < r <= text@.len(),
{
    proof {
        lemma_line_end_bounds(text@, pos as int);
    }
    let mut i = pos;
    while i < text.len() && text[i] != '\n'
        invariant
            pos <= i <= text@.len(),
            line_end(text@, i as int) == line_end(text@, pos as int),
        decreases text@.len() - i,
    {
        i = i + 1;
    }
    if i < text.len() {
        i + 1
    } else {
        i
    }
}

} // verus!
