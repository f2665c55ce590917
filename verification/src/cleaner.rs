use vstd::prelude::*;
use crate::chars::is_space;
use crate::text::{chars_of, text_of};

verus! {

/// The source from position `i` on without its comments and line breaks. A
/// comment runs from `//` to the end of its line; `skipping` tells whether
/// position `i` lies inside one.
pub open spec fn strip_from(s: Seq<char>, i: int, skipping: bool) -> Seq<char>
    decreases s.len() - i,
{
    if i < 0 || i >= s.len() {
        Seq::<char>::empty()
    } else if s[i] == '\n' {
        strip_from(s, i + 1, false)
    } else if skipping {
        strip_from(s, i + 1, true)
    } else if s[i] == '/' && i + 1 < s.len() && s[i + 1] == '/' {
        strip_from(s, i + 1, true)
    } else {
        seq![s[i]] + strip_from(s, i + 1, false)
    }
}

/// The source without its comments, its lines joined with nothing between them.
pub open spec fn without_comments(s: Seq<char>) -> Seq<char> {
    strip_from(s, 0, false)
}

/// The first position from `from` on that holds no white space; the length
/// of the text where there is none.
pub open spec fn spaces_end(s: Seq<char>, from: int) -> int
    decreases s.len() - from,
{
    if from < 0 || from >= s.len() {
        s.len() as int
    } else if is_space(s[from]) {
        spaces_end(s, from + 1)
    } else {
        from
    }
}

/// A run of white space ends at or behind its start, within the text.
pub proof fn lemma_spaces_end(s: Seq<char>, from: int)
    requires
        0 <= from <= s.len(),
    ensures
        from <= spaces_end(s, from) <= s.len(),
    decreases s.len() - from,
{
    if from < s.len() && is_space(s[from]) {
        lemma_spaces_end(s, from + 1);
    }
}

/// The text from position `i` on, with one blank in place of every run of
/// two or more white-space characters. A white-space character that stands
/// alone stays as it is.
pub open spec fn collapse_from(s: Seq<char>, i: int) -> Seq<char>
    decreases s.len() - i,
{
    if i < 0 || i >= s.len() {
        Seq::<char>::empty()
    } else if spaces_end(s, i) >= i + 2 {
        proof {
            lemma_spaces_end(s, i);
        }
        seq![' '] + collapse_from(s, spaces_end(s, i))
    } else {
        seq![s[i]] + collapse_from(s, i + 1)
    }
}

/// The text with one blank in place of every run of two or more white-space
/// characters.
pub open spec fn collapse_spaces(s: Seq<char>) -> Seq<char> {
    collapse_from(s, 0)
}

/// The text from position `i` on, with `with` in place of every `first`
/// that `second` follows; found from left to right, no character used twice.
pub open spec fn replace_from(s: Seq<char>, i: int, first: char, second: char, with: char) -> Seq<
    char,
>
    decreases s.len() - i,
{
    if i < 0 || i >= s.len() {
        Seq::<char>::empty()
    } else if s[i] == first && i + 1 < s.len() && s[i + 1] == second {
        seq![with] + replace_from(s, i + 2, first, second, with)
    } else {
        seq![s[i]] + replace_from(s, i + 1, first, second, with)
    }
}

/// The text without the blank behind `;` and `{` and without the blank
/// before `}` and `)`; the four are taken out one after the other, in this order.
pub open spec fn tidied(s: Seq<char>) -> Seq<char> {
    let a = replace_from(s, 0, ';', ' ', ';');
    let b = replace_from(a, 0, '{', ' ', '{');
    let c = replace_from(b, 0, ' ', '}', '}');
    replace_from(c, 0, ' ', ')', ')')
}

/// The dense text that the lexer is given: comments and line breaks taken
/// out, runs of white space collapsed, blanks round punctuation removed.
pub open spec fn cleaned(s: Seq<char>) -> Seq<char> {
    tidied(collapse_spaces(without_comments(s)))
}

/// Calls `Regex::new` and `Regex::replace_all` of the regex crate. For the
/// pattern `\s{2,}` and a replacement of one blank, the crate replaces every
/// match, found from left to right without overlap, by the blank; a match is
/// a longest run of two or more characters of the class `White_Space`. The
/// pattern compiles, so nothing fails.
#[verifier::external_body]
fn replace_all(pattern: &str, haystack: &str, with: &str) -> (out: String)
    requires
        pattern@ == "\\s{2,}"@,
        with@ == " "@,
    ensures
        out@ == collapse_spaces(haystack@),
{
    regex::Regex::new(pattern).unwrap().replace_all(haystack, with).into_owned()
}

/// Takes comments and line breaks out.
pub fn strip_comments(code: &str) -> (out: String)
    ensures
        out@ == without_comments(code@),
{
    let chars = chars_of(code);
    let mut kept: Vec<char> = Vec::new();
    let mut skipping = false;
    let mut i: usize = 0;
    while i < chars.len()
        invariant
            i <= chars.len(),
            chars@ == code@,
            kept@ + strip_from(chars@, i as int, skipping) == without_comments(code@),
        decreases chars.len() - i,
    {
        let c = chars[i];
        let ghost before = kept@;
        if c == '\n' {
            skipping = false;
        } else if skipping {
        } else if c == '/' && i + 1 < chars.len() && chars[i + 1] == '/' {
            skipping = true;
        } else {
            kept.push(c);
            proof {
                assert(before.push(c) + strip_from(chars@, i + 1, false) =~= before + (seq![c]
                    + strip_from(chars@, i + 1, false)));
            }
        }
        i += 1;
    }
    proof {
        assert(kept@ + Seq::<char>::empty() =~= kept@);
    }
    let n = kept.len();
    let out = text_of(&kept, 0, n);
    proof {
        assert(kept@.subrange(0, n as int) =~= kept@);
    }
    out
}

/// One pass of [`replace_from`] over the whole text.
fn replace_pair(chars: &Vec<char>, first: char, second: char, with: char) -> (out: Vec<char>)
    ensures
        out@ == replace_from(chars@, 0, first, second, with),
{
    let mut out: Vec<char> = Vec::new();
    let mut i: usize = 0;
    while i < chars.len()
        invariant
            i <= chars.len(),
            out@ + replace_from(chars@, i as int, first, second, with) == replace_from(
                chars@,
                0,
                first,
                second,
                with,
            ),
        decreases chars.len() - i,
    {
        let ghost before = out@;
        if chars[i] == first && i + 1 < chars.len() && chars[i + 1] == second {
            out.push(with);
            proof {
                assert(before.push(with) + replace_from(chars@, i + 2, first, second, with)
                    =~= before + (seq![with] + replace_from(chars@, i + 2, first, second, with)));
            }
            i += 2;
        } else {
            out.push(chars[i]);
            proof {
                assert(before.push(chars@[i as int]) + replace_from(
                    chars@,
                    i + 1,
                    first,
                    second,
                    with,
                ) =~= before + (seq![chars@[i as int]] + replace_from(
                    chars@,
                    i + 1,
                    first,
                    second,
                    with,
                )));
            }
            i += 1;
        }
    }
    proof {
        assert(out@ + Seq::<char>::empty() =~= out@);
    }
    out
}

/// Removes the blank behind `;` and `{` and the blank before `}` and `)`.
pub fn tidy(text: &str) -> (out: String)
    ensures
        out@ == tidied(text@),
{
    let chars = chars_of(text);
    let a = replace_pair(&chars, ';', ' ', ';');
    let b = replace_pair(&a, '{', ' ', '{');
    let c = replace_pair(&b, ' ', '}', '}');
    let d = replace_pair(&c, ' ', ')', ')');
    let n = d.len();
    let out = text_of(&d, 0, n);
    proof {
        assert(d@.subrange(0, n as int) =~= d@);
    }
    out
}

/// Prepares a source text for the lexer: takes out comments and line
/// breaks, puts one blank for every run of white space, and removes the
/// blanks round punctuation.
pub fn clean_code(code_raw: String) -> (out: String)
    ensures
        out@ == cleaned(code_raw@),
{
    let joined = strip_comments(code_raw.as_str());
    let collapsed = replace_all("\\s{2,}", joined.as_str(), " ");
    tidy(collapsed.as_str())
}

} // verus!
