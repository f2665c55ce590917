use vstd::prelude::*;

verus! {

/// `String::push` of the standard library appends one character to the end of
/// the string and leaves the rest as it was.
pub assume_specification[ String::push ](s: &mut String, c: char)
    ensures
        final(s)@ == old(s)@.push(c),
;

/// The characters of `s`, in order.
pub fn chars_of(s: &str) -> (out: Vec<char>)
    ensures
        out@ == s@,
{
    let mut out: Vec<char> = Vec::new();
    for c in it: s.chars()
        invariant
            it.seq() == s@,
            out@ == it.seq().take(it.index() as int),
    {
        out.push(c);
    }
    out
}

/// Whether the characters `v` spell exactly the text `word`.
pub fn spells(v: &Vec<char>, word: &str) -> (same: bool)
    ensures
        same == (v@ == word@),
{
    let mut i: usize = 0;
    for c in it: word.chars()
        invariant
            it.seq() == word@,
            i == it.index(),
            i <= v.len(),
            v@.take(i as int) == word@.take(i as int),
    {
        if i >= v.len() || v[i] != c {
            proof {
                if i < v.len() {
                    assert(v@[i as int] != word@[i as int]);
                }
            }
            return false;
        }
        proof {
            assert(v@.take(i + 1) =~= v@.take(i as int).push(v@[i as int]));
            assert(word@.take(i + 1) =~= word@.take(i as int).push(word@[i as int]));
        }
        i += 1;
    }
    proof {
        assert(word@.take(i as int) =~= word@);
        if i == v.len() {
            assert(v@.take(i as int) =~= v@);
        }
    }
    i == v.len()
}

/// Whether two texts hold the same characters.
pub fn same_text(a: &str, b: &str) -> (same: bool)
    ensures
        same == (a@ == b@),
{
    let v = chars_of(a);
    spells(&v, b)
}

/// The text made of `v[from..to]`.
pub fn text_of(v: &Vec<char>, from: usize, to: usize) -> (out: String)
    requires
        from <= to <= v.len(),
    ensures
        out@ == v@.subrange(from as int, to as int),
{
    let mut out = String::new();
    let mut i: usize = from;
    while i < to
        invariant
            from <= i <= to <= v.len(),
            out@ == v@.subrange(from as int, i as int),
        decreases to - i,
    {
        out.push(v[i]);
        proof {
            assert(v@.subrange(from as int, i + 1) =~= v@.subrange(from as int, i as int).push(
                v@[i as int],
            ));
        }
        i += 1;
    }
    out
}

} // verus!
