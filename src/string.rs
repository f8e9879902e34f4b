//! Cleaning of free-text input: surrounding whitespace removed, inner runs of
//! whitespace collapsed to one space, and an optional change of case.
use vstd::prelude::*;

verus! {

/// A change of case applied by [`clean`].
#[derive(Clone, Copy, Debug, PartialEq, Eq)]
pub enum Transform {
    Unchanged,
    Uppercase,
    Lowercase,
}

/// Unicode `White_Space` characters, the set that `char::is_whitespace`
/// documents.
pub open spec fn is_white(c: char) -> bool {
    let u = c as u32;
    (9 <= u && u <= 13) || u == 32 || u == 0x85 || u == 0xA0 || u == 0x1680 || (0x2000 <= u
        && u <= 0x200A) || u == 0x2028 || u == 0x2029 || u == 0x202F || u == 0x205F || u == 0x3000
}

/// The words of `s` (its maximal runs of non-whitespace characters) joined by
/// single spaces: each kept character is appended, preceded by one space when
/// whitespace separates it from an earlier kept character.
pub open spec fn squeeze(s: Seq<char>) -> Seq<char>
    decreases s.len(),
{
    if s.len() == 0 {
        Seq::empty()
    } else {
        let c = s.last();
        let rest = s.drop_last();
        if is_white(c) {
            squeeze(rest)
        } else if rest.len() > 0 && is_white(rest.last()) && squeeze(rest).len() > 0 {
            squeeze(rest).push(' ').push(c)
        } else {
            squeeze(rest).push(c)
        }
    }
}

/// What `str::to_uppercase` returns for a string.
pub uninterp spec fn upper_of(s: Seq<char>) -> Seq<char>;

/// What `str::to_lowercase` returns for a string.
pub uninterp spec fn lower_of(s: Seq<char>) -> Seq<char>;

/// Relies on `str::to_uppercase`: the Unicode uppercase mapping of each
/// character, a function of the characters alone.
#[verifier::external_body]
fn to_upper(s: &str) -> (r: String)
    ensures
        r@ == upper_of(s@),
{
    s.to_uppercase()
}

/// Relies on `str::to_lowercase`: the Unicode lowercase mapping of each
/// character, a function of the characters alone.
#[verifier::external_body]
fn to_lower(s: &str) -> (r: String)
    ensures
        r@ == lower_of(s@),
{
    s.to_lowercase()
}

fn white(c: char) -> (r: bool)
    ensures
        r == is_white(c),
{
    let u = c as u32;
    (9 <= u && u <= 13) || u == 32 || u == 0x85 || u == 0xA0 || u == 0x1680 || (0x2000 <= u
        && u <= 0x200A) || u == 0x2028 || u == 0x2029 || u == 0x202F || u == 0x205F || u == 0x3000
}

/// The words of `s` joined by single spaces.
fn collapse(s: &str) -> (r: String)
    ensures
        r@ == squeeze(s@),
{
    let chars = crate::text::chars_of(s);
    let mut out = String::new();
    let mut i: usize = 0;
    let mut gap = false;
    while i < chars.len()
        invariant
            chars@ == s@,
            i <= chars@.len(),
            out@ == squeeze(s@.take(i as int)),
            gap == (i > 0 && is_white(s@[i - 1])),
        decreases chars@.len() - i,
    {
        let c = chars[i];
        let ghost prefix = s@.take(i as int);
        assert(s@.take(i + 1).drop_last() =~= prefix);
        assert(s@.take(i + 1).last() == c);
        if white(c) {
            gap = true;
        } else {
            if gap && out.unicode_len() > 0 {
                crate::text::push_char(&mut out, ' ');
            }
            crate::text::push_char(&mut out, c);
            gap = false;
        }
        i += 1;
    }
    assert(s@.take(chars@.len() as int) =~= s@);
    out
}

/// Trims `s`, replaces each inner run of whitespace by one space, and then
/// applies `transform`.
pub fn clean(s: &str, transform: Transform) -> (r: String)
    ensures
        r@ == match transform {
            Transform::Unchanged => squeeze(s@),
            Transform::Uppercase => upper_of(squeeze(s@)),
            Transform::Lowercase => lower_of(squeeze(s@)),
        },
{
    let words = collapse(s);
    match transform {
        Transform::Unchanged => words,
        Transform::Uppercase => to_upper(words.as_str()),
        Transform::Lowercase => to_lower(words.as_str()),
    }
}

} // verus!
