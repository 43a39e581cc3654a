//! Sanitization of a file extension before the OS icon lookup.
//!
//! The extension is trimmed, lowercased, truncated to 20 characters, and
//! stripped of everything but ASCII letters, digits and dots. An empty
//! result means the lookup is skipped and the caller answers with an empty
//! icon; the lookup itself is platform work outside the library.

use vstd::prelude::*;

verus! {

/// What `str::trim` returns for these characters. Named, not spelled out:
/// the exact Unicode whitespace set is the standard library's.
pub uninterp spec fn trimmed_of(s: Seq<char>) -> Seq<char>;

/// What `str::to_lowercase` returns for these characters. Named, not
/// spelled out: the result depends on the characters alone.
pub uninterp spec fn lower_of(s: Seq<char>) -> Seq<char>;

/// Relies on `str::trim`: whitespace removed from both ends.
#[verifier::external_body]
fn trim_str(s: &str) -> (r: String)
    ensures
        r@ == trimmed_of(s@),
{
    s.trim().to_owned()
}

/// Relies on `str::to_lowercase`: the lowercased text, handed back as its
/// characters.
#[verifier::external_body]
fn lowercase_chars(s: &str) -> (r: Vec<char>)
    ensures
        r@ == lower_of(s@),
{
    s.to_lowercase().chars().collect()
}

/// Relies on `String`'s `FromIterator` over characters: the string of
/// exactly these characters.
#[verifier::external_body]
fn chars_to_string(v: &Vec<char>) -> (s: String)
    ensures
        s@ == v@,
{
    v.iter().collect()
}

/// A character that survives sanitization: an ASCII letter, an ASCII
/// digit, or a dot.
pub open spec fn is_kept_char(c: char) -> bool {
    (97 <= c as u32 && c as u32 <= 122) || (65 <= c as u32 && c as u32 <= 90) || (48 <= c as u32
        && c as u32 <= 57) || c as u32 == 46
}

/// The subsequence of kept characters, in order.
pub open spec fn kept_of(s: Seq<char>) -> Seq<char>
    decreases s.len(),
{
    if s.len() == 0 {
        Seq::empty()
    } else {
        let rest = kept_of(s.drop_last());
        if is_kept_char(s.last()) {
            rest.push(s.last())
        } else {
            rest
        }
    }
}

/// The first 20 characters, with everything but ASCII letters, digits and
/// dots removed.
pub open spec fn sanitized(s: Seq<char>) -> Seq<char> {
    kept_of(s.take(if s.len() <= 20 { s.len() as int } else { 20 }))
}

/// Whether a character survives sanitization.
fn keep_char(c: char) -> (r: bool)
    ensures
        r == is_kept_char(c),
{
    let u = c as u32;
    (97 <= u && u <= 122) || (65 <= u && u <= 90) || (48 <= u && u <= 57) || u == 46
}

/// The sanitized form of a file extension: trimmed, lowercased, cut to 20
/// characters, and stripped of everything but ASCII letters, digits and
/// dots.
pub fn sanitize_extension(ext: &str) -> (r: String)
    ensures
        r@ == sanitized(lower_of(trimmed_of(ext@))),
{
    let t = trim_str(ext);
    let low = lowercase_chars(t.as_str());
    let limit = if low.len() <= 20 {
        low.len()
    } else {
        20
    };
    let ghost win = low@.take(limit as int);
    let mut out: Vec<char> = Vec::new();
    for i in 0..limit
        invariant
            limit <= low.len(),
            limit <= 20 || limit == low@.len(),
            win == low@.take(limit as int),
            out@ == kept_of(win.take(i as int)),
    {
        let c = low[i];
        let ghost pre = win.take(i as int);
        proof {
            assert(win.take(i + 1).drop_last() =~= pre);
            assert(win.take(i + 1).last() == low@[i as int]);
        }
        if keep_char(c) {
            out.push(c);
        }
        proof {
            assert(out@ =~= kept_of(win.take(i + 1)));
        }
    }
    proof {
        assert(win.take(limit as int) =~= win);
        assert(out@ == sanitized(low@));
    }
    chars_to_string(&out)
}

/// The decision behind the icon command: `None` when the sanitized
/// extension is empty, in which case the answer is an empty icon with no
/// lookup made; otherwise the non-empty sanitized extension the platform
/// lookup is to be made with.
pub fn icon_lookup_extension(ext: &str) -> (r: Option<String>)
    ensures
        match r {
            Some(s) => s@ == sanitized(lower_of(trimmed_of(ext@))) && s@.len() > 0,
            None => sanitized(lower_of(trimmed_of(ext@))).len() == 0,
        },
{
    let s = sanitize_extension(ext);
    if s.as_str().is_empty() {
        None
    } else {
        Some(s)
    }
}

} // verus!
