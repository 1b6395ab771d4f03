//! Shortening fully qualified type names for display.

use vstd::prelude::*;
use vstd::string::*;

verus! {

/// What the pattern `([\w\d]+)(<([^>]+)>)?$` finds in a type name: the
/// text of its first group and, when it took part, of its third; `None`
/// when nothing matches.
pub uninterp spec fn type_name_match(s: Seq<char>) -> Option<(Seq<char>, Option<Seq<char>>)>;

pub open spec fn match_view(m: Option<(String, Option<String>)>) -> Option<(Seq<char>, Option<Seq<char>>)> {
    match m {
        None => None,
        Some((base, None)) => Some((base@, None)),
        Some((base, Some(param))) => Some((base@, Some(param@))),
    }
}

/// Relies on regex::Regex::new, which accepts this fixed pattern, and on
/// regex::Regex::captures, whose groups depend on the searched text alone.
#[verifier::external_body]
fn match_type_name(path: &str) -> (r: Option<(String, Option<String>)>)
    ensures
        match_view(r) == type_name_match(path@),
{
    let re = regex::Regex::new(r"([\w\d]+)(<([^>]+)>)?$").unwrap();
    re.captures(path).map(|c| (c[1].to_string(), c.get(3).map(|g| g.as_str().to_string())))
}

/// Where the last `::`-separated piece of `s` starts, scanning from `i`
/// left to right with the current piece starting at `start`.
pub open spec fn segment_start(s: Seq<char>, i: int, start: int) -> int
    decreases s.len() - i,
{
    if i < 0 || i + 2 > s.len() {
        start
    } else if s[i] == ':' && s[i + 1] == ':' {
        segment_start(s, i + 2, i + 2)
    } else {
        segment_start(s, i + 1, start)
    }
}

/// The last piece of `s` split on `::`.
pub open spec fn last_segment(s: Seq<char>) -> Seq<char> {
    s.subrange(segment_start(s, 0, 0), s.len() as int)
}

/// The display name: the path itself when nothing matched, else the base
/// identifier, followed by the last piece of its parameter in angle brackets
/// when there is one.
pub open spec fn cleaned(path: Seq<char>, m: Option<(Seq<char>, Option<Seq<char>>)>) -> Seq<char> {
    match m {
        None => path,
        Some((base, None)) => base,
        Some((base, Some(param))) => base + seq!['<'] + last_segment(param) + seq!['>'],
    }
}

proof fn lemma_segment_start_bounds(s: Seq<char>, i: int, start: int)
    requires
        0 <= start <= s.len(),
        0 <= i,
    ensures
        0 <= segment_start(s, i, start) <= s.len(),
    decreases s.len() - i,
{
    if i + 2 > s.len() {
    } else if s[i] == ':' && s[i + 1] == ':' {
        lemma_segment_start_bounds(s, i + 2, i + 2);
    } else {
        lemma_segment_start_bounds(s, i + 1, start);
    }
}

/// The last piece of `s` split on `::`.
pub fn last_segment_of(s: &str) -> (r: String)
    ensures
        r@ == last_segment(s@),
{
    let n = s.unicode_len();
    let mut i: usize = 0;
    let mut start: usize = 0;
    while n - i >= 2
        invariant
            n == s@.len(),
            start <= i <= n,
            segment_start(s@, i as int, start as int) == segment_start(s@, 0, 0),
        decreases n - i,
    {
        if s.get_char(i) == ':' && s.get_char(i + 1) == ':' {
            i = i + 2;
            start = i;
        } else {
            i = i + 1;
        }
    }
    String::from_str(s.substring_char(start, n))
}

/// Builds the display name from what the pattern found in `path`.
pub fn clean_match(path: &str, m: Option<(String, Option<String>)>) -> (r: String)
    ensures
        r@ == cleaned(path@, match_view(m)),
{
    match m {
        None => String::from_str(path),
        Some((base, None)) => base,
        Some((base, Some(param))) => {
            let last = last_segment_of(param.as_str());
            proof {
                reveal_strlit("<");
                reveal_strlit(">");
            }
            base.concat("<").concat(last.as_str()).concat(">")
        },
    }
}

/// Shortens a fully qualified type name for display:
/// `a::b::Foo` becomes `Foo`, `a::Wrapper<b::c::Inner>` becomes
/// `Wrapper<Inner>`.
pub fn clean_path(path: &str) -> (r: String)
    ensures
        r@ == cleaned(path@, type_name_match(path@)),
{
    let m = match_type_name(path);
    clean_match(path, m)
}

} // verus!
